use aoc2023::days::day25::{component, has_edge, read_machine, solve};

fn lines(text: &[&str]) -> Vec<String> {
    text.iter().map(|s| s.to_string()).collect()
}

fn wiring() -> Vec<String> {
    lines(&[
        "jqt: rhn xhk nvd",
        "rsh: frs pzl lsr",
        "xhk: hfx",
        "cmg: qnr nvd lhk bvb",
        "rhn: xhk bvb hfx",
        "bvb: xhk hfx",
        "pzl: lsr hfx nvd",
        "qnr: nvd",
        "ntq: jqt hfx bvb xhk",
        "nvd: lhk",
        "lsr: lhk",
        "rzs: qnr cmg lsr rsh",
        "frs: qnr lhk lsr",
    ])
}

#[test]
fn the_machine_falls_into_nine_and_six() {
    assert_eq!(solve(&wiring()), Some((54, 0)));
}

#[test]
fn components_are_numbered_as_they_are_named() {
    let (names, edges) = read_machine(&lines(&["a: b c", "b: c a d", "d: a: e"])).unwrap();
    assert_eq!(names, vec!["a", "b", "c", "d"]);
    assert_eq!(edges, vec![(0, 1), (0, 2), (1, 2), (1, 3), (3, 0)]);
    let (names, edges) = read_machine(&lines(&["a: a b b"])).unwrap();
    assert_eq!(names, vec!["a", "b"]);
    assert_eq!(edges, vec![(0, 0), (0, 1)]);
    let (names, edges) = read_machine(&vec![]).unwrap();
    assert!(names.is_empty() && edges.is_empty());
    let (names, edges) = read_machine(&lines(&["a: "])).unwrap();
    assert_eq!(names, vec!["a"]);
    assert!(edges.is_empty());
    assert!(read_machine(&lines(&["a: b", "c:d"])).is_none());
    assert!(read_machine(&lines(&["a b"])).is_none());
}

#[test]
fn a_name_keeps_its_index() {
    let mut names = vec!["x".to_string()];
    assert_eq!(component(&mut names, "y".to_string()), 1);
    assert_eq!(component(&mut names, "x".to_string()), 0);
    assert_eq!(component(&mut names, "y".to_string()), 1);
    assert_eq!(names, vec!["x", "y"]);
    assert!(has_edge(&vec![(1, 2), (3, 4)], 4, 3));
    assert!(has_edge(&vec![(1, 2), (3, 4)], 1, 2));
    assert!(!has_edge(&vec![(1, 2), (3, 4)], 1, 3));
    assert!(!has_edge(&vec![], 0, 0));
}

#[test]
fn small_machines_are_cut_at_their_weakest_place() {
    assert_eq!(solve(&lines(&["a: b"])), Some((1, 0)));
    assert_eq!(solve(&lines(&["a: b c", "b: c", "c: d", "d: e f", "e: f"])), Some((9, 0)));
    assert_eq!(solve(&lines(&["a: b", "c: d"])).map(|(p, _)| p % 2), Some(0));
    assert_eq!(solve(&lines(&["a: b c d", "b: c d", "c: d", "d: e"])), Some((4, 0)));
}

#[test]
fn a_machine_of_one_component_cannot_be_cut() {
    assert_eq!(solve(&vec![]), None);
    assert_eq!(solve(&lines(&["a: a"])), None);
    assert_eq!(solve(&lines(&["a: "])), None);
    assert_eq!(solve(&lines(&["a b"])), None);
}
