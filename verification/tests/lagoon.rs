use aoc2023::days::day18::{dig, lagoon, read_order, solve_pt1};

fn lines(text: &[&str]) -> Vec<String> {
    text.iter().map(|s| s.to_string()).collect()
}

fn plan() -> Vec<String> {
    lines(&[
        "R 6 (#70c710)",
        "D 5 (#0dc571)",
        "L 2 (#5713f0)",
        "D 2 (#d2c081)",
        "R 2 (#59c680)",
        "D 2 (#411b91)",
        "L 5 (#8ceee2)",
        "U 2 (#caa173)",
        "L 1 (#1b58a2)",
        "U 2 (#caa171)",
        "R 2 (#7807d2)",
        "U 3 (#a77fa3)",
        "L 2 (#015232)",
        "U 2 (#7a21e3)",
    ])
}

#[test]
fn a_line_gives_a_direction_and_a_distance() {
    assert_eq!(read_order("R 6 (#70c710)"), Some(('R', 6)));
    assert_eq!(read_order("  U   12"), Some(('U', 12)));
    assert_eq!(read_order("Down 3"), Some(('D', 3)));
    assert_eq!(read_order("L x"), Some(('L', 0)));
    assert_eq!(read_order("L -4"), Some(('L', -4)));
    assert_eq!(read_order("X 3"), None);
    assert_eq!(read_order("R"), None);
    assert_eq!(read_order(""), None);
}

#[test]
fn the_trench_is_dug_square_by_square() {
    let path = dig(&lines(&["R 2", "D 1", "L 0", "U -3"])).unwrap();
    let squares: Vec<(i64, i64)> = path.iter().map(|b| b.rel_location).collect();
    assert_eq!(squares, vec![(0, 1), (0, 2), (1, 2)]);
    assert!(path.iter().all(|b| b.flooded));
    assert!(dig(&lines(&["R 2", "Q 1"])).is_none());
    assert_eq!(dig(&lines(&[])).unwrap().len(), 0);
}

#[test]
fn the_trench_and_what_it_encloses() {
    assert_eq!(lagoon(&plan(), 1, 1), Some(62));
    assert_eq!(lagoon(&plan(), 8, 2), Some(62));
}

#[test]
fn water_let_in_on_the_trench_or_outside_the_site_floods_nothing() {
    assert_eq!(lagoon(&plan(), 0, 0), Some(38));
    assert_eq!(lagoon(&plan(), -1, 3), Some(38));
    assert_eq!(solve_pt1(&plan()), Some(38));
}

#[test]
fn water_let_in_outside_the_trench_floods_the_rest_of_the_site() {
    assert_eq!(lagoon(&plan(), 9, 0), Some(38 + 2));
    assert_eq!(lagoon(&plan(), 3, 0), Some(38 + 4));
    assert_eq!(lagoon(&plan(), 6, 5), Some(38 + 2));
}

#[test]
fn a_plan_that_digs_nothing_holds_nothing() {
    assert_eq!(lagoon(&lines(&[]), 0, 0), None);
    assert_eq!(lagoon(&lines(&["R 0"]), 0, 0), None);
    assert_eq!(lagoon(&lines(&["R 1", "south 2"]), 0, 0), None);
}

#[test]
fn a_trench_that_crosses_itself_counts_each_step() {
    assert_eq!(lagoon(&lines(&["R 2", "L 2"]), 5, 5), Some(4));
}
