use aoc2023::days::day11::transpose;
use aoc2023::days::day13::{find_mirror_location, read_patterns, same_row, solve, solve_pt1};

fn lines(text: &[&str]) -> Vec<String> {
    text.iter().map(|s| s.to_string()).collect()
}

fn rows(text: &[&str]) -> Vec<Vec<char>> {
    text.iter().map(|s| s.chars().collect()).collect()
}

fn valley() -> Vec<String> {
    lines(&[
        "#.##..##.",
        "..#.##.#.",
        "##......#",
        "##......#",
        "..#.##.#.",
        "..##..##.",
        "#.#.##.#.",
        "",
        "#...##..#",
        "#....#..#",
        "..##..###",
        "#####.##.",
        "#####.##.",
        "..##..###",
        "#....#..#",
    ])
}

#[test]
fn patterns_are_cut_at_empty_lines() {
    let list = read_patterns(&valley());
    assert_eq!(list.len(), 2);
    assert_eq!(list[0].len(), 7);
    assert_eq!(list[1].len(), 7);
    assert_eq!(list[1][0], "#...##..#".chars().collect::<Vec<char>>());
    assert_eq!(read_patterns(&vec![]), vec![Vec::<Vec<char>>::new()]);
    assert_eq!(read_patterns(&lines(&["", "a", ""])).len(), 3);
    assert!(same_row(&vec!['a', 'b'], &vec!['a', 'b']));
    assert!(!same_row(&vec!['a', 'b'], &vec!['a']));
    assert!(!same_row(&vec!['a', 'b'], &vec!['a', 'c']));
}

#[test]
fn the_mirror_between_two_equal_rows_is_found() {
    let list = read_patterns(&valley());
    assert_eq!(find_mirror_location(&list[1], 100), Some(4));
    assert_eq!(find_mirror_location(&transpose(&list[0]), 100), Some(5));
    assert_eq!(find_mirror_location(&rows(&["ab", "ab"]), 100), Some(1));
    assert_eq!(find_mirror_location(&rows(&["ab", "cd"]), 100), Some(0));
    assert_eq!(find_mirror_location(&rows(&["ab"]), 100), Some(0));
    assert_eq!(find_mirror_location(&vec![], 100), Some(0));
    assert_eq!(find_mirror_location(&vec![], 0), Some(0));
    assert_eq!(find_mirror_location(&rows(&["ab", "ab"]), 1), None);
}

#[test]
fn the_summaries_of_the_patterns_add_up() {
    let list = read_patterns(&valley());
    assert_eq!(solve_pt1(&list[0], &transpose(&list[0]), 100), Some(5));
    assert_eq!(solve_pt1(&list[1], &transpose(&list[1]), 100), Some(400));
    assert_eq!(solve(&valley(), 100), Some((405, 400)));
    assert_eq!(solve(&valley(), 2), None);
    assert_eq!(solve(&vec![], 10), Some((0, 0)));
    assert_eq!(solve(&lines(&["ab", "a"]), 10), None);
}
