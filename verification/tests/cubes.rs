use aoc2023::days::day02::{
    extract_games, is_possible, power_of, read_bag, read_count, solve, solve_part1, solve_part2,
    Bag, Game,
};

fn lines(text: &[&str]) -> Vec<String> {
    text.iter().map(|s| s.to_string()).collect()
}

fn games() -> Vec<String> {
    lines(&[
        "Game 1: 3 blue, 4 red; 1 red, 2 green, 6 blue; 2 green",
        "Game 2: 1 blue, 2 green; 3 green, 4 blue, 1 red; 1 green, 1 blue",
        "Game 3: 8 green, 6 blue, 20 red; 5 blue, 4 red, 13 green; 5 green, 1 red",
        "Game 4: 1 green, 3 red, 6 blue; 3 green, 6 red; 3 green, 15 blue, 14 red",
        "Game 5: 6 red, 1 blue, 3 green; 2 blue, 1 red, 2 green",
    ])
}

fn bag(red: u32, green: u32, blue: u32) -> Bag {
    Bag { red, green, blue }
}

fn group(s: &str) -> Option<String> {
    Some(s.to_string())
}

#[test]
fn games_are_read_draw_by_draw() {
    let games = extract_games(&games()).unwrap();
    assert_eq!(games.len(), 5);
    assert_eq!(games[0].id, 1);
    assert_eq!(games[0].bags, vec![bag(4, 0, 3), bag(1, 2, 6), bag(0, 2, 0)]);
    assert_eq!(games[2].id, 3);
    assert_eq!(games[2].bags, vec![bag(20, 8, 6), bag(4, 13, 5), bag(1, 5, 0)]);
    assert_eq!(games[4].id, 5);
    assert_eq!(games[4].bags, vec![bag(6, 3, 1), bag(1, 2, 2)]);
}

#[test]
fn the_pattern_finds_counts_with_or_without_space() {
    let games = extract_games(&lines(&["x: 3red,4  blue 5green", ": 7 reds 12 bluered", ":"]))
        .unwrap();
    assert_eq!(games[0].bags, vec![bag(3, 5, 4)]);
    assert_eq!(games[1].bags, vec![bag(7, 0, 12)]);
    assert_eq!(games[2].bags, vec![bag(0, 0, 0)]);
}

#[test]
fn of_several_counts_of_a_colour_the_last_stands() {
    let games = extract_games(&lines(&["g: 3 red, 5 red; 1 blue: 9 green"])).unwrap();
    assert_eq!(games[0].bags, vec![bag(5, 0, 0), bag(0, 0, 1)]);
    let games = extract_games(&lines(&["g: 99999999999 red, 4294967295 blue"])).unwrap();
    assert_eq!(games[0].bags, vec![bag(0, 0, 4294967295)]);
}

#[test]
fn a_line_without_colon_is_no_game() {
    assert!(extract_games(&lines(&["Game 1 3 blue"])).is_none());
    assert!(extract_games(&lines(&["Game 1: 3 blue", ""])).is_none());
    assert_eq!(solve_part1(&lines(&["no game"])), None);
    assert_eq!(solve_part2(&lines(&["no game"])), None);
    assert_eq!(solve(&lines(&["no game"])), None);
    assert_eq!(extract_games(&vec![]).unwrap().len(), 0);
}

#[test]
fn a_bag_is_read_from_the_groups_of_the_matches() {
    let found = vec![
        vec![group("3 blue"), None, None, group("3")],
        vec![group("4 red"), group("4"), None, None],
        vec![group("x"), None, group("7"), None],
        vec![group("y"), group("1")],
        vec![],
    ];
    assert_eq!(read_bag(&found), bag(1, 7, 3));
    assert_eq!(read_bag(&vec![]), bag(0, 0, 0));
    assert_eq!(read_bag(&vec![vec![None, group("x"), group("-3"), group("+8")]]), bag(0, 0, 8));
    assert_eq!(read_count(&"12".to_string()), 12);
    assert_eq!(read_count(&"4294967296".to_string()), 0);
    assert_eq!(read_count(&"".to_string()), 0);
    assert_eq!(read_count(&"٣".to_string()), 0);
}

#[test]
fn possible_games_and_powers() {
    let all = extract_games(&games()).unwrap();
    let possible: Vec<bool> = all.iter().map(is_possible).collect();
    assert_eq!(possible, vec![true, true, false, false, true]);
    let powers: Vec<u128> = all.iter().map(power_of).collect();
    assert_eq!(powers, vec![48, 12, 1560, 630, 36]);
    assert!(is_possible(&Game { id: 1, bags: vec![bag(12, 13, 14)] }));
    assert!(!is_possible(&Game { id: 1, bags: vec![bag(13, 0, 0)] }));
    assert!(!is_possible(&Game { id: 1, bags: vec![bag(0, 14, 0)] }));
    assert!(!is_possible(&Game { id: 1, bags: vec![bag(0, 0, 15)] }));
    assert!(is_possible(&Game { id: 1, bags: vec![] }));
    assert_eq!(power_of(&Game { id: 1, bags: vec![] }), 0);
    let max = u32::MAX as u128;
    assert_eq!(power_of(&Game { id: 1, bags: vec![bag(u32::MAX, u32::MAX, u32::MAX)] }), max * max * max);
}

#[test]
fn both_sums_for_the_games() {
    assert_eq!(solve_part1(&games()), Some(8));
    assert_eq!(solve_part2(&games()), Some(2286));
    assert_eq!(solve(&games()), Some((8, 2286)));
    assert_eq!(solve(&vec![]), Some((0, 0)));
}
