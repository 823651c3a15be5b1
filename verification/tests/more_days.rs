use aoc2023::days::day01;
use aoc2023::days::day04;
use aoc2023::days::day09;
use aoc2023::days::day11;
use std::collections::HashMap;

fn lines(text: &[&str]) -> Vec<String> {
    text.iter().map(|s| s.to_string()).collect()
}

fn chars(s: &str) -> Vec<char> {
    s.chars().collect()
}

#[test]
fn calibration_with_digits_alone() {
    let text = lines(&["1abc2", "pqr3stu8vwx", "a1b2c3d4e5f", "treb7uchet"]);
    assert_eq!(day01::solve_part(false, &text), 142);
    assert_eq!(day01::solve(&text), (142, 142));
}

#[test]
fn calibration_with_names_too() {
    let text = lines(&[
        "two1nine",
        "eightwothree",
        "abcone2threexyz",
        "xtwone3four",
        "4nineeightseven2",
        "zoneight234",
        "7pqrstsixteen",
    ]);
    assert_eq!(day01::solve_part(true, &text), 281);
    assert_eq!(day01::solve_part(false, &text), 11 + 0 + 22 + 33 + 42 + 24 + 77);
}

#[test]
fn a_line_without_digits_counts_nothing() {
    assert_eq!(day01::solve_part(false, &lines(&["abc", "", "one"])), 0);
    assert_eq!(day01::solve_part(true, &lines(&["abc", "", "one"])), 11);
    assert_eq!(day01::solve_part(true, &vec![]), 0);
}

#[test]
fn overlapping_names_both_count() {
    let names = day01::digit_names();
    assert_eq!(day01::calibrate(&chars("eightwo"), &names, true), 82);
    assert_eq!(day01::calibrate(&chars("oneight"), &names, true), 18);
    assert_eq!(day01::calibrate(&chars("x5x"), &names, true), 55);
    assert_eq!(day01::find_first(&chars("abtwo3"), &names, true), Some(2));
    assert_eq!(day01::find_first(&chars("abtwo3"), &names, false), Some(3));
    assert_eq!(day01::find_last(&chars("4nine"), &names, true), Some(9));
    assert_eq!(day01::find_last(&chars("4nine"), &names, false), Some(4));
    assert_eq!(day01::find_last(&chars("nin"), &names, true), None);
}

#[test]
fn a_digit_is_read_in_place() {
    let names = day01::digit_names();
    let line = chars("a7seven");
    assert_eq!(day01::get_digit_from_str(&line, 0, &names, true), None);
    assert_eq!(day01::get_digit_from_str(&line, 1, &names, true), Some(7));
    assert_eq!(day01::get_digit_from_str(&line, 2, &names, true), Some(7));
    assert_eq!(day01::get_digit_from_str(&line, 2, &names, false), None);
    assert_eq!(day01::get_digit_from_str(&line, 3, &names, true), None);
    let own = vec![chars("se"), chars("seven")];
    assert_eq!(day01::get_digit_from_str(&line, 2, &own, true), Some(1));
}

fn cards() -> Vec<String> {
    lines(&[
        "Card 1: 41 48 83 86 17 | 83 86  6 31 17  9 48 53",
        "Card 2: 13 32 20 16 61 | 61 30 68 82 17 32 24 19",
        "Card 3:  1 21 53 59 44 | 69 82 63 72 16 21 14  1",
        "Card 4: 41 92 73 84 69 | 59 84 76 51 58  5 54 83",
        "Card 5: 87 83 26 28 32 | 88 30 70 12 93 22 82 36",
        "Card 6: 31 18 13 56 72 | 74 77 10 23 35 67 36 11",
    ])
}

#[test]
fn wins_are_the_numbers_that_both_sides_have() {
    assert_eq!(day04::intersections(&cards()), Some(vec![4, 2, 2, 1, 0, 0]));
    assert_eq!(day04::count_wins("1 2 3 | 3 2 9"), Some(2));
    assert_eq!(day04::count_wins("a: b: 1 2 | 2 1"), Some(2));
    assert_eq!(day04::count_wins("|"), Some(0));
    assert_eq!(day04::count_wins("1 1 1 | 1"), Some(1));
    assert_eq!(day04::count_wins("1 | 1 1 1"), Some(1));
    assert_eq!(day04::count_wins("1 2 | 1 | 2"), Some(1));
    assert_eq!(day04::count_wins("12 | 1 2"), Some(0));
}

#[test]
fn a_line_without_bar_is_no_card() {
    assert_eq!(day04::count_wins("Card 1: 41 48"), None);
    assert_eq!(day04::count_wins("1 | 2 : 3"), None);
    assert_eq!(day04::count_wins(""), None);
    let mut bad = cards();
    bad.push("Card 7".to_string());
    assert_eq!(day04::intersections(&bad), None);
    assert_eq!(day04::solve(&bad), None);
}

#[test]
fn points_double_with_each_win() {
    assert_eq!(day04::card_worth(0), Some(0));
    assert_eq!(day04::card_worth(1), Some(1));
    assert_eq!(day04::card_worth(2), Some(2));
    assert_eq!(day04::card_worth(4), Some(8));
    assert_eq!(day04::card_worth(128), Some(1 << 127));
    assert_eq!(day04::card_worth(129), None);
    assert_eq!(day04::solve_part1(&vec![4, 2, 2, 1, 0, 0]), Some(13));
    assert_eq!(day04::solve_part1(&vec![]), Some(0));
    assert_eq!(day04::solve_part1(&vec![128, 128]), None);
    assert_eq!(day04::solve_part1(&vec![1, 200]), None);
}

#[test]
fn wins_earn_copies_of_the_cards_behind() {
    assert_eq!(day04::solve_part2(&vec![4, 2, 2, 1, 0, 0]), Some(30));
    assert_eq!(day04::solve_part2(&vec![]), Some(0));
    assert_eq!(day04::solve_part2(&vec![0, 0, 0]), Some(3));
    assert_eq!(day04::solve_part2(&vec![1, 1, 1]), Some(1 + 2 + 3));
    assert_eq!(day04::solve_part2(&vec![2, 2, 2]), Some(1 + 2 + 4));
    assert_eq!(day04::solve_part2(&vec![usize::MAX, 5]), Some(1 + 2));
    assert_eq!(day04::solve_part2(&vec![200; 127]), Some((1u128 << 127) - 1));
    assert_eq!(day04::solve_part2(&vec![200; 128]), Some(u128::MAX));
    assert_eq!(day04::solve_part2(&vec![200; 129]), None);
}

#[test]
fn the_table_counts_cards() {
    let mut table: HashMap<usize, u128> = HashMap::new();
    assert_eq!(day04::add_card(&mut table, 3, 1), Some(1));
    assert_eq!(day04::add_card(&mut table, 3, 4), Some(5));
    assert_eq!(day04::add_card(&mut table, 4, 7), Some(7));
    assert_eq!(table.get(&3), Some(&5));
    assert_eq!(table.len(), 2);
    assert_eq!(day04::add_card(&mut table, 3, u128::MAX - 4), None);
    assert_eq!(table.get(&3), Some(&5));
}

#[test]
fn both_answers_for_the_cards() {
    assert_eq!(day04::solve(&cards()), Some((Some(13), Some(30))));
}

#[test]
fn histories_are_carried_on_both_ways() {
    assert_eq!(day09::calculate_next(&vec![0, 3, 6, 9, 12, 15]), Some((-3, 18)));
    assert_eq!(day09::calculate_next(&vec![1, 3, 6, 10, 15, 21]), Some((0, 28)));
    assert_eq!(day09::calculate_next(&vec![10, 13, 16, 21, 30, 45]), Some((5, 68)));
    assert_eq!(day09::calculate_next(&vec![]), Some((0, 0)));
    assert_eq!(day09::calculate_next(&vec![0, 0]), Some((0, 0)));
    assert_eq!(day09::calculate_next(&vec![5]), Some((5, 5)));
    assert_eq!(day09::calculate_next(&vec![7, 7, 7]), Some((7, 7)));
}

#[test]
fn a_history_that_leaves_sixty_four_bits_has_no_values() {
    assert_eq!(day09::calculate_next(&vec![i64::MIN, i64::MAX]), None);
    assert_eq!(day09::calculate_next(&vec![i64::MAX, i64::MAX - 1, i64::MAX]), None);
    assert_eq!(day09::differences(&vec![1, 4, 9]), Some(vec![3, 5]));
    assert_eq!(day09::differences(&vec![1]), Some(vec![]));
    assert_eq!(day09::differences(&vec![]), Some(vec![]));
    assert_eq!(day09::differences(&vec![-2, i64::MAX]), None);
    assert!(day09::is_all_zero(&vec![0, 0]));
    assert!(!day09::is_all_zero(&vec![0, 1]));
}

#[test]
fn the_values_of_the_histories_add_up() {
    let text = lines(&["0 3 6 9 12 15", "1 3 6 10 15 21", "10 13 16 21 30 45"]);
    assert_eq!(day09::solve(&text), Some((114, 2)));
    assert_eq!(day09::solve(&vec![]), Some((0, 0)));
    assert_eq!(day09::solve(&lines(&["1 x 2 99999999999 3"])), Some((4, 0)));
    assert_eq!(day09::solve(&lines(&["", "5"])), Some((5, 5)));
}

fn sky() -> Vec<String> {
    lines(&[
        "...#......",
        ".......#..",
        "#.........",
        "..........",
        "......#...",
        ".#........",
        ".........#",
        "..........",
        ".......#..",
        "#...#.....",
    ])
}

#[test]
fn empty_rows_and_columns_are_found() {
    let rows = day11::to_grid(&sky());
    assert_eq!(day11::empty_lines(&rows), vec![3, 7]);
    let turned = day11::transpose(&rows);
    assert_eq!(turned.len(), 10);
    assert_eq!(turned[0], chars("..#......#"));
    assert_eq!(turned[9], chars("......#..."));
    assert_eq!(day11::empty_lines(&turned), vec![2, 5, 8]);
    assert_eq!(day11::transpose(&vec![]), Vec::<Vec<char>>::new());
    assert_eq!(day11::transpose(&vec![chars("ab"), chars("cde")]), vec![chars("ac"), chars("bd")]);
    assert_eq!(day11::empty_lines(&vec![chars(""), chars("."), chars(".#")]), vec![0, 1]);
}

#[test]
fn galaxies_are_found_row_by_row() {
    let rows = day11::to_grid(&sky());
    assert_eq!(
        day11::find_galaxies(&rows),
        vec![(0, 3), (1, 7), (2, 0), (4, 6), (5, 1), (6, 9), (8, 7), (9, 0), (9, 4)]
    );
    assert_eq!(day11::find_galaxies(&vec![]), vec![]);
    assert_eq!(day11::find_galaxies(&vec![chars(""), chars("##")]), vec![(1, 0), (1, 1)]);
}

#[test]
fn distances_grow_with_the_factor() {
    let rows = day11::to_grid(&sky());
    let empty_rows = day11::empty_lines(&rows);
    let empty_cols = day11::empty_lines(&day11::transpose(&rows));
    let galaxies = day11::find_galaxies(&rows);
    assert_eq!(day11::distance(&galaxies, &empty_cols, &empty_rows, 2), Some(374));
    assert_eq!(day11::distance(&galaxies, &empty_cols, &empty_rows, 10), Some(1030));
    assert_eq!(day11::distance(&galaxies, &empty_cols, &empty_rows, 100), Some(8410));
    assert_eq!(day11::distance(&galaxies, &empty_cols, &empty_rows, 1), Some(292));
    assert_eq!(day11::distance(&vec![], &empty_cols, &empty_rows, 2), Some(0));
    assert_eq!(day11::distance(&vec![(1, 1)], &empty_cols, &empty_rows, 2), Some(0));
}

#[test]
fn two_galaxies_are_as_far_apart_as_the_steps_between() {
    assert_eq!(day11::pair_distance((5, 1), (9, 4), &vec![2, 5, 8], &vec![3, 7], 2), Some(9));
    assert_eq!(day11::pair_distance((9, 4), (5, 1), &vec![2, 5, 8], &vec![3, 7], 2), Some(9));
    assert_eq!(day11::pair_distance((0, 3), (8, 7), &vec![2, 5, 8], &vec![3, 7], 2), Some(15));
    assert_eq!(day11::pair_distance((2, 0), (6, 9), &vec![2, 5, 8], &vec![3, 7], 2), Some(17));
    assert_eq!(day11::pair_distance((3, 3), (3, 3), &vec![3], &vec![3], 9), Some(0));
    assert_eq!(day11::count_between(&vec![1, 2, 3, 4, 5], 2, 5), 2);
    assert_eq!(day11::count_between(&vec![1, 2, 3, 4, 5], 5, 2), 2);
    assert_eq!(day11::count_between(&vec![1, 2, 3, 4, 5], 3, 3), 0);
    assert_eq!(
        day11::pair_distance((0, 0), (usize::MAX, usize::MAX), &vec![], &vec![], 1),
        Some(2 * usize::MAX as u128)
    );
}

#[test]
fn both_answers_for_the_sky() {
    assert_eq!(day11::solve(&sky()), Some((Some(374), Some(82000210))));
    assert_eq!(day11::solve(&vec![]), Some((Some(0), Some(0))));
    assert_eq!(day11::solve(&lines(&["#.#", ".."])), None);
    assert_eq!(day11::solve(&lines(&["#.", "..#"])), Some((Some(4), Some(1000002))));
}
