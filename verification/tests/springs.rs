use aoc2023::days::day12::{
    agrees, count_arrangements, count_char, count_fitting, holds, read_lengths, solve,
    unknown_positions,
};

fn chars(s: &str) -> Vec<char> {
    s.chars().collect()
}

fn rows() -> Vec<String> {
    [
        "???.### 1,1,3",
        ".??..??...?##. 1,1,3",
        "?#?#?#?#?#?#?#? 1,3,1,6",
        "????.#...#... 4,1,1",
        "????.######..#####. 1,6,5",
        "?###???????? 3,2,1",
    ]
    .iter()
    .map(|s| s.to_string())
    .collect()
}

#[test]
fn it_works() {
    let result = solve(&rows());
    println!("{result:?}");
}

#[test]
fn the_rows_have_twenty_one_arrangements() {
    assert_eq!(solve(&rows()), Some((21, 0)));
    assert_eq!(solve(&vec![]), Some((0, 0)));
}

#[test]
fn each_row_has_its_arrangements() {
    let counts: Vec<Option<usize>> = rows().iter().map(|r| count_arrangements(r)).collect();
    assert_eq!(counts, vec![Some(1), Some(4), Some(1), Some(1), Some(4), Some(10)]);
}

#[test]
fn a_line_of_one_word_has_no_meaning() {
    assert_eq!(count_arrangements("???.###"), None);
    assert_eq!(count_arrangements(""), None);
    assert_eq!(count_arrangements("   "), None);
    let mut lines = rows();
    lines.push("oops".to_string());
    assert_eq!(solve(&lines), None);
}

#[test]
fn more_damaged_springs_than_listed_is_no_arrangement() {
    assert_eq!(count_arrangements("###.# 1,1"), Some(0));
    assert_eq!(count_arrangements("?.? 5"), Some(0));
}

#[test]
fn a_row_without_unknowns_is_checked_as_it_stands() {
    assert_eq!(count_arrangements("#.#.### 1,1,3"), Some(1));
    assert_eq!(count_arrangements("#.#.### 1,3,1"), Some(0));
    assert_eq!(count_arrangements("#.#.### 1,1,3   trailing words"), Some(1));
}

#[test]
fn what_spells_no_length_is_passed_over() {
    assert_eq!(read_lengths(&chars("1,x,3,,+2,-4,99999999999")), (vec![1, 3, 2, -4], 2));
    assert_eq!(read_lengths(&chars("")), (vec![], 0));
    assert_eq!(read_lengths(&chars("2147483647,2147483648")), (vec![2147483647], 2147483647));
    assert_eq!(count_arrangements("??.## 1,x,2"), Some(2));
}

#[test]
fn unknown_springs_are_found_by_position() {
    assert_eq!(unknown_positions(&chars("?#?.?")), vec![0, 2, 4]);
    assert_eq!(unknown_positions(&chars("#..#")), vec![]);
    assert_eq!(count_char(&chars("?#?.## 1"), '#'), 3);
    assert_eq!(count_char(&chars(""), '#'), 0);
    assert!(holds(&vec![3, 5], 5));
    assert!(!holds(&vec![3, 5], 4));
}

#[test]
fn a_row_agrees_when_its_runs_have_the_lengths_listed() {
    let springs = chars("???.###");
    assert!(agrees(&springs, &vec![0, 2], &vec![1, 1, 3]));
    assert!(!agrees(&springs, &vec![0, 1], &vec![1, 1, 3]));
    assert!(!agrees(&springs, &vec![1, 2], &vec![1, 1, 3]));
    assert!(!agrees(&springs, &vec![0, 2], &vec![1, 1]));
    assert!(!agrees(&springs, &vec![], &vec![]));
    assert!(agrees(&chars("..."), &vec![], &vec![]));
    assert!(agrees(&chars("#"), &vec![], &vec![1]));
    assert!(!agrees(&chars("#"), &vec![], &vec![-1]));
}

#[test]
fn runs_that_are_listed_but_missing_do_not_count_against_a_row() {
    assert!(agrees(&chars("#.."), &vec![], &vec![1, 2]));
}

#[test]
fn fitting_choices_are_counted() {
    let springs = chars(".??..??...?##.");
    let all = vec![vec![1, 5, 10], vec![1, 2, 10], vec![2, 6, 10], vec![1, 5, 6]];
    assert_eq!(count_fitting(&springs, &all, &vec![1, 1, 3]), 2);
    assert_eq!(count_fitting(&springs, &vec![], &vec![1, 1, 3]), 0);
}

#[test]
fn every_choice_of_unknowns_is_tried() {
    assert_eq!(count_arrangements("??? 1"), Some(3));
    assert_eq!(count_arrangements("??? 2"), Some(2));
    assert_eq!(count_arrangements("??? 3"), Some(1));
    assert_eq!(count_arrangements("???? 1,1"), Some(3));
    assert_eq!(count_arrangements("??????? 1,1,1"), Some(10));
    assert_eq!(count_arrangements("??? 0"), Some(1));
}

#[test]
fn a_row_with_many_unknowns() {
    assert_eq!(count_arrangements("?????????? 1,1,1"), Some(56));
}
