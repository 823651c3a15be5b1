use aoc2023::days::day21::{
    find_start, get_hits_memo, is_usable, solve, solve_iterative, solve_pt2, HitsMemo, GRID_LEN,
};

fn garden(rocks: bool) -> Vec<Vec<char>> {
    let mut rows = Vec::new();
    for r in 0..GRID_LEN {
        let mut row = Vec::new();
        for c in 0..GRID_LEN {
            let inner = 0 < r && r < 130 && 0 < c && c < 130;
            if r == 65 && c == 65 {
                row.push('S');
            } else if rocks && (r * 7 + c * 13) % 11 == 0 && r != 65 && c != 65 && inner {
                row.push('#');
            } else {
                row.push('.');
            }
        }
        rows.push(row);
    }
    rows
}

fn flat(rows: &Vec<Vec<char>>) -> Vec<char> {
    rows.iter().flatten().copied().collect()
}

fn lines(rows: &Vec<Vec<char>>) -> Vec<String> {
    rows.iter().map(|r| r.iter().collect()).collect()
}

fn painted(rows: &Vec<Vec<char>>) -> usize {
    rows.iter().flatten().filter(|c| **c == '0').count()
}

#[test]
fn a_short_run_of_squares() {
    let squares: Vec<char> = "S.#..".chars().collect();
    let (count, rows) = solve_iterative(&squares, 0, 3);
    assert_eq!(count, 1);
    assert!(rows.is_empty());
    let (count, _) = solve_iterative(&squares, 0, 2);
    assert_eq!(count, 1);
    let (count, _) = solve_iterative(&squares, 0, 0);
    assert_eq!(count, 1);
    let (count, _) = solve_iterative(&squares, 4, 1);
    assert_eq!(count, 1);
    let (count, _) = solve_iterative(&squares, 4, 8);
    assert_eq!(count, 1);
}

#[test]
fn a_walk_from_nowhere_or_of_no_steps_ends_nowhere() {
    let squares: Vec<char> = "S.#..".chars().collect();
    assert_eq!(solve_iterative(&squares, 0, -1).0, 0);
    assert_eq!(solve_iterative(&squares, 2, 5).0, 0);
    assert_eq!(solve_iterative(&squares, 5, 5).0, 0);
    assert_eq!(solve_iterative(&squares, -1, 5).0, 0);
    assert_eq!(solve_iterative(&[], 0, 5).0, 0);
    assert_eq!(solve_iterative(&squares, 0, i32::MIN).0, 0);
}

#[test]
fn one_step_on_leads_into_the_next_row() {
    let squares = vec!['.'; 2 * GRID_LEN];
    let (count, rows) = solve_iterative(&squares, 130, 1);
    assert_eq!(count, 3);
    assert_eq!(rows.len(), 2);
    assert!(rows.iter().all(|r| r.len() == GRID_LEN));
    assert_eq!(rows[0][129], '0');
    assert_eq!(rows[0][130], '.');
    assert_eq!(rows[1][0], '0');
    assert_eq!(rows[1][130], '0');
    assert_eq!(painted(&rows), 3);
}

#[test]
fn only_full_rows_are_handed_back() {
    let squares = vec!['.'; GRID_LEN + 7];
    let (count, rows) = solve_iterative(&squares, 0, 2);
    // squares 0 and 2 of the first row, the square behind the first of the
    // second row, and the one before it, which is the last of the first
    assert_eq!(count, 4);
    assert_eq!(rows.len(), 1);
    assert_eq!(rows[0][0], '0');
    assert_eq!(rows[0][1], '.');
    assert_eq!(rows[0][2], '0');
    assert_eq!(rows[0][130], '0');
    assert_eq!(painted(&rows), 3);
}

#[test]
fn the_walk_in_an_open_garden() {
    let squares = flat(&garden(false));
    let start = 65 * 131 + 65;
    assert_eq!(solve_iterative(&squares, start, 64).0, 4225);
    assert_eq!(solve_iterative(&squares, start, 1).0, 4);
    assert_eq!(solve_iterative(&squares, start, 2).0, 9);
    let (count, rows) = solve_iterative(&squares, start, 130);
    assert_eq!(count, 8581);
    assert_eq!(painted(&rows), 8581);
    assert_eq!(rows[65][65], '0');
    assert_eq!(rows[65][64], '.');
    assert_eq!(solve_iterative(&squares, start - 1, 130).0, 8580);
}

#[test]
fn the_walk_among_rocks() {
    let squares = flat(&garden(true));
    let start = 65 * 131 + 65;
    assert_eq!(solve_iterative(&squares, start, 64).0, 3853);
    let (count, rows) = solve_iterative(&squares, start, 130);
    assert_eq!(count, 7836);
    assert_eq!(painted(&rows), 7836);
    assert_eq!(rows.len(), GRID_LEN);
    assert_eq!(solve_iterative(&squares, start - 1, 130).0, 7834);
}

#[test]
fn the_endless_garden_row_by_row() {
    let squares = flat(&garden(true));
    let start = 65 * 131 + 65;
    let even = solve_iterative(&squares, start, 130).1;
    let odd = solve_iterative(&squares, start - 1, 130).1;
    assert_eq!(solve_pt2((65, 65), 10, &even, &odd), Some(93));
    assert_eq!(solve_pt2((65, 65), 500, &even, &odd), Some(228272));
    assert_eq!(solve_pt2((65, 65), 0, &even, &odd), Some(0));
    assert_eq!(solve_pt2((65, 65), 1, &even, &odd), Some(4));
    assert_eq!(solve_pt2((65, 65), 131, &even, &odd), Some(15910));
    let squares = flat(&garden(false));
    let even = solve_iterative(&squares, start, 130).1;
    let odd = solve_iterative(&squares, start - 1, 130).1;
    assert_eq!(solve_pt2((65, 65), 300, &even, &odd), Some(90000));
}

#[test]
fn when_the_endless_garden_has_no_count() {
    let squares = flat(&garden(true));
    let start = 65 * 131 + 65;
    let even = solve_iterative(&squares, start, 130).1;
    let odd = solve_iterative(&squares, start - 1, 130).1;
    assert_eq!(solve_pt2((65, 65), -1, &even, &odd), Some(0));
    assert_eq!(solve_pt2((65, 65), -1, &vec![], &vec![]), Some(0));
    assert_eq!(solve_pt2((65, 65), i32::MIN, &even, &odd), None);
    assert_eq!(solve_pt2((132, 0), 10, &even, &odd), None);
    assert!(solve_pt2((131, 0), 10, &even, &odd).is_some());
    assert_eq!(solve_pt2((65, 65), i32::MAX - 64, &even, &odd), None);
    let short: Vec<Vec<char>> = even[..130].to_vec();
    assert_eq!(solve_pt2((65, 65), 10, &short, &odd), None);
    assert_eq!(solve_pt2((65, 65), 10, &even, &short), None);
    let mut narrow = even.clone();
    narrow[130].pop();
    assert_eq!(solve_pt2((65, 65), 10, &narrow, &odd), None);
}

#[test]
fn stretches_of_a_row_are_counted() {
    let squares = flat(&garden(true));
    let start = 65 * 131 + 65;
    let even = solve_iterative(&squares, start, 130).1;
    let odd = solve_iterative(&squares, start - 1, 130).1;
    assert!(is_usable(&even));
    assert!(!is_usable(&vec![vec!['.'; 131]; 130]));
    assert!(!is_usable(&vec![vec!['.'; 130]; 131]));
    assert!(is_usable(&vec![vec!['.'; 140]; 150]));
    let memo = HitsMemo::new(&even, &odd);
    for (row, from, to) in [(0usize, 0usize, 131usize), (65, 65, 131), (65, 0, 65), (130, 7, 7), (17, 3, 99)] {
        let in_even = even[row][from..to].iter().filter(|c| **c == '0').count() as i64;
        let in_odd = odd[row][from..to].iter().filter(|c| **c == '0').count() as i64;
        assert_eq!(get_hits_memo(&even, &odd, true, row as i32, from as i32, to as i32, &memo), in_even);
        assert_eq!(get_hits_memo(&even, &odd, false, row as i32, from as i32, to as i32, &memo), in_odd);
    }
    assert_eq!(get_hits_memo(&even, &odd, true, 65, 65, 66, &memo), 1);
    assert_eq!(get_hits_memo(&even, &odd, false, 65, 65, 66, &memo), 0);
}

#[test]
fn the_start_is_the_first_square_marked() {
    assert_eq!(find_start(&"..S.S".chars().collect()), Some(2));
    assert_eq!(find_start(&"S".chars().collect()), Some(0));
    assert_eq!(find_start(&"..#".chars().collect()), None);
    assert_eq!(find_start(&vec![]), None);
}

#[test]
fn a_garden_of_another_size_or_without_a_start_has_no_answers() {
    let mut rows = garden(true);
    rows[65][65] = '.';
    assert_eq!(solve(&lines(&rows)), None);
    let mut rows = garden(true);
    rows.pop();
    assert_eq!(solve(&lines(&rows)), None);
    let mut rows = garden(true);
    rows[3].push('.');
    assert_eq!(solve(&lines(&rows)), None);
    assert_eq!(solve(&vec![]), None);
}

#[test]
fn both_answers_for_a_garden_with_rocks() {
    assert_eq!(solve(&lines(&garden(true))), Some((3853, 641302488418672)));
}
