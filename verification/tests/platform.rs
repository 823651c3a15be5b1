use aoc2023::days::day11::{to_grid, transpose};
use aoc2023::days::day14::{copy_rows, grid_hash, rotate_grid, solve, solve_pt2, tilt_grid};

fn lines(text: &[&str]) -> Vec<String> {
    text.iter().map(|s| s.to_string()).collect()
}

fn platform() -> Vec<String> {
    lines(&[
        "O....#....",
        "O.OO#....#",
        ".....##...",
        "OO.#O....O",
        ".O.....O#.",
        "O.#..O.#.#",
        "..O..#O..O",
        ".......O..",
        "#....###..",
        "#OO..#....",
    ])
}

fn spin(columns: &Vec<Vec<char>>) -> Vec<Vec<char>> {
    let mut grid = copy_rows(columns);
    for _ in 0..4 {
        grid = rotate_grid(&tilt_grid(&grid).1);
    }
    grid
}

fn drawn(columns: &Vec<Vec<char>>) -> Vec<String> {
    transpose(columns).iter().map(|r| r.iter().collect()).collect()
}

#[test]
fn equal_grids_have_equal_hashes() {
    let a = to_grid(&platform());
    let b = copy_rows(&a);
    assert_eq!(a, b);
    assert_eq!(grid_hash(&a), grid_hash(&b));
    assert_ne!(grid_hash(&a), grid_hash(&transpose(&a)));
    assert_ne!(grid_hash(&to_grid(&lines(&["ab", "cd"]))), grid_hash(&to_grid(&lines(&["ab", "dc"]))));
    assert_eq!(grid_hash(&vec![]), grid_hash(&vec![]));
}

#[test]
fn one_full_turn_tilts_the_platform_four_ways() {
    let columns = transpose(&to_grid(&platform()));
    let once = spin(&columns);
    assert_eq!(
        drawn(&once),
        vec![
            ".....#....",
            "....#...O#",
            "...OO##...",
            ".OO#......",
            ".....OOO#.",
            ".O#...O#.#",
            "....O#....",
            "......OOOO",
            "#...O###..",
            "#..OO#....",
        ]
    );
    let thrice = spin(&spin(&once));
    assert_eq!(
        drawn(&thrice),
        vec![
            ".....#....",
            "....#...O#",
            ".....##...",
            "..O#......",
            ".....OOO#.",
            ".O#...O#.#",
            "....O#...O",
            ".......OOO",
            "#...O###.O",
            "#.OOO#...O",
        ]
    );
}

#[test]
fn the_load_after_many_full_turns() {
    let columns = transpose(&to_grid(&platform()));
    assert_eq!(solve_pt2(&columns, 0), 104);
    assert_eq!(solve_pt2(&columns, 1), 87);
    assert_eq!(solve_pt2(&columns, 2), 69);
    assert_eq!(solve_pt2(&columns, 3), 69);
    assert_eq!(solve_pt2(&columns, 1000000000), 64);
    assert_eq!(solve_pt2(&vec![], 5), 0);
}

#[test]
fn both_loads_for_the_platform() {
    assert_eq!(solve(&platform()), Some((136, 64)));
    assert_eq!(solve(&vec![]), Some((0, 0)));
    assert_eq!(solve(&lines(&["O.", ".#", ".."])), None);
    assert_eq!(solve(&lines(&["O..", ".#."])), None);
    assert_eq!(solve(&lines(&[".", "O"])), None);
    assert_eq!(solve(&lines(&["."])), Some((0, 0)));
    assert_eq!(solve(&lines(&["O"])), Some((1, 1)));
}
