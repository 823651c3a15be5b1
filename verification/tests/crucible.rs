use aoc2023::days::day17::{direction, min_loss_djikstra, read_blocks, solve, widest_row};

fn lines(text: &[&str]) -> Vec<String> {
    text.iter().map(|s| s.to_string()).collect()
}

fn city() -> Vec<String> {
    lines(&[
        "2413432311323",
        "3215453535623",
        "3255245654254",
        "3446585845452",
        "4546657867536",
        "1438598798454",
        "4457876987766",
        "3637877979653",
        "4654967986887",
        "4564679986453",
        "1224686865563",
        "2546548887735",
        "4322674655533",
    ])
}

#[test]
fn the_least_loss_through_the_city() {
    let blocks = read_blocks(&city());
    assert_eq!(min_loss_djikstra(&blocks, 0, 3), Some(102));
    assert_eq!(min_loss_djikstra(&blocks, 4, 10), Some(94));
    assert_eq!(solve(&city()), Some((102, 94)));
}

#[test]
fn an_ultra_crucible_may_stop_short_of_four_blocks() {
    // the far corner counts however the crucible comes to it
    let blocks = read_blocks(&lines(&["111111111111", "999999999991", "999999999991", "999999999991", "999999999991"]));
    assert_eq!(min_loss_djikstra(&blocks, 4, 10), Some(47));
    assert_eq!(min_loss_djikstra(&blocks, 0, 3), Some(59));
}

#[test]
fn a_city_of_one_block_costs_nothing() {
    assert_eq!(min_loss_djikstra(&vec![vec![7]], 0, 3), Some(0));
    assert_eq!(min_loss_djikstra(&vec![vec![7]], 4, 10), Some(0));
    assert_eq!(solve(&lines(&["7"])), Some((0, 0)));
}

#[test]
fn a_city_without_rows_has_no_answer() {
    assert_eq!(min_loss_djikstra(&vec![], 0, 3), None);
    assert_eq!(solve(&lines(&[])), None);
}

#[test]
fn where_no_way_leads_the_loss_is_nothing() {
    // the far corner lies in the last column of the first row, which the
    // last row does not have
    assert_eq!(min_loss_djikstra(&vec![vec![1, 2, 3], vec![4]], 0, 3), Some(0));
    // a crucible that may never go on turns at every block
    assert_eq!(min_loss_djikstra(&vec![vec![1, 2], vec![3, 4]], 0, 0), Some(6));
    assert_eq!(min_loss_djikstra(&vec![vec![], vec![]], 0, 3), Some(0));
    // three blocks one way are not enough for a row of five
    assert_eq!(min_loss_djikstra(&vec![vec![1, 1, 1, 1, 1]], 0, 3), Some(0));
    assert_eq!(min_loss_djikstra(&vec![vec![1, 1, 1, 1, 1]], 0, 4), Some(4));
}

#[test]
fn small_cities() {
    assert_eq!(min_loss_djikstra(&vec![vec![1, 2], vec![3, 4]], 0, 3), Some(6));
    assert_eq!(min_loss_djikstra(&vec![vec![1, 9, 1], vec![1, 9, 1], vec![1, 1, 1]], 0, 3), Some(4));
    assert_eq!(min_loss_djikstra(&vec![vec![1, 9, 1], vec![1, 9, 1], vec![1, 1, 1]], 0, 1), Some(12));
    assert_eq!(min_loss_djikstra(&vec![vec![0, 4294967295], vec![4294967295, 4294967295]], 0, 3), Some(8589934590));
}

#[test]
fn only_digits_are_blocks() {
    assert_eq!(read_blocks(&lines(&["1a2 3", "", "x", "90"])), vec![vec![1, 2, 3], vec![], vec![], vec![9, 0]]);
    assert_eq!(widest_row(&vec![vec![1, 2, 3], vec![], vec![9, 0]]), 3);
    assert_eq!(widest_row(&vec![vec![], vec![]]), 1);
    assert_eq!(widest_row(&vec![]), 1);
}

#[test]
fn the_four_ways() {
    assert_eq!(direction(0), (1, 0));
    assert_eq!(direction(1), (-1, 0));
    assert_eq!(direction(2), (0, 1));
    assert_eq!(direction(3), (0, -1));
}
