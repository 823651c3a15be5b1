use aoc2023::days::day16::{
    copy_grid, energised_from, num_energised_from, read_grid, solve, Direction, Tile,
};
use aoc2023::days::day18::{flood_fill, Block};

fn lines(text: &[&str]) -> Vec<String> {
    text.iter().map(|s| s.to_string()).collect()
}

fn contraption() -> Vec<String> {
    lines(&[
        ".|...\\....",
        "|.-.\\.....",
        ".....|-...",
        "........|.",
        "..........",
        ".........\\",
        "..../.\\\\..",
        ".-.-/..|..",
        ".|....-|.\\",
        "..//.|....",
    ])
}

#[test]
fn a_tile_lets_a_beam_pass_once_in_each_direction() {
    let mut tile = Tile::from(('|', 0, 0));
    assert_eq!(tile.energised_count, 0);
    assert!(!tile.has_seen(Direction::LEFT));
    assert_eq!(tile.accept_beam(Direction::LEFT), Some(vec![Direction::UP, Direction::DOWN]));
    assert!(tile.has_seen(Direction::LEFT));
    assert!(!tile.has_seen(Direction::RIGHT));
    assert_eq!(tile.energised_count, 1);
    assert_eq!(tile.accept_beam(Direction::LEFT), None);
    assert_eq!(tile.energised_count, 1);
    assert_eq!(tile.accept_beam(Direction::UP), Some(vec![Direction::UP]));
    assert_eq!(tile.accept_beam(Direction::DOWN), Some(vec![Direction::DOWN]));
    assert_eq!(tile.accept_beam(Direction::RIGHT), Some(vec![Direction::UP, Direction::DOWN]));
    assert_eq!(tile.energised_count, 4);
    assert_eq!(tile.accept_beam(Direction::UP), None);
    assert_eq!(tile.tile_type, '|');
}

#[test]
fn the_beam_from_the_top_left_lights_forty_six_tiles() {
    let grid = read_grid(&contraption());
    assert_eq!(grid.len(), 10);
    assert_eq!(grid[0][5].tile_type, '\\');
    assert_eq!(energised_from(&grid, (0, 0), Direction::RIGHT), 46);
    assert_eq!(energised_from(&grid, (0, 3), Direction::DOWN), 51);
    assert_eq!(grid[0][0].energised_count, 0);
}

#[test]
fn a_beam_that_enters_off_the_grid_lights_nothing() {
    let grid = read_grid(&contraption());
    assert_eq!(energised_from(&grid, (-1, 0), Direction::RIGHT), 0);
    assert_eq!(energised_from(&grid, (0, 10), Direction::LEFT), 0);
    assert_eq!(energised_from(&grid, (10, 0), Direction::UP), 0);
    assert_eq!(energised_from(&read_grid(&vec![]), (0, 0), Direction::RIGHT), 0);
}

#[test]
fn tiles_that_were_lit_before_are_not_counted_again() {
    let mut grid = read_grid(&lines(&["...", "..."]));
    assert_eq!(num_energised_from((0, 0), Direction::RIGHT, &mut grid), 3);
    assert_eq!(num_energised_from((0, 0), Direction::RIGHT, &mut grid), 0);
    assert_eq!(num_energised_from((0, 1), Direction::DOWN, &mut grid), 1);
    assert_eq!(num_energised_from((1, 2), Direction::LEFT, &mut grid), 2);
    assert_eq!(grid[0][1].energised_count, 2);
    assert_eq!(grid[1][1].energised_count, 2);
    assert_eq!(grid[1][0].energised_count, 1);
    let copy = copy_grid(&grid);
    assert_eq!(copy, grid);
}

#[test]
fn beams_that_go_round_in_a_ring_come_to_rest() {
    let grid = read_grid(&lines(&["/-\\", "|.|", "\\-/"]));
    assert_eq!(energised_from(&grid, (0, 1), Direction::RIGHT), 8);
    assert_eq!(energised_from(&grid, (1, 1), Direction::RIGHT), 9);
    assert_eq!(energised_from(&grid, (1, 1), Direction::UP), 9);
}

#[test]
fn the_best_entry_is_tried_from_every_edge() {
    assert_eq!(solve(&contraption()), Some((46, 51)));
    assert_eq!(solve(&vec![]), None);
    assert_eq!(solve(&lines(&["..."])), Some((3, 3)));
    assert_eq!(solve(&lines(&[".", ".", "."])), Some((1, 3)));
    assert_eq!(solve(&lines(&[""])), Some((0, 0)));
}

#[test]
fn the_beam_from_below_enters_the_first_column_only() {
    assert_eq!(solve(&lines(&[".#", ".|", ".."])), Some((2, 4)));
}

fn site(text: &[&str]) -> Vec<Vec<Block>> {
    text.iter()
        .map(|row| row.chars().map(|c| Block { rel_location: (0, 0), flooded: c == '#' }).collect())
        .collect()
}

fn drawn(grid: &Vec<Vec<Block>>) -> Vec<String> {
    grid.iter().map(|row| row.iter().map(|b| if b.flooded { '#' } else { '.' }).collect()).collect()
}

#[test]
fn water_fills_what_the_walls_enclose() {
    let mut grid = site(&["#####", "#...#", "#.#.#", "#...#", "#####"]);
    assert_eq!(flood_fill(&mut grid, 1, 1), 8);
    assert_eq!(drawn(&grid), vec!["#####"; 5]);
    let mut grid = site(&["..#..", "..#..", "#####", "..#.."]);
    assert_eq!(flood_fill(&mut grid, 0, 0), 4);
    assert_eq!(drawn(&grid), vec!["###..", "###..", "#####", "..#.."]);
    assert_eq!(flood_fill(&mut grid, 0, 0), 0);
    assert_eq!(flood_fill(&mut grid, 3, 4), 2);
    assert_eq!(flood_fill(&mut grid, 1, 4), 4);
    assert_eq!(drawn(&grid), vec!["#####", "#####", "#####", "..###"]);
}

#[test]
fn water_does_not_pass_corners_or_leave_the_site() {
    let mut grid = site(&[".#", "#."]);
    assert_eq!(flood_fill(&mut grid, 0, 0), 1);
    assert_eq!(drawn(&grid), vec!["##", "#."]);
    assert_eq!(flood_fill(&mut grid, -1, 0), 0);
    assert_eq!(flood_fill(&mut grid, 0, 2), 0);
    assert_eq!(flood_fill(&mut grid, 2, 0), 0);
    assert_eq!(flood_fill(&mut grid, i64::MAX, i64::MIN), 0);
    assert_eq!(drawn(&grid), vec!["##", "#."]);
    let mut none: Vec<Vec<Block>> = vec![];
    assert_eq!(flood_fill(&mut none, 0, 0), 0);
    let mut grid = vec![vec![Block { rel_location: (7, 9), flooded: false }]];
    assert_eq!(flood_fill(&mut grid, 0, 0), 1);
    assert_eq!(grid[0][0], Block { rel_location: (7, 9), flooded: true });
}
