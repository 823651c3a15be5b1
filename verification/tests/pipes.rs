use aoc2023::days::day10::{
    count_enclosed, get_pipe_element, get_pipe_start, on_loop, parse_grid, solve, PipeSection,
};

fn lines(text: &[&str]) -> Vec<String> {
    text.iter().map(|s| s.to_string()).collect()
}

fn square() -> Vec<String> {
    lines(&[".....", ".S-7.", ".|.|.", ".L-J.", "....."])
}

fn winding() -> Vec<String> {
    lines(&["..F7.", ".FJ|.", "SJ.L7", "|F--J", "LJ..."])
}

#[test]
fn the_map_is_kept_by_columns() {
    let (grid, start) = parse_grid(&square());
    assert_eq!(start, (1, 1));
    assert_eq!(grid.len(), 5);
    assert_eq!(grid[0], vec![None; 5]);
    assert_eq!(
        grid[1],
        vec![
            None,
            PipeSection::from_char('S'),
            PipeSection::from_char('|'),
            PipeSection::from_char('L'),
            None
        ]
    );
    assert_eq!(get_pipe_element(&grid, (3, 1)), PipeSection::from_char('7'));
    assert_eq!(get_pipe_element(&grid, (1, 3)), PipeSection::from_char('L'));
    let (grid, start) = parse_grid(&vec![]);
    assert!(grid.is_empty());
    assert_eq!(start, (0, 0));
}

#[test]
fn short_lines_leave_their_columns_short() {
    let (grid, start) = parse_grid(&lines(&["|S", "-", "", "F7J"]));
    assert_eq!(start, (1, 0));
    assert_eq!(grid.len(), 3);
    assert_eq!(
        grid[0],
        vec![PipeSection::from_char('|'), PipeSection::from_char('-'), PipeSection::from_char('F')]
    );
    assert_eq!(grid[1], vec![PipeSection::from_char('S'), PipeSection::from_char('7')]);
    assert_eq!(grid[2], vec![PipeSection::from_char('J')]);
    let (_, start) = parse_grid(&lines(&["S.", ".S", ".."]));
    assert_eq!(start, (1, 1));
    let (_, start) = parse_grid(&lines(&["S.S"]));
    assert_eq!(start, (2, 0));
}

#[test]
fn the_walk_begins_at_the_first_neighbour_that_leads_on() {
    let (grid, _) = parse_grid(&square());
    assert_eq!(get_pipe_start(&grid, (1, 1)), (2, 1));
    let (grid, _) = parse_grid(&winding());
    assert_eq!(get_pipe_start(&grid, (0, 2)), (1, 2));
    let (grid, _) = parse_grid(&lines(&["...", ".S.", "..."]));
    assert_eq!(get_pipe_start(&grid, (1, 1)), (0, 0));
    let (grid, _) = parse_grid(&lines(&[".|.", ".S.", "..."]));
    assert_eq!(get_pipe_start(&grid, (1, 1)), (1, 0));
    let (grid, _) = parse_grid(&lines(&["S-"]));
    assert_eq!(get_pipe_start(&grid, (0, 0)), (1, 0));
}

#[test]
fn the_loop_is_walked_until_it_closes() {
    assert_eq!(solve(&square(), 100).map(|a| a.0), Some(4));
    assert_eq!(solve(&winding(), 100).map(|a| a.0), Some(8));
    assert_eq!(solve(&square(), 8).map(|a| a.0), Some(4));
    assert_eq!(solve(&square(), 7), None);
    assert_eq!(solve(&square(), 0), None);
}

#[test]
fn a_walk_that_comes_to_an_end_gives_no_answer() {
    assert_eq!(solve(&lines(&["S-.", "..."]), 100), None);
    assert_eq!(solve(&lines(&["S--"]), 100), None);
    assert_eq!(solve(&lines(&["...", ".S."]), 100), None);
}

#[test]
fn without_a_way_on_from_the_start_the_loop_is_the_start() {
    assert_eq!(solve(&lines(&["..."]), 100), Some((0, 0)));
    assert_eq!(solve(&vec![], 100), Some((0, 0)));
    assert_eq!(solve(&lines(&["S|."]), 100), Some((0, 2)));
    assert_eq!(solve(&vec![], 0), None);
}

#[test]
fn tiles_inside_the_loop_are_counted_row_by_row() {
    assert_eq!(solve(&square(), 100), Some((4, 2)));
    let tiles = vec![(1, 1), (2, 1), (3, 1), (3, 2), (3, 3), (2, 3), (1, 3), (1, 2), (1, 1)];
    assert_eq!(count_enclosed(&square(), &tiles), 2);
    assert_eq!(count_enclosed(&square(), &vec![]), 0);
    assert_eq!(count_enclosed(&lines(&["|.|."]), &vec![(0, 0), (2, 0)]), 1);
    assert_eq!(count_enclosed(&lines(&["|.|."]), &vec![(0, 0)]), 3);
    assert_eq!(count_enclosed(&lines(&["F.7.", "L.J."]), &vec![(0, 0), (2, 0), (0, 1), (2, 1)]), 1);
    assert!(on_loop(&tiles, 3, 2));
    assert!(!on_loop(&tiles, 2, 2));
    assert!(!on_loop(&vec![(-1, 0)], 0, 0));
}
