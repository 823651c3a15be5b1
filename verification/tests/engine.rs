use aoc2023::days::day03::{
    extract_number, generate_points, solve, sum_engine_parts, total_of, Point, PointType,
};

fn lines(text: &[&str]) -> Vec<String> {
    text.iter().map(|s| s.to_string()).collect()
}

fn rows(text: &[&str]) -> Vec<Vec<char>> {
    text.iter().map(|s| s.chars().collect()).collect()
}

fn schematic() -> Vec<&'static str> {
    vec![
        "467..114..",
        "...*......",
        "..35..633.",
        "......#...",
        "617*......",
        ".....+.58.",
        "..592.....",
        "......755.",
        "...$.*....",
        ".664.598..",
    ]
}

#[test]
fn part_numbers_and_gear_ratios_of_the_schematic() {
    assert_eq!(solve(&lines(&schematic())), Some((4361, 467835)));
}

#[test]
fn the_layout_has_a_column_for_each_character() {
    let points = generate_points(&rows(&["12.*", "#.34"])).unwrap();
    assert_eq!(points.len(), 4);
    assert!(points.iter().all(|column| column.len() == 2));
    let twelve = Point { x: 0, x_to: 2, y: 0, point_type: PointType::Number };
    assert_eq!(points[0][0], Some(twelve));
    assert_eq!(points[1][0], Some(twelve));
    assert_eq!(points[2][0], None);
    assert_eq!(points[3][0], Some(Point { x: 3, x_to: 3, y: 0, point_type: PointType::Star }));
    assert_eq!(points[0][1], Some(Point { x: 0, x_to: 0, y: 1, point_type: PointType::Symbol }));
    assert_eq!(points[1][1], None);
    let last = Point { x: 2, x_to: 4, y: 1, point_type: PointType::Number };
    assert_eq!(points[2][1], Some(last));
    assert_eq!(points[3][1], Some(last));
}

#[test]
fn a_schematic_must_be_regular() {
    assert!(generate_points(&rows(&[])).is_none());
    assert!(generate_points(&rows(&["12.", "1"])).is_none());
    assert!(generate_points(&rows(&["1", "12."])).is_none());
    assert_eq!(generate_points(&rows(&["", ""])).unwrap().len(), 0);
    assert_eq!(solve(&lines(&["", ""])), Some((0, 0)));
    assert_eq!(solve(&lines(&[])), None);
    assert_eq!(solve(&lines(&["...", ".."])), None);
}

#[test]
fn a_symbol_on_the_rim_has_no_answer() {
    assert_eq!(solve(&lines(&["*1.", "...", "..."])), None);
    assert_eq!(solve(&lines(&["...", "..#", "..."])), None);
    assert_eq!(solve(&lines(&["...", "...", ".+."])), None);
    assert_eq!(solve(&lines(&["...", ".+.", "..."])), Some((0, 0)));
    assert_eq!(solve(&lines(&["123", "4+5", "678"])), Some((123 + 4 + 5 + 678, 0)));
}

#[test]
fn a_number_counts_once() {
    assert_eq!(solve(&lines(&[".......", ".2*3...", "......."])), Some((5, 6)));
    // the second star finds 5 marked, and only 4 is left to it
    assert_eq!(solve(&lines(&[".......", ".3*5*4.", "......."])), Some((12, 15)));
    assert_eq!(solve(&lines(&["......", ".*5*4.", "......"])), Some((9, 0)));
}

#[test]
fn columns_have_their_turn_before_rows() {
    // the star in the lower row stands in an earlier column and finds 7
    // first; the star above it is left with 5 alone and is no gear
    assert_eq!(solve(&lines(&[".....", "...*5", "..7..", ".*...", "....."])), Some((12, 0)));
    assert_eq!(solve(&lines(&[".....", "...*5", "..7..", ".....", "....."])), Some((12, 35)));
}

#[test]
fn a_star_with_three_numbers_is_no_gear() {
    assert_eq!(solve(&lines(&[".....", ".1.2.", "..*..", ".3...", "....."])), Some((6, 0)));
    assert_eq!(solve(&lines(&[".....", ".1.2.", "..#..", ".....", "....."])), Some((3, 0)));
    assert_eq!(solve(&lines(&[".....", ".1.2.", "..*..", ".....", "....."])), Some((3, 2)));
}

#[test]
fn a_number_beyond_32_bits_is_marked_and_not_counted() {
    let wide = lines(&["............", ".4294967295*", "............"]);
    assert_eq!(solve(&wide), None);
    let fits = lines(&[".............", ".4294967295*.", "............."]);
    assert_eq!(solve(&fits), Some((4294967295, 0)));
    let over = lines(&[".............", ".4294967296*.", "............."]);
    assert_eq!(solve(&over), Some((0, 0)));
    let product = lines(&[
        ".......................",
        ".4294967295*4294967295.",
        ".......................",
    ]);
    assert_eq!(solve(&product), Some((8589934590, 18446744065119617025)));
}

#[test]
fn one_look_marks_the_number() {
    let grid = rows(&["....", ".*42", "...."]);
    let points = generate_points(&grid).unwrap();
    let star = points[1][1].unwrap();
    let mut seen = vec![vec![false; 3]; 4];
    assert_eq!(extract_number(&mut seen, &points, &star, &grid, 0, -1), None);
    assert!(seen.iter().all(|column| column.iter().all(|m| !m)));
    assert_eq!(extract_number(&mut seen, &points, &star, &grid, 0, 1), Some(42));
    assert!(seen[2][1]);
    assert!(!seen[3][1]);
    assert_eq!(extract_number(&mut seen, &points, &star, &grid, 0, 1), None);
    assert_eq!(sum_engine_parts(&points, &grid), Some((42, 0)));
}

#[test]
fn a_few_numbers_add_up() {
    assert_eq!(total_of(&vec![]), 0);
    assert_eq!(total_of(&vec![4294967295; 8]), 34359738360);
    assert_eq!(total_of(&vec![1, 2, 3]), 6);
}
