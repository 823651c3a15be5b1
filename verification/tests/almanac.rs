use aoc2023::days::day05::{
    check_roomy, distance_for_seed, map_ranges, solve, solve_part2, Block, Range,
};

fn range(destination_start: i64, source_start: i64, range_length: i64) -> Range {
    Range { destination_start, source_start, range_length }
}

fn text() -> Vec<String> {
    [
        "seeds: 79 14 55 13",
        "",
        "seed-to-soil map:",
        "50 98 2",
        "52 50 48",
        "",
        "soil-to-fertilizer map:",
        "0 15 37",
        "37 52 2",
        "39 0 15",
        "",
        "fertilizer-to-water map:",
        "49 53 8",
        "0 11 42",
        "42 0 7",
        "57 7 4",
        "",
        "water-to-light map:",
        "88 18 7",
        "18 25 70",
        "",
        "light-to-temperature map:",
        "45 77 23",
        "81 45 19",
        "68 64 13",
        "",
        "temperature-to-humidity map:",
        "0 69 1",
        "1 0 69",
        "",
        "humidity-to-location map:",
        "60 56 37",
        "56 93 4",
    ]
    .iter()
    .map(|s| s.to_string())
    .collect()
}

fn sorted(mut pairs: Vec<(i64, i64)>) -> Vec<(i64, i64)> {
    pairs.sort();
    pairs
}

#[test]
fn a_range_of_seeds_is_cut_where_the_map_changes() {
    let ranges = vec![range(50, 98, 2), range(52, 50, 48)];
    assert_eq!(sorted(map_ranges(&ranges, vec![(79, 93)])), vec![(81, 95)]);
    assert_eq!(sorted(map_ranges(&ranges, vec![(40, 60)])), vec![(40, 50), (52, 62)]);
    assert_eq!(
        sorted(map_ranges(&ranges, vec![(40, 110)])),
        vec![(40, 50), (50, 52), (52, 100), (100, 110)]
    );
    assert_eq!(sorted(map_ranges(&ranges, vec![(0, 5), (98, 99)])), vec![(0, 5), (50, 51)]);
    assert_eq!(map_ranges(&ranges, vec![]), vec![]);
    assert_eq!(map_ranges(&vec![], vec![(3, 9)]), vec![(3, 9)]);
}

#[test]
fn a_range_without_seeds_passes_as_it_is() {
    let ranges = vec![range(50, 98, 2), range(52, 50, 48)];
    assert_eq!(sorted(map_ranges(&ranges, vec![(60, 60), (99, 98)])), vec![(60, 60), (99, 98)]);
    assert_eq!(map_ranges(&vec![range(5, 0, 0), range(9, 0, -3)], vec![(0, 2)]), vec![(0, 2)]);
}

#[test]
fn every_seed_of_a_range_goes_where_the_map_sends_it() {
    let ranges = vec![range(100, 10, 5), range(200, 12, 10), range(0, 30, 1)];
    let out = map_ranges(&ranges, vec![(5, 35)]);
    let mut values: Vec<i64> = out.iter().flat_map(|&(a, b)| a..b).collect();
    values.sort();
    let block = vec![Block { ranges }];
    let mut expected: Vec<i64> = (5..35).map(|x| distance_for_seed(&block, x)).collect();
    expected.sort();
    assert_eq!(values, expected);
}

#[test]
fn the_nearest_location_of_the_seed_ranges() {
    let (one, two) = solve(&text()).unwrap();
    assert_eq!(one, 35);
    assert_eq!(two, Some(46));
}

#[test]
fn the_least_location_is_found_among_the_pieces() {
    let blocks = vec![
        Block { ranges: vec![range(50, 98, 2), range(52, 50, 48)] },
        Block { ranges: vec![range(0, 15, 37), range(37, 52, 2), range(39, 0, 15)] },
    ];
    assert_eq!(solve_part2(&blocks, &vec![(79, 93), (55, 68)]), Some(57));
    assert_eq!(solve_part2(&blocks, &vec![]), None);
    assert_eq!(solve_part2(&blocks, &vec![(7, 7)]), Some(7));
    assert_eq!(solve_part2(&blocks, &vec![(7, 7), (0, 1)]), Some(7));
    assert_eq!(solve_part2(&vec![], &vec![(9, 12), (4, 5)]), Some(4));
    let brute = (79..93).chain(55..68).map(|x| distance_for_seed(&blocks, x)).min();
    assert_eq!(solve_part2(&blocks, &vec![(79, 93), (55, 68)]), brute);
}

#[test]
fn maps_that_leave_sixty_four_bits_give_no_answer() {
    assert!(check_roomy(&vec![Block { ranges: vec![range(0, 0, i64::MAX)] }]));
    assert!(!check_roomy(&vec![Block { ranges: vec![range(1, 0, i64::MAX)] }]));
    assert!(!check_roomy(&vec![Block { ranges: vec![], }, Block { ranges: vec![range(0, 1, i64::MAX)] }]));
    assert!(check_roomy(&vec![Block { ranges: vec![range(i64::MAX, i64::MAX, 0), range(5, 5, -1)] }]));
    assert!(check_roomy(&vec![]));
    let mut bad = text();
    bad[3] = "50 98 9223372036854775807".to_string();
    assert_eq!(solve(&bad), None);
    let mut bad = text();
    bad[0] = "seeds: 9223372036854775807 1".to_string();
    assert_eq!(solve(&bad), None);
    let mut bad = text();
    bad[4] = "52 50".to_string();
    assert_eq!(solve(&bad), None);
    assert_eq!(solve(&vec![]), None);
}

#[test]
fn a_line_of_seeds_alone_is_answered() {
    assert_eq!(solve(&vec!["seeds: 5 3 9".to_string()]), Some((3, Some(5))));
    assert_eq!(solve(&vec!["seeds: 5".to_string()]), Some((5, None)));
    assert_eq!(solve(&vec!["seeds:".to_string()]), Some((i64::MAX, None)));
}
