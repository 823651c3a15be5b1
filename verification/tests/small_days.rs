use aoc2023::days::day05::{
    distance_for_seed, generate_blocks, get_seed_ranges, get_seeds, has_char, map_id,
    parse_range, shortest_distance, Block, Range,
};
use aoc2023::days::day06::{eval_simple, parse_races_pt1, parse_races_pt2, squeezed_number};
use aoc2023::days::day10::{get_pipe_element, PipeSection};
use aoc2023::days::day15::{hash, power_of_box, solve_pt1, solve_pt2};
use aoc2023::days::day16::{directions_out, get_location, Direction};
use aoc2023::days::day18::{dir_delta, intersect_ranges, shoelace_formula};

fn range(destination_start: i64, source_start: i64, range_length: i64) -> Range {
    Range { destination_start, source_start, range_length }
}

fn almanac() -> Vec<Block> {
    vec![
        Block { ranges: vec![range(50, 98, 2), range(52, 50, 48)] },
        Block { ranges: vec![range(0, 15, 37), range(37, 52, 2), range(39, 0, 15)] },
        Block {
            ranges: vec![range(49, 53, 8), range(0, 11, 42), range(42, 0, 7), range(57, 7, 4)],
        },
        Block { ranges: vec![range(88, 18, 7), range(18, 25, 70)] },
        Block { ranges: vec![range(45, 77, 23), range(81, 45, 19), range(68, 64, 13)] },
        Block { ranges: vec![range(0, 69, 1), range(1, 0, 69)] },
        Block { ranges: vec![range(60, 56, 37), range(56, 93, 4)] },
    ]
}

#[test]
fn a_range_maps_what_it_covers() {
    let ranges = vec![range(50, 98, 2), range(52, 50, 48)];
    assert_eq!(map_id(&ranges, 79), 81);
    assert_eq!(map_id(&ranges, 98), 50);
    assert_eq!(map_id(&ranges, 99), 51);
    assert_eq!(map_id(&ranges, 100), 100);
    assert_eq!(map_id(&ranges, 49), 49);
    assert_eq!(map_id(&ranges, 50), 52);
    assert_eq!(map_id(&vec![], 7), 7);
}

#[test]
fn the_first_covering_range_wins() {
    let ranges = vec![range(100, 0, 10), range(200, 5, 10)];
    assert_eq!(map_id(&ranges, 7), 107);
    assert_eq!(map_id(&ranges, 12), 207);
}

#[test]
fn seeds_reach_their_locations() {
    let blocks = almanac();
    assert_eq!(distance_for_seed(&blocks, 79), 82);
    assert_eq!(distance_for_seed(&blocks, 14), 43);
    assert_eq!(distance_for_seed(&blocks, 55), 86);
    assert_eq!(distance_for_seed(&blocks, 13), 35);
    assert_eq!(distance_for_seed(&vec![], 13), 13);
}

#[test]
fn the_nearest_location_is_found() {
    let blocks = almanac();
    assert_eq!(shortest_distance(&vec![79, 14, 55, 13], &blocks), 35);
    assert_eq!(shortest_distance(&vec![], &blocks), i64::MAX);
}

#[test]
fn seeds_pair_up_into_ranges() {
    assert_eq!(get_seed_ranges(&vec![79, 14, 55, 13]), Some(vec![(79, 93), (55, 68)]));
    assert_eq!(get_seed_ranges(&vec![79, 14, 55]), Some(vec![(79, 93)]));
    assert_eq!(get_seed_ranges(&vec![79]), Some(vec![]));
    assert_eq!(get_seed_ranges(&vec![]), Some(vec![]));
    assert_eq!(get_seed_ranges(&vec![i64::MAX, 1]), None);
}

#[test]
fn holding_times_are_counted_one_by_one() {
    assert_eq!(eval_simple((7, 9)), 4);
    assert_eq!(eval_simple((15, 40)), 8);
    assert_eq!(eval_simple((30, 200)), 9);
    assert_eq!(eval_simple((0, 0)), 0);
    assert_eq!(eval_simple((2, 0)), 0);
    assert_eq!(eval_simple((3, 0)), 1);
    assert_eq!(eval_simple((-5, -100)), 0);
}

#[test]
fn the_last_holding_time_is_left_out() {
    assert_eq!(eval_simple((4, 2)), 2);
    assert_eq!(eval_simple((4, 3)), 1);
}

#[test]
fn characters_draw_pipe_sections() {
    assert_eq!(PipeSection::from_char('|'), Some(PipeSection::new(-1, 1, 0, 0)));
    assert_eq!(PipeSection::from_char('-'), Some(PipeSection::new(0, 0, -1, 1)));
    assert_eq!(PipeSection::from_char('L'), Some(PipeSection::new(-1, 0, 0, 1)));
    assert_eq!(PipeSection::from_char('J'), Some(PipeSection::new(0, -1, -1, 0)));
    assert_eq!(PipeSection::from_char('7'), Some(PipeSection::new(1, 0, 0, -1)));
    assert_eq!(PipeSection::from_char('F'), Some(PipeSection::new(1, 0, 0, 1)));
    assert_eq!(PipeSection::from_char('S'), Some(PipeSection::new(0, 0, 0, 0)));
    assert_eq!(PipeSection::from_char('.'), None);
    let p = PipeSection::new(1, 2, 3, 4);
    assert_eq!((p.y_from, p.y_to, p.x_from, p.x_to), (1, 2, 3, 4));
}

#[test]
fn sections_are_found_on_the_map_only() {
    let grid = vec![
        vec![PipeSection::from_char('F'), PipeSection::from_char('|')],
        vec![PipeSection::from_char('-'), None, PipeSection::from_char('J')],
    ];
    assert_eq!(get_pipe_element(&grid, (0, 1)), PipeSection::from_char('|'));
    assert_eq!(get_pipe_element(&grid, (1, 2)), PipeSection::from_char('J'));
    assert_eq!(get_pipe_element(&grid, (1, 1)), None);
    assert_eq!(get_pipe_element(&grid, (0, 2)), None);
    assert_eq!(get_pipe_element(&grid, (2, 0)), None);
    assert_eq!(get_pipe_element(&grid, (-1, 0)), None);
    assert_eq!(get_pipe_element(&grid, (0, -1)), None);
}

#[test]
fn hash_of_a_word() {
    assert_eq!(hash("HASH"), 52);
    assert_eq!(hash(""), 0);
    assert_eq!(hash("rn=1"), 30);
    assert_eq!(hash("cm-"), 253);
    assert_eq!(hash("rn"), 0);
    assert_eq!(hash("qp"), 1);
}

#[test]
fn hashes_of_the_steps_add_up() {
    assert_eq!(solve_pt1("rn=1,cm-,qp=3,cm=2,qp-,pc=4,ot=9,ab=5,pc-,pc=6,ot=7"), 1320);
    assert_eq!(solve_pt1("HASH"), 52);
    assert_eq!(solve_pt1(""), 0);
    assert_eq!(solve_pt1("HASH,"), 52);
    assert_eq!(solve_pt1(",HASH,,HASH"), 104);
}

#[test]
fn a_step_leads_to_the_neighbour() {
    assert_eq!(get_location(3, 5, Direction::UP), (2, 5));
    assert_eq!(get_location(3, 5, Direction::DOWN), (4, 5));
    assert_eq!(get_location(3, 5, Direction::LEFT), (3, 4));
    assert_eq!(get_location(3, 5, Direction::RIGHT), (3, 6));
    assert_eq!(get_location(0, 0, Direction::UP), (-1, 0));
}

#[test]
fn mirrors_turn_and_splitters_split() {
    let (up, down, left, right) =
        (Direction::UP, Direction::DOWN, Direction::LEFT, Direction::RIGHT);
    assert_eq!(directions_out('.', right), vec![right]);
    assert_eq!(directions_out('|', up), vec![up]);
    assert_eq!(directions_out('|', left), vec![up, down]);
    assert_eq!(directions_out('|', right), vec![up, down]);
    assert_eq!(directions_out('-', left), vec![left]);
    assert_eq!(directions_out('-', down), vec![left, right]);
    assert_eq!(directions_out('\\', up), vec![left]);
    assert_eq!(directions_out('\\', down), vec![right]);
    assert_eq!(directions_out('\\', left), vec![up]);
    assert_eq!(directions_out('\\', right), vec![down]);
    assert_eq!(directions_out('/', up), vec![right]);
    assert_eq!(directions_out('/', down), vec![left]);
    assert_eq!(directions_out('/', left), vec![down]);
    assert_eq!(directions_out('/', right), vec![up]);
}

#[test]
fn direction_letters_stand_for_steps() {
    assert_eq!(dir_delta('R'), (0, 1));
    assert_eq!(dir_delta('L'), (0, -1));
    assert_eq!(dir_delta('U'), (-1, 0));
    assert_eq!(dir_delta('D'), (1, 0));
}

#[test]
fn overlapping_ranges_are_cut_in_three() {
    assert_eq!(intersect_ranges(&(0, 10), &(5, 15)), (Some((5, 10)), vec![(0, 4), (11, 15)]));
    assert_eq!(intersect_ranges(&(5, 15), &(0, 10)), (Some((5, 10)), vec![(11, 15), (0, 4)]));
    assert_eq!(intersect_ranges(&(0, 10), &(3, 4)), (Some((3, 4)), vec![(0, 2), (5, 10)]));
    assert_eq!(intersect_ranges(&(0, 10), &(0, 10)), (Some((0, 10)), vec![]));
    assert_eq!(intersect_ranges(&(0, 5), &(5, 9)), (Some((5, 5)), vec![(0, 4), (6, 9)]));
}

#[test]
fn ranges_apart_have_nothing_in_common() {
    assert_eq!(intersect_ranges(&(0, 3), &(7, 9)), (None, vec![(0, 6), (4, 9)]));
    assert_eq!(intersect_ranges(&(7, 9), &(0, 3)), (None, vec![(4, 9), (0, 6)]));
}

#[test]
fn the_area_of_a_polygon() {
    assert_eq!(shoelace_formula(&[(0, 0), (0, 4), (3, 4), (3, 0)]), 12);
    assert_eq!(shoelace_formula(&[(3, 0), (3, 4), (0, 4), (0, 0)]), 12);
    assert_eq!(shoelace_formula(&[(0, 0), (0, 1), (1, 0)]), 0);
    assert_eq!(shoelace_formula(&[(0, 0), (0, 3), (3, 0)]), 4);
    assert_eq!(shoelace_formula(&[]), 0);
    assert_eq!(shoelace_formula(&[(5, 5)]), 0);
    let big = 0x8000_0000i64;
    assert_eq!(
        shoelace_formula(&[(-big, -big), (-big, big), (big, big), (big, -big)]),
        (2 * big as i128) * (2 * big as i128)
    );
}

#[test]
fn the_area_of_the_dig_plan() {
    let corners = [
        (0, 6),
        (5, 6),
        (5, 4),
        (7, 4),
        (7, 6),
        (9, 6),
        (9, 1),
        (7, 1),
        (7, 0),
        (5, 0),
        (5, 2),
        (2, 2),
        (2, 0),
        (0, 0),
    ];
    assert_eq!(shoelace_formula(&corners), 42);
}

#[test]
fn lenses_go_into_boxes_and_come_out() {
    assert_eq!(solve_pt2("rn=1,cm-,qp=3,cm=2,qp-,pc=4,ot=9,ab=5,pc-,pc=6,ot=7"), Some(145));
    assert_eq!(solve_pt2("rn=1"), Some(1));
    assert_eq!(solve_pt2("rn=1,rn=7"), Some(7));
    assert_eq!(solve_pt2("rn=1,cm=2,rn-"), Some(2));
    assert_eq!(solve_pt2("rn=1,cm=2,rn-,rn=3"), Some(2 + 2 * 3));
    assert_eq!(solve_pt2("rn=1,cm=2,rn=9"), Some(9 + 2 * 2));
    assert_eq!(solve_pt2("qp=3"), Some(2 * 3));
    assert_eq!(solve_pt2("rn-"), Some(0));
    assert_eq!(solve_pt2("-"), Some(0));
    assert_eq!(solve_pt2("rn=0"), Some(0));
}

#[test]
fn the_label_is_what_stands_before_the_last_two_characters() {
    assert_eq!(solve_pt2("rnx5"), Some(5));
    assert_eq!(solve_pt2("rnx5,rn=7"), Some(7));
    assert_eq!(solve_pt2("=5"), Some(5));
    assert_eq!(solve_pt2("qp=13"), Some((hash("qp=") as u128 + 1) * 3));
}

#[test]
fn a_step_that_says_nothing_gives_no_power() {
    assert_eq!(solve_pt2(""), None);
    assert_eq!(solve_pt2("rn=1,"), None);
    assert_eq!(solve_pt2("rn=1,,cm-"), None);
    assert_eq!(solve_pt2("rn=x"), None);
    assert_eq!(solve_pt2("rn"), None);
    assert_eq!(solve_pt2("5"), None);
    assert_eq!(aoc2023::days::day15::solve(&vec![]), None);
    assert_eq!(
        aoc2023::days::day15::solve(&vec!["rn=1,cm-,qp=3,cm=2,qp-,pc=4,ot=9,ab=5,pc-,pc=6,ot=7"
            .to_string()]),
        Some((1320, Some(145)))
    );
    assert_eq!(aoc2023::days::day15::solve(&vec!["HASH".to_string()]), Some((52, None)));
}

#[test]
fn the_power_of_a_box_weighs_each_lens_by_its_place() {
    assert_eq!(power_of_box(0, &vec![1, 2]), Some(1 + 4));
    assert_eq!(power_of_box(3, &vec![7, 5, 6]), Some(4 * 7 + 4 * 2 * 5 + 4 * 3 * 6));
    assert_eq!(power_of_box(255, &vec![]), Some(0));
    assert_eq!(power_of_box(255, &vec![u32::MAX]), Some(256 * u32::MAX as u128));
}

#[test]
fn seeds_are_the_numbers_behind_the_colon() {
    assert_eq!(get_seeds("seeds: 79 14 55 13"), vec![79, 14, 55, 13]);
    assert_eq!(get_seeds("79 x 14"), vec![79, 14]);
    assert_eq!(get_seeds("a: 1 b: 2 3"), vec![2, 3]);
    assert_eq!(get_seeds("seeds:"), vec![]);
    assert_eq!(get_seeds("seeds: -5 9223372036854775807 9223372036854775808"), vec![-5, i64::MAX]);
}

#[test]
fn a_range_is_three_numbers_with_single_spaces() {
    let chars = |s: &str| s.chars().collect::<Vec<char>>();
    assert_eq!(parse_range(&chars("50 98 2")), Some(range(50, 98, 2)));
    assert_eq!(parse_range(&chars("50 98 2 7")), Some(range(50, 98, 2)));
    assert_eq!(parse_range(&chars("50 98")), None);
    assert_eq!(parse_range(&chars("50  98 2")), None);
    assert_eq!(parse_range(&chars("50 98 x")), None);
    assert!(has_char(&chars("seed-to-soil map:"), ':'));
    assert!(!has_char(&chars("50 98 2"), ':'));
}

#[test]
fn maps_are_read_block_by_block() {
    let text: Vec<String> = [
        "seeds: 79 14 55 13",
        "",
        "seed-to-soil map:",
        "50 98 2",
        "52 50 48",
        "",
        "soil-to-fertilizer map:",
        "0 15 37",
        "37 52 2",
        "39 0 15",
        "",
        "empty map:",
    ]
    .iter()
    .map(|s| s.to_string())
    .collect();
    let blocks = generate_blocks(&text).unwrap();
    assert_eq!(blocks.len(), 3);
    assert_eq!(blocks[0].ranges, vec![range(50, 98, 2), range(52, 50, 48)]);
    assert_eq!(blocks[1].ranges, vec![range(0, 15, 37), range(37, 52, 2), range(39, 0, 15)]);
    assert_eq!(blocks[2].ranges, vec![]);
    assert_eq!(shortest_distance(&get_seeds(&text[0]), &blocks), 52);
    assert_eq!(generate_blocks(&vec![]).unwrap().len(), 0);
    assert_eq!(generate_blocks(&vec!["a map:".to_string()]).unwrap().len(), 0);
    let stray: Vec<String> = ["seeds: 1", "1 2 3", "map:", "4 5 6"].iter().map(|s| s.to_string()).collect();
    let blocks = generate_blocks(&stray).unwrap();
    assert_eq!(blocks.len(), 1);
    assert_eq!(blocks[0].ranges, vec![range(4, 5, 6)]);
    let bad: Vec<String> = ["seeds: 1", "map:", "4 5"].iter().map(|s| s.to_string()).collect();
    assert!(generate_blocks(&bad).is_none());
}

#[test]
fn races_are_read_pair_by_pair() {
    let text: Vec<String> =
        ["Time:      7  15   30", "Distance:  9  40  200"].iter().map(|s| s.to_string()).collect();
    assert_eq!(parse_races_pt1(&text), Some(vec![(7, 9), (15, 40), (30, 200)]));
    assert_eq!(parse_races_pt2(&text), Some((71530, 940200)));
    let odd: Vec<String> = ["T 7 x 30 4", "D 9 40 y"].iter().map(|s| s.to_string()).collect();
    assert_eq!(parse_races_pt1(&odd), Some(vec![(7, 9)]));
    assert_eq!(parse_races_pt2(&odd), None);
    assert_eq!(parse_races_pt1(&vec!["Time: 1".to_string()]), None);
    assert_eq!(parse_races_pt2(&vec!["Time: 1".to_string()]), None);
    let bare: Vec<String> = ["7 15", "9 40"].iter().map(|s| s.to_string()).collect();
    assert_eq!(parse_races_pt1(&bare), Some(vec![(15, 40)]));
    assert_eq!(parse_races_pt2(&bare), Some((715, 940)));
    let chars: Vec<char> = "a: b: 1 2\t3".chars().collect();
    assert_eq!(squeezed_number(&chars), Some(123));
    let chars: Vec<char> = "a:".chars().collect();
    assert_eq!(squeezed_number(&chars), None);
}
