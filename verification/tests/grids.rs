use aoc2023::days::day08::{calculate, get_fork, num_steps, read_forks, solve, Fork, Goal};
use aoc2023::days::day11::{to_grid, transpose};
use aoc2023::days::day13::{count_ones, mutation_index, solve_pt2, to_binary_grid};
use aoc2023::days::day14::{rotate_grid, simple_weight, solve_pt1, tilt_grid, tilt_row};

fn lines(text: &[&str]) -> Vec<String> {
    text.iter().map(|s| s.to_string()).collect()
}

fn chars(s: &str) -> Vec<char> {
    s.chars().collect()
}

fn rows(text: &[&str]) -> Vec<Vec<char>> {
    text.iter().map(|s| chars(s)).collect()
}

fn first_map() -> Vec<String> {
    lines(&[
        "RL",
        "",
        "AAA = (BBB, CCC)",
        "BBB = (DDD, EEE)",
        "CCC = (ZZZ, GGG)",
        "DDD = (DDD, DDD)",
        "EEE = (EEE, EEE)",
        "GGG = (GGG, GGG)",
        "ZZZ = (ZZZ, ZZZ)",
    ])
}

fn second_map() -> Vec<String> {
    lines(&["LLR", "", "AAA = (BBB, BBB)", "BBB = (AAA, ZZZ)", "ZZZ = (ZZZ, ZZZ)"])
}

fn ghost_map() -> Vec<String> {
    lines(&[
        "LR",
        "",
        "11A = (11B, XXX)",
        "11B = (XXX, 11Z)",
        "11Z = (11B, XXX)",
        "22A = (22B, XXX)",
        "22B = (22C, 22C)",
        "22C = (22Z, 22Z)",
        "22Z = (22B, 22B)",
        "XXX = (XXX, XXX)",
    ])
}

fn named(s: &str) -> Goal {
    Goal::Named(s.to_string())
}

#[test]
fn forks_are_read_from_fixed_columns() {
    let forks = read_forks(&first_map());
    assert_eq!(forks.len(), 7);
    assert_eq!((forks[0].name.as_str(), forks[0].left.as_str(), forks[0].right.as_str()), ("AAA", "BBB", "CCC"));
    assert_eq!((forks[6].name.as_str(), forks[6].left.as_str(), forks[6].right.as_str()), ("ZZZ", "ZZZ", "ZZZ"));
    let forks = read_forks(&lines(&["AAA = (BBB, CCC)", "DDD = (EEE, FFF)", "short", "GGG = (HHH, III) and more"]));
    assert_eq!(forks.len(), 1);
    assert_eq!(forks[0].name, "GGG");
    assert_eq!(read_forks(&vec![]).len(), 0);
    assert_eq!(get_fork(&read_forks(&first_map()), &"CCC".to_string()), Some(2));
    assert_eq!(get_fork(&read_forks(&first_map()), &"XXX".to_string()), None);
}

#[test]
fn a_walker_follows_the_instructions_round_and_round() {
    let forks = read_forks(&first_map());
    assert_eq!(num_steps(&forks, &chars("RL"), &"AAA".to_string(), &named("ZZZ"), 100), Some(2));
    let forks = read_forks(&second_map());
    assert_eq!(num_steps(&forks, &chars("LLR"), &"AAA".to_string(), &named("ZZZ"), 100), Some(6));
    assert_eq!(num_steps(&forks, &chars("LLR"), &"AAA".to_string(), &named("ZZZ"), 6), Some(6));
    assert_eq!(num_steps(&forks, &chars("LLR"), &"AAA".to_string(), &named("ZZZ"), 5), None);
    assert_eq!(num_steps(&forks, &chars("LLR"), &"ZZZ".to_string(), &named("ZZZ"), 0), Some(0));
    assert_eq!(num_steps(&forks, &chars("L"), &"AAA".to_string(), &named("ZZZ"), 1000), None);
    assert_eq!(num_steps(&forks, &chars(""), &"AAA".to_string(), &named("ZZZ"), 1000), None);
    assert_eq!(num_steps(&forks, &chars("R"), &"QQQ".to_string(), &named("ZZZ"), 1000), None);
    assert_eq!(num_steps(&forks, &chars("x"), &"BBB".to_string(), &Goal::EndsIn('Z'), 10), Some(1));
}

#[test]
fn the_later_of_two_forks_of_one_name_counts() {
    let forks = vec![
        Fork { name: "AAA".into(), left: "AAA".into(), right: "AAA".into() },
        Fork { name: "AAA".into(), left: "ZZZ".into(), right: "AAA".into() },
    ];
    assert_eq!(num_steps(&forks, &chars("L"), &"AAA".to_string(), &named("ZZZ"), 10), Some(1));
    assert_eq!(calculate(&forks, &chars("L"), &named("AAA"), &named("ZZZ"), 10), Some(1));
}

#[test]
fn walkers_meet_at_the_least_common_multiple() {
    let forks = read_forks(&ghost_map());
    let instructions = chars("LR");
    assert_eq!(num_steps(&forks, &instructions, &"11A".to_string(), &Goal::EndsIn('Z'), 100), Some(2));
    assert_eq!(num_steps(&forks, &instructions, &"22A".to_string(), &Goal::EndsIn('Z'), 100), Some(3));
    assert_eq!(calculate(&forks, &instructions, &Goal::EndsIn('A'), &Goal::EndsIn('Z'), 100), Some(6));
    assert_eq!(calculate(&forks, &instructions, &Goal::EndsIn('A'), &Goal::EndsIn('Z'), 2), None);
    assert_eq!(calculate(&forks, &instructions, &Goal::EndsIn('Q'), &Goal::EndsIn('Z'), 2), Some(1));
    assert_eq!(calculate(&forks, &instructions, &named("AAA"), &named("ZZZ"), 100), Some(1));
}

#[test]
fn both_answers_for_the_maps() {

    assert_eq!(solve(&first_map(), 1000), Some((Some(2), Some(2))));
    assert_eq!(solve(&second_map(), 1000), Some((Some(6), Some(6))));
    assert_eq!(solve(&ghost_map(), 1000), Some((Some(1), Some(6))));
    assert_eq!(solve(&vec![], 1000), None);
    assert_eq!(solve(&lines(&["L", "", "AAA = (AAA, AAA)"]), 50), Some((None, None)));
}

#[test]
fn ones_are_counted() {
    assert_eq!(count_ones(0), 0);
    assert_eq!(count_ones(1), 1);
    assert_eq!(count_ones(0b1011), 3);
    assert_eq!(count_ones(u64::MAX), 64);
    assert_eq!(count_ones(1 << 63), 1);
    for x in [3u64, 77, 1 << 40, 0xdead_beef_dead_beef] {
        assert_eq!(count_ones(x), x.count_ones());
    }
}

fn first_pattern() -> Vec<Vec<char>> {
    rows(&[
        "#.##..##.",
        "..#.##.#.",
        "##......#",
        "##......#",
        "..#.##.#.",
        "..##..##.",
        "#.#.##.#.",
    ])
}

fn second_pattern() -> Vec<Vec<char>> {
    rows(&[
        "#...##..#",
        "#....#..#",
        "..##..###",
        "#####.##.",
        "#####.##.",
        "..##..###",
        "#....#..#",
    ])
}

#[test]
fn rows_are_read_as_numbers() {
    assert_eq!(to_binary_grid(&rows(&["#.##..##.", "", ".", "#", "#x#"])), vec![0b101100110, 0, 0, 1, 0b101]);
    let long: String = "#".repeat(70);
    assert_eq!(to_binary_grid(&rows(&[&long])), vec![u64::MAX]);
    let long = format!("#{}", ".".repeat(64));
    assert_eq!(to_binary_grid(&rows(&[&long])), vec![0]);
}

#[test]
fn the_mirror_with_one_smudge_is_found() {
    assert_eq!(mutation_index(&to_binary_grid(&first_pattern())), Some(3));
    assert_eq!(mutation_index(&to_binary_grid(&second_pattern())), Some(1));
    assert_eq!(mutation_index(&to_binary_grid(&transpose(&first_pattern()))), None);
    assert_eq!(mutation_index(&[]), None);
    assert_eq!(mutation_index(&[5]), None);
    assert_eq!(mutation_index(&[5, 5]), None);
    assert_eq!(mutation_index(&[5, 4]), Some(1));
    assert_eq!(mutation_index(&[5, 6]), None);
    assert_eq!(mutation_index(&[1, 5, 4, 0]), Some(1));
    assert_eq!(mutation_index(&[2, 5, 4, 0]), Some(3));
    assert_eq!(mutation_index(&[6, 5, 4, 6]), Some(2));
    assert_eq!(mutation_index(&[1, 5, 4, 3]), Some(1));
    assert_eq!(mutation_index(&[1, 2, 4, 8]), None);
    assert_eq!(mutation_index(&[7, 7, 5, 4]), Some(3));
}

#[test]
fn the_summary_of_a_smudged_pattern() {
    let first = first_pattern();
    assert_eq!(solve_pt2(&first, &transpose(&first)), 300);
    let second = second_pattern();
    assert_eq!(solve_pt2(&second, &transpose(&second)), 100);
    let wide = rows(&["#.#", "#.#"]);
    assert_eq!(solve_pt2(&wide, &transpose(&wide)), 0);
    let cols = rows(&["##.", "#.."]);
    assert_eq!(solve_pt2(&transpose(&cols), &cols), 100);
    let flat = rows(&["#.."]);
    assert_eq!(solve_pt2(&flat, &transpose(&flat)), 1);
    let flat = rows(&["..#.#"]);
    assert_eq!(solve_pt2(&flat, &transpose(&flat)), 2);
}

fn platform() -> Vec<Vec<char>> {
    to_grid(&lines(&[
        "O....#....",
        "O.OO#....#",
        ".....##...",
        "OO.#O....O",
        ".O.....O#.",
        "O.#..O.#.#",
        "..O..#O..O",
        ".......O..",
        "#....###..",
        "#OO..#....",
    ]))
}

#[test]
fn rocks_roll_to_the_start_of_their_row() {
    assert_eq!(tilt_row(&chars("..O.#O.O"), 8), (chars("O...#OO."), 8 + 3 + 2));
    assert_eq!(tilt_row(&chars("OO.O"), 4), (chars("OOO."), 4 + 3 + 2));
    assert_eq!(tilt_row(&chars("#O"), 3), (chars("#O."), 2));
    assert_eq!(tilt_row(&chars(""), 2), (chars(".."), 0));
    assert_eq!(tilt_row(&chars("x#yO"), 4), (chars(".#O."), 2));
}

#[test]
fn the_load_of_the_tilted_platform() {
    let columns = transpose(&platform());
    assert_eq!(solve_pt1(&columns), 136);
    let (weight, tilted) = tilt_grid(&columns);
    assert_eq!(weight, 136);
    assert_eq!(simple_weight(&tilted), 136);
    assert_eq!(simple_weight(&columns), 104);
    let again = transpose(&tilted);
    let told: Vec<String> = again.iter().map(|r| r.iter().collect()).collect();
    assert_eq!(
        told,
        vec![
            "OOOO.#.O..",
            "OO..#....#",
            "OO..O##..O",
            "O..#.OO...",
            "........#.",
            "..#....#.#",
            "..O..#.O.O",
            "..O.......",
            "#....###..",
            "#....#....",
        ]
    );
    assert_eq!(solve_pt1(&vec![]), 0);
    assert_eq!(simple_weight(&vec![]), 0);
}

#[test]
fn a_quarter_turn_makes_the_last_column_the_first_row() {
    assert_eq!(rotate_grid(&rows(&["ab", "cd", "ef"])), rows(&["bdf", "ace"]));
    assert_eq!(rotate_grid(&rows(&["abc"])), rows(&["c", "b", "a"]));
    assert_eq!(rotate_grid(&rows(&["ab", "cde"])), rows(&["bd", "ac"]));
    assert_eq!(rotate_grid(&vec![]), Vec::<Vec<char>>::new());
    let g = rows(&["ab", "cd"]);
    assert_eq!(rotate_grid(&rotate_grid(&rotate_grid(&rotate_grid(&g)))), g);
}
