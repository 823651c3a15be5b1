use aoc2023::days::day23::{compress, explore, find_longest_path, solve, solve_pt1, solve_pt2};

fn lines(text: &[&str]) -> Vec<String> {
    text.iter().map(|s| s.to_string()).collect()
}

fn rows(text: &[&str]) -> Vec<Vec<char>> {
    text.iter().map(|s| s.chars().collect()).collect()
}

fn trails() -> Vec<&'static str> {
    vec![
        "#.#####################",
        "#.......#########...###",
        "#######.#########.#.###",
        "###.....#.>.>.###.#.###",
        "###v#####.#v#.###.#.###",
        "###.>...#.#.#.....#...#",
        "###v###.#.#.#########.#",
        "###...#.#.#.......#...#",
        "#####.#.#.#######.#.###",
        "#.....#.#.#.......#...#",
        "#.#####.#.#.#########v#",
        "#.#...#...#...###...>.#",
        "#.#.#v#######v###.###v#",
        "#...#.>.#...>.>.#.###.#",
        "#####v#.#.###v#.#.###.#",
        "#.....#...#...#.#.#...#",
        "#.#########.###.#.#.###",
        "#...###...#...#...#.###",
        "###.###.#.###v#####v###",
        "#...#...#.#.>.>.#.>.###",
        "#.###.###.#.###.#.#v###",
        "#.....###...###...#...#",
        "#####################.#",
    ]
}

#[test]
fn the_longest_stroll_obeys_the_slopes() {
    assert_eq!(solve_pt1((0, 1), (22, 21), &rows(&trails())), Some(94));
}

#[test]
fn the_longest_hike_takes_slopes_either_way() {
    assert_eq!(solve_pt2((0, 1), (22, 21), &rows(&trails()), 100000), Some(154));
}

#[test]
fn both_answers_for_the_map() {
    assert_eq!(solve(&lines(&trails()), 100000), Some((94, 154)));
}

#[test]
fn a_survey_that_is_cut_short_has_no_graph() {
    assert_eq!(solve_pt2((0, 1), (22, 21), &rows(&trails()), 10), None);
    assert_eq!(solve(&lines(&trails()), 10), None);
    assert!(compress(&rows(&trails()), (0, 1), (22, 21), 10).is_none());
    assert!(compress(&rows(&trails()), (0, 1), (22, 21), 100000).is_some());
}

#[test]
fn a_target_that_is_no_junction_is_no_node() {
    // the tile in the middle of the trail has two ways out
    assert!(compress(&rows(&trails()), (0, 1), (1, 3), 100000).is_none());
}

#[test]
fn small_maps() {
    let straight = rows(&["#.#", "#.#", "#.#"]);
    assert_eq!(solve_pt1((0, 1), (2, 1), &straight), Some(2));
    assert_eq!(solve_pt2((0, 1), (2, 1), &straight, 100), Some(2));
    let ring = rows(&["#.###", "#...#", "#.#.#", "#...#", "###.#"]);
    assert_eq!(solve_pt1((0, 1), (4, 3), &ring), Some(6));
    assert_eq!(solve(&lines(&["#.###", "#...#", "#.#.#", "#...#", "###.#"]), 1000).map(|f| f.0), Some(6));
    let uphill = rows(&["#.#", "#^#", "#.#"]);
    assert_eq!(solve_pt1((0, 1), (2, 1), &uphill), None);
    assert_eq!(solve_pt2((0, 1), (2, 1), &uphill, 100), Some(2));
}

#[test]
fn a_stroll_of_no_steps() {
    let straight = rows(&["#.#", "#.#", "#.#"]);
    assert_eq!(solve_pt1((0, 1), (0, 1), &straight), Some(0));
    assert_eq!(solve_pt1((7, 7), (7, 7), &straight), Some(0));
    assert_eq!(solve_pt1((7, 7), (0, 1), &straight), None);
    assert_eq!(solve_pt1((0, 1), (0, 0), &straight), Some(1));
    assert_eq!(solve_pt1((0, 1), (-1, 1), &straight), Some(1));
}

#[test]
fn maps_without_answers() {
    assert_eq!(solve(&lines(&[]), 100), None);
    assert_eq!(solve(&lines(&["#.#", "###", "#.#"]), 100), None);
    assert_eq!(solve(&lines(&["#"]), 100), None);
}

#[test]
fn the_marks_and_the_journey_are_handed_back() {
    let ring = rows(&["#.###", "#...#", "#.#.#", "#...#", "###.#"]);
    let mut visited: Vec<Vec<bool>> = ring.iter().map(|r| vec![false; r.len()]).collect();
    visited[1][3] = true;
    let before = visited.clone();
    let mut journey = vec![(9, 9)];
    let mut best = Some(3);
    explore(&ring, (0, 1), (4, 3), &mut visited, &mut journey, &mut best);
    // one way round is closed; the other takes six steps behind the one
    // of the journey
    assert_eq!(best, Some(7));
    assert_eq!(visited, before);
    assert_eq!(journey, vec![(9, 9)]);
    let mut best = Some(30);
    explore(&ring, (0, 1), (4, 3), &mut visited, &mut journey, &mut best);
    assert_eq!(best, Some(30));
}

#[test]
fn the_longest_hike_over_the_graph() {
    let (graph, start, end) = compress(&rows(&trails()), (0, 1), (22, 21), 100000).unwrap();
    assert_eq!(start, 0);
    assert_eq!(graph.node_total(), 9);
    assert_eq!(graph.tile_of(start), Some((0, 1)));
    assert_eq!(graph.tile_of(end), Some((22, 21)));
    assert_eq!(graph.tile_of(9), None);
    let mut visited = vec![false; graph.node_total()];
    let mut path = Vec::new();
    let mut best = 0;
    find_longest_path(&graph, start, end, &mut visited, &mut path, 0, &mut best);
    assert_eq!(best, 154);
    assert_eq!(visited, vec![false; 9]);
    assert!(path.is_empty());
    let mut best = 1000;
    find_longest_path(&graph, start, end, &mut visited, &mut path, 0, &mut best);
    assert_eq!(best, 1000);
    let mut best = 0;
    find_longest_path(&graph, start, end, &mut visited, &mut path, 46, &mut best);
    assert_eq!(best, 200);
    let mut best = 0;
    find_longest_path(&graph, end, end, &mut visited, &mut path, 5, &mut best);
    assert_eq!(best, 5);
}

#[test]
fn the_graph_of_the_trails_has_junctions_for_nodes() {
    let map = rows(&trails());
    let (graph, _, _) = compress(&map, (0, 1), (22, 21), 100000).unwrap();
    let mut tiles = Vec::new();
    for id in 0..graph.node_total() {
        tiles.push(graph.tile_of(id).unwrap());
    }
    let mut sorted = tiles.clone();
    sorted.sort();
    sorted.dedup();
    assert_eq!(sorted.len(), tiles.len());
    assert_eq!(
        sorted,
        vec![(0, 1), (3, 11), (5, 3), (11, 21), (13, 5), (13, 13), (19, 13), (19, 19), (22, 21)]
    );
    // the start, the target and seven junctions; twelve trails between
    // them, and the loop that the start makes with itself
    assert_eq!(graph.edge_total(), 13);
}
