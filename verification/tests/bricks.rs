use aoc2023::days::day22::{
    add_once, calculate_load_bearing, chain_reaction, collision_points, extract_graph, solve,
    solve_pt2, sort_bricks, Brick,
};

fn lines(text: &[&str]) -> Vec<String> {
    text.iter().map(|s| s.to_string()).collect()
}

fn snapshot() -> Vec<String> {
    lines(&[
        "1,0,1~1,2,1",
        "0,0,2~2,0,2",
        "0,2,3~2,2,3",
        "0,0,4~0,2,4",
        "2,0,5~2,2,5",
        "0,1,6~2,1,6",
        "1,1,8~1,1,9",
    ])
}

fn bricks() -> Vec<Brick> {
    snapshot().iter().enumerate().map(|(i, l)| Brick::parse(i, l).unwrap()).collect()
}

fn brick(x: (i32, i32), y: (i32, i32), z: (i32, i32), id: usize) -> Brick {
    Brick { x, y, z, id }
}

#[test]
fn a_line_describes_a_brick() {
    assert_eq!(Brick::parse(4, "1,0,1~1,2,1"), Some(brick((1, 1), (0, 2), (1, 1), 4)));
    assert_eq!(Brick::parse(0, "+1,-2,3~4,5,6"), Some(brick((1, 4), (-2, 5), (3, 6), 0)));
    assert_eq!(Brick::parse(0, "a,,3~4,2147483648,-2147483648"), Some(brick((0, 4), (0, 0), (3, -2147483648), 0)));
    assert_eq!(Brick::parse(0, "1,2,3,9~4,5,6,9,9~7"), Some(brick((1, 4), (2, 5), (3, 6), 0)));
    assert_eq!(Brick::parse(0, "1,2~4,5,6"), None);
    assert_eq!(Brick::parse(0, "1,2,3~4,5"), None);
    assert_eq!(Brick::parse(0, "1,2,3"), None);
    assert_eq!(Brick::parse(0, ""), None);
    assert_eq!(Brick::parse(0, ",,~,,"), Some(brick((0, 0), (0, 0), (0, 0), 0)));
}

#[test]
fn bricks_meet_where_they_share_a_square() {
    let a = brick((0, 2), (1, 1), (5, 5), 0);
    assert!(a.collides_with(&brick((2, 2), (0, 2), (1, 1), 1)));
    assert!(a.collides_with(&brick((0, 0), (1, 1), (9, 9), 1)));
    assert!(!a.collides_with(&brick((3, 4), (1, 1), (1, 1), 1)));
    assert!(!a.collides_with(&brick((0, 2), (2, 2), (1, 1), 1)));
    assert!(!a.collides_with(&brick((0, 2), (0, 0), (1, 1), 1)));
    assert!(!a.collides_with(&brick((-3, -1), (1, 1), (1, 1), 1)));
    assert!(a.collides_with(&a));
}

#[test]
fn a_brick_rests_on_the_highest_bricks_below_it() {
    let pile = vec![
        brick((0, 0), (0, 0), (1, 3), 0),
        brick((1, 1), (0, 0), (1, 3), 1),
        brick((2, 2), (0, 0), (1, 2), 2),
        brick((5, 5), (0, 0), (1, 9), 3),
    ];
    let falling = brick((0, 2), (0, 0), (7, 7), 4);
    let (z, holders) = collision_points(falling, &pile);
    assert_eq!(z, 3);
    assert_eq!(holders, vec![pile[0], pile[1]]);
    let (z, holders) = collision_points(brick((2, 5), (0, 0), (7, 7), 4), &pile);
    assert_eq!(z, 9);
    assert_eq!(holders, vec![pile[3]]);
    let (z, holders) = collision_points(brick((8, 9), (0, 0), (7, 7), 4), &pile);
    assert_eq!(z, 0);
    assert!(holders.is_empty());
    let (z, holders) = collision_points(falling, &vec![]);
    assert_eq!(z, 0);
    assert!(holders.is_empty());
    let sunk = vec![brick((0, 0), (0, 0), (-4, -2), 0), brick((0, 0), (0, 0), (-1, 0), 1)];
    let (z, holders) = collision_points(falling, &sunk);
    assert_eq!(z, 0);
    assert_eq!(holders, vec![sunk[1]]);
}

#[test]
fn which_brick_comes_to_rest_on_which() {
    let (supporting, sitting) = extract_graph(bricks()).unwrap();
    assert_eq!(supporting, vec![vec![1, 2], vec![3, 4], vec![3, 4], vec![5], vec![5], vec![6], vec![]]);
    assert_eq!(sitting, vec![vec![], vec![0], vec![0], vec![1, 2], vec![1, 2], vec![3, 4], vec![5]]);
}

#[test]
fn when_the_bricks_have_no_graph() {
    assert_eq!(extract_graph(vec![brick((0, 0), (0, 0), (1, 1), 1)]), None);
    assert_eq!(extract_graph(vec![brick((0, 0), (0, 0), (0, i32::MAX), 0)]), None);
    assert_eq!(extract_graph(vec![brick((0, 0), (0, 0), (i32::MIN, i32::MAX), 0)]), None);
    let tall = brick((0, 0), (0, 0), (5, i32::MAX), 0);
    assert_eq!(extract_graph(vec![tall]), Some((vec![vec![]], vec![vec![]])));
    let resting = brick((0, 0), (0, 0), (1, i32::MAX), 0);
    assert_eq!(extract_graph(vec![resting, brick((0, 0), (0, 0), (7, 7), 1)]), None);
    assert_eq!(extract_graph(vec![]), Some((vec![], vec![])));
}

#[test]
fn a_brick_that_lies_in_the_pile_already_does_not_join_it() {
    // the second brick comes to rest with the top and the place of the
    // first, so the third falls past where it would lie
    let first = brick((0, 0), (0, 0), (1, 1), 0);
    let twin = brick((5, 5), (5, 5), (3, 3), 0);
    let third = brick((5, 5), (5, 5), (9, 9), 1);
    let (supporting, sitting) = extract_graph(vec![first, twin, third]).unwrap();
    assert_eq!(supporting, vec![vec![], vec![], vec![]]);
    assert_eq!(sitting, vec![vec![], vec![], vec![]]);
    let other = brick((5, 5), (5, 5), (3, 3), 2);
    let (supporting, sitting) = extract_graph(vec![first, other, third]).unwrap();
    assert_eq!(supporting, vec![vec![], vec![], vec![1]]);
    assert_eq!(sitting, vec![vec![], vec![2], vec![]]);
}

#[test]
fn bricks_are_sorted_by_their_bottoms() {
    let a = brick((0, 0), (0, 0), (5, 9), 0);
    let b = brick((1, 1), (0, 0), (2, 2), 1);
    let c = brick((2, 2), (0, 0), (5, 5), 2);
    let d = brick((3, 3), (0, 0), (-1, 7), 3);
    let e = brick((4, 4), (0, 0), (2, 8), 4);
    assert_eq!(sort_bricks(vec![a, b, c, d, e]), vec![d, b, e, a, c]);
    assert_eq!(sort_bricks(vec![]), vec![]);
}

#[test]
fn the_bricks_that_alone_hold_another() {
    let (_, sitting) = extract_graph(bricks()).unwrap();
    assert_eq!(calculate_load_bearing(&sitting), vec![0, 5]);
    assert_eq!(calculate_load_bearing(&vec![vec![2], vec![2], vec![], vec![1, 0], vec![1]]), vec![2, 1]);
    assert_eq!(calculate_load_bearing(&vec![]), vec![]);
}

#[test]
fn bricks_fall_layer_after_layer() {
    let (supporting, sitting) = extract_graph(bricks()).unwrap();
    let mut destroyed = vec![false; 7];
    assert_eq!(chain_reaction(&vec![0], &supporting, &sitting, &mut destroyed, 10), Some(7));
    assert_eq!(destroyed, vec![true; 7]);
    let mut destroyed = vec![false; 7];
    assert_eq!(chain_reaction(&vec![1], &supporting, &sitting, &mut destroyed, 10), Some(0));
    assert_eq!(destroyed, vec![false; 7]);
    let mut destroyed = vec![true, false, false, false, false, false, false];
    assert_eq!(chain_reaction(&vec![1], &supporting, &sitting, &mut destroyed, 10), Some(1));
    assert_eq!(destroyed, vec![true, true, false, false, false, false, false]);
    let mut destroyed = vec![false, false, false, true, true, false, false];
    assert_eq!(chain_reaction(&vec![5, 6], &supporting, &sitting, &mut destroyed, 10), Some(2));
    assert_eq!(destroyed, vec![false, false, false, true, true, true, true]);
}

#[test]
fn a_reaction_needs_a_layer_of_fuel_for_each_layer_but_the_last() {
    let (supporting, sitting) = extract_graph(bricks()).unwrap();
    let mut destroyed = vec![false; 7];
    assert_eq!(chain_reaction(&vec![0], &supporting, &sitting, &mut destroyed, 4), Some(7));
    let mut destroyed = vec![false; 7];
    assert_eq!(chain_reaction(&vec![0], &supporting, &sitting, &mut destroyed, 3), None);
    let round = vec![vec![1], vec![0]];
    let mut destroyed = vec![false, true];
    assert_eq!(chain_reaction(&vec![0], &round, &round, &mut destroyed, 1000), None);
}

#[test]
fn what_falls_for_each_bearing_brick() {
    let (supporting, sitting) = extract_graph(bricks()).unwrap();
    assert_eq!(solve_pt2(vec![0, 5], sitting.clone(), supporting.clone(), 10), Some(7));
    assert_eq!(solve_pt2(vec![5], sitting.clone(), supporting.clone(), 10), Some(1));
    assert_eq!(solve_pt2(vec![0], sitting.clone(), supporting.clone(), 10), Some(6));
    assert_eq!(solve_pt2(vec![1, 6], sitting.clone(), supporting.clone(), 10), Some(0));
    assert_eq!(solve_pt2(vec![], sitting.clone(), supporting.clone(), 0), Some(0));
    assert_eq!(solve_pt2(vec![5, 0], sitting, supporting, 3), None);
}

#[test]
fn both_answers_for_the_snapshot() {
    assert_eq!(solve(&snapshot(), 7), Some((5, 7)));
    assert_eq!(solve(&snapshot(), 4), Some((5, 7)));
    assert_eq!(solve(&snapshot(), 3), None);
    assert_eq!(solve(&lines(&[]), 0), Some((0, 0)));
    assert_eq!(solve(&lines(&["1,0,1~1,2,1", "nothing"]), 5), None);
}

#[test]
fn bricks_fall_in_the_order_of_their_bottoms() {
    let mut turned = snapshot();
    turned.reverse();
    assert_eq!(solve(&turned, 7), Some((5, 7)));
}

#[test]
fn a_place_is_added_once() {
    let mut list = vec![3, 1];
    add_once(&mut list, 1);
    assert_eq!(list, vec![3, 1]);
    add_once(&mut list, 2);
    assert_eq!(list, vec![3, 1, 2]);
}
