use aoc2023::days::day07::{
    assign_type, card_rank_pt1, card_rank_pt2, compare_hands, find_label,
    find_max_by_value_except_j, hand_type, parse_hands, part1, part2, rank_hands, rank_of,
    reassign_j, solve, solve_part, tally, Hand, Order,
};

fn lines(text: &[&str]) -> Vec<String> {
    text.iter().map(|s| s.to_string()).collect()
}

fn hand(cards: &str, bid: i32) -> Hand {
    Hand { bid, cards: cards.chars().collect() }
}

fn camel() -> Vec<String> {
    lines(&["32T3K 765", "T55J5 684", "KK677 28", "KTJJT 220", "QQQJA 483"])
}

#[test]
fn cards_have_ranks() {
    let jack = card_rank_pt1();
    let joker = card_rank_pt2();
    assert_eq!(jack.len(), 13);
    assert_eq!(joker.len(), 13);
    assert_eq!(rank_of(&jack, 'A'), Some(1));
    assert_eq!(rank_of(&jack, 'J'), Some(4));
    assert_eq!(rank_of(&jack, 'T'), Some(5));
    assert_eq!(rank_of(&jack, '2'), Some(13));
    assert_eq!(rank_of(&jack, 'x'), None);
    assert_eq!(rank_of(&joker, 'J'), Some(13));
    assert_eq!(rank_of(&joker, 'T'), Some(4));
    assert_eq!(rank_of(&joker, '2'), Some(12));
    assert_eq!(rank_of(&vec![('a', 1), ('a', 2)], 'a'), Some(1));
}

#[test]
fn cards_are_counted_by_label() {
    let cards: Vec<char> = "T55J5".chars().collect();
    assert_eq!(tally(&cards), vec![('T', 1), ('5', 3), ('J', 1)]);
    assert_eq!(tally(&vec![]), vec![]);
    assert_eq!(find_label(&vec![('T', 1), ('5', 3)], '5'), 1);
    assert_eq!(find_label(&vec![('T', 1), ('5', 3)], 'J'), 2);
}

#[test]
fn jokers_take_the_label_with_most_cards() {
    let mut t = vec![('T', 1), ('5', 3), ('J', 1)];
    assert_eq!(find_max_by_value_except_j(&t), Some(1));
    reassign_j(&mut t);
    assert_eq!(t, vec![('T', 1), ('5', 4)]);
    let mut t = vec![('J', 2), ('K', 1), ('T', 2)];
    assert_eq!(find_max_by_value_except_j(&t), Some(2));
    reassign_j(&mut t);
    assert_eq!(t, vec![('K', 1), ('T', 4)]);
    let mut t = vec![('K', 2), ('T', 2), ('J', 1)];
    assert_eq!(find_max_by_value_except_j(&t), Some(1));
    reassign_j(&mut t);
    assert_eq!(t, vec![('K', 2), ('T', 3)]);
    let mut t = vec![('J', 5)];
    reassign_j(&mut t);
    assert_eq!(t, vec![('J', 5)]);
    let mut t = vec![('J', 3)];
    assert_eq!(find_max_by_value_except_j(&t), None);
    reassign_j(&mut t);
    assert_eq!(t, vec![('J', 3)]);
    let mut t = vec![('J', 5), ('K', 1)];
    reassign_j(&mut t);
    assert_eq!(t, vec![('J', 5), ('K', 1)]);
    let mut t = vec![('A', 2), ('K', 3)];
    reassign_j(&mut t);
    assert_eq!(t, vec![('A', 2), ('K', 3)]);
}

#[test]
fn hands_have_types() {
    let kinds: Vec<u8> = ["AAAAA", "AA8AA", "23332", "TTT98", "23432", "A23A4", "23456"]
        .iter()
        .map(|c| hand_type(&hand(c, 0), false))
        .collect();
    assert_eq!(kinds, vec![7, 6, 5, 4, 3, 2, 1]);
    assert_eq!(hand_type(&hand("", 0), false), 1);
    assert_eq!(hand_type(&hand("234567", 0), false), 1);
    assert_eq!(hand_type(&hand("22", 0), false), 7);
    assert_eq!(assign_type(&vec![('a', 4), ('b', 9)]), 6);
    assert_eq!(assign_type(&vec![('a', 1), ('b', 9)]), 5);
    assert_eq!(assign_type(&vec![('a', 1), ('b', 1), ('c', 3)]), 4);
    assert_eq!(assign_type(&vec![('a', 1), ('b', 2), ('c', 2)]), 3);
}

#[test]
fn jokers_raise_the_type_of_a_hand() {
    let kinds: Vec<u8> = ["32T3K", "T55J5", "KK677", "KTJJT", "QQQJA", "JJJJJ", "JJJJ2", "2345J"]
        .iter()
        .map(|c| hand_type(&hand(c, 0), true))
        .collect();
    assert_eq!(kinds, vec![2, 6, 3, 6, 6, 7, 7, 2]);
    let kinds: Vec<u8> = ["32T3K", "T55J5", "KK677", "KTJJT", "QQQJA", "JJJJJ", "JJJJ2", "2345J"]
        .iter()
        .map(|c| hand_type(&hand(c, 0), false))
        .collect();
    assert_eq!(kinds, vec![2, 4, 3, 3, 4, 7, 6, 1]);
}

#[test]
fn hands_are_compared_by_type_and_then_card_by_card() {
    let jack = card_rank_pt1();
    let joker = card_rank_pt2();
    assert_eq!(compare_hands(&hand("33332", 0), &hand("2AAAA", 0), &jack, false), Order::Greater);
    assert_eq!(compare_hands(&hand("77788", 0), &hand("77888", 0), &jack, false), Order::Less);
    assert_eq!(compare_hands(&hand("KK677", 0), &hand("KTJJT", 0), &jack, false), Order::Greater);
    assert_eq!(compare_hands(&hand("T55J5", 0), &hand("QQQJA", 0), &jack, false), Order::Less);
    assert_eq!(compare_hands(&hand("32T3K", 0), &hand("KK677", 0), &jack, false), Order::Less);
    assert_eq!(compare_hands(&hand("KK677", 0), &hand("KK677", 7), &jack, false), Order::Equal);
    assert_eq!(compare_hands(&hand("JKKK2", 0), &hand("QQQQ2", 0), &joker, true), Order::Less);
    assert_eq!(compare_hands(&hand("JKKK2", 0), &hand("QQQQ2", 0), &jack, false), Order::Less);
    assert_eq!(compare_hands(&hand("QQQQ2", 0), &hand("JKKK2", 0), &joker, true), Order::Greater);
    assert_eq!(compare_hands(&hand("KTJJT", 0), &hand("QQQJA", 0), &joker, true), Order::Greater);
    assert_eq!(compare_hands(&hand("2x", 0), &hand("2y", 0), &jack, false), Order::Equal);
    assert_eq!(compare_hands(&hand("x3", 0), &hand("42", 0), &jack, false), Order::Greater);
    assert_eq!(compare_hands(&hand("23", 0), &hand("234", 0), &jack, false), Order::Greater);
}

#[test]
fn hands_are_read_from_lines_of_two_words() {
    let hands = parse_hands(&lines(&["32T3K 765", "", "T55J5", "KK677 28 extra", "  QQQJA   -483 ", "A x", "K 2147483648"]));
    assert_eq!(hands.len(), 2);
    assert_eq!((hands[0].cards.iter().collect::<String>(), hands[0].bid), ("32T3K".to_string(), 765));
    assert_eq!((hands[1].cards.iter().collect::<String>(), hands[1].bid), ("QQQJA".to_string(), -483));
}

#[test]
fn hands_are_ranked_weakest_first_and_equal_hands_keep_their_order() {
    let jack = card_rank_pt1();
    let ranked = rank_hands(parse_hands(&camel()), &jack, false);
    let bids: Vec<i32> = ranked.iter().map(|h| h.bid).collect();
    assert_eq!(bids, vec![765, 220, 28, 684, 483]);
    let joker = card_rank_pt2();
    let ranked = rank_hands(parse_hands(&camel()), &joker, true);
    let bids: Vec<i32> = ranked.iter().map(|h| h.bid).collect();
    assert_eq!(bids, vec![765, 28, 684, 483, 220]);
    let same = vec![hand("AAAAA", 1), hand("22222", 2), hand("AAAAA", 3), hand("22222", 4)];
    let bids: Vec<i32> = rank_hands(same, &jack, false).iter().map(|h| h.bid).collect();
    assert_eq!(bids, vec![2, 4, 1, 3]);
    assert!(rank_hands(vec![], &jack, false).is_empty());
}

#[test]
fn the_winnings_of_the_hands() {
    assert_eq!(part1(&camel()), 6440);
    assert_eq!(part2(&camel()), 5905);
    assert_eq!(solve(&camel()), (6440, 5905));
    assert_eq!(solve(&vec![]), (0, 0));
    assert_eq!(solve_part(&lines(&["AAAAA 10", "22222 1"]), &card_rank_pt1(), false), 1 + 20);
    assert_eq!(solve_part(&lines(&["22222 10", "22222 1"]), &card_rank_pt1(), false), 10 + 2);
    assert_eq!(solve_part(&lines(&["22222 -5"]), &card_rank_pt1(), false), -5);
}
