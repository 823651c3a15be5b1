//! Hands of cards: their types, with or without jokers, their order, and the
//! winnings of a list of hands.

use vstd::prelude::*;
use crate::text::{number_i64, parse_i64, texts, to_chars, word_bounds, words};

verus! {

/// A hand and its bid.
#[derive(Debug)]
pub struct Hand {
    pub bid: i32,
    pub cards: Vec<char>,
}

impl Clone for Hand {
    fn clone(&self) -> (copy: Hand)
        ensures
            copy.bid == self.bid,
            copy.cards@ == self.cards@,
    {
        let copy = Hand { bid: self.bid, cards: self.cards.clone() };
        assert(copy.cards@ =~= self.cards@);
        copy
    }
}

/// The labels of the cards with their ranks when `J` is a jack, the
/// strongest first.
pub open spec fn ranks_pt1() -> Seq<(char, usize)> {
    seq![
        ('A', 1usize),
        ('K', 2usize),
        ('Q', 3usize),
        ('J', 4usize),
        ('T', 5usize),
        ('9', 6usize),
        ('8', 7usize),
        ('7', 8usize),
        ('6', 9usize),
        ('5', 10usize),
        ('4', 11usize),
        ('3', 12usize),
        ('2', 13usize),
    ]
}

/// The labels of the cards with their ranks when `J` is a joker, which is
/// the weakest card.
pub open spec fn ranks_pt2() -> Seq<(char, usize)> {
    seq![
        ('A', 1usize),
        ('K', 2usize),
        ('Q', 3usize),
        ('T', 4usize),
        ('9', 5usize),
        ('8', 6usize),
        ('7', 7usize),
        ('6', 8usize),
        ('5', 9usize),
        ('4', 10usize),
        ('3', 11usize),
        ('2', 12usize),
        ('J', 13usize),
    ]
}

/// The rank that the table gives a card, if it lists the card.
pub open spec fn rank_in(table: Seq<(char, usize)>, card: char) -> Option<usize>
    decreases table.len(),
{
    if table.len() == 0 {
        None
    } else if table[0].0 == card {
        Some(table[0].1)
    } else {
        rank_in(table.skip(1), card)
    }
}

/// The ranks of the cards when `J` is a jack.
pub fn card_rank_pt1() -> (table: Vec<(char, usize)>)
    ensures
        table@ == ranks_pt1(),
{
    let table: Vec<(char, usize)> = vec![
        ('A', 1),
        ('K', 2),
        ('Q', 3),
        ('J', 4),
        ('T', 5),
        ('9', 6),
        ('8', 7),
        ('7', 8),
        ('6', 9),
        ('5', 10),
        ('4', 11),
        ('3', 12),
        ('2', 13),
    ];
    assert(table@ =~= ranks_pt1());
    table
}

/// The ranks of the cards when `J` is a joker.
pub fn card_rank_pt2() -> (table: Vec<(char, usize)>)
    ensures
        table@ == ranks_pt2(),
{
    let table: Vec<(char, usize)> = vec![
        ('A', 1),
        ('K', 2),
        ('Q', 3),
        ('T', 4),
        ('9', 5),
        ('8', 6),
        ('7', 7),
        ('6', 8),
        ('5', 9),
        ('4', 10),
        ('3', 11),
        ('2', 12),
        ('J', 13),
    ];
    assert(table@ =~= ranks_pt2());
    table
}

/// The rank that the table gives the card.
pub fn rank_of(table: &Vec<(char, usize)>, card: char) -> (rank: Option<usize>)
    ensures
        rank == rank_in(table@, card),
{
    let mut k: usize = 0;
    assert(table@.skip(0) =~= table@);
    while k < table.len()
        invariant
            k <= table@.len(),
            rank_in(table@, card) == rank_in(table@.skip(k as int), card),
        decreases table@.len() - k,
    {
        assert(table@.skip(k as int)[0] == table@[k as int]);
        assert(table@.skip(k as int).skip(1) =~= table@.skip(k + 1));
        if table[k].0 == card {
            return Some(table[k].1);
        }
        k += 1;
    }
    None
}

/// The place of the label in the tally, and the length of the tally where it
/// is not there.
pub open spec fn label_at(tally: Seq<(char, usize)>, label: char) -> int
    decreases tally.len(),
{
    if tally.len() == 0 {
        0
    } else if tally[0].0 == label {
        0
    } else {
        1 + label_at(tally.skip(1), label)
    }
}

/// The tally with one card more.
pub open spec fn counted(tally: Seq<(char, usize)>, card: char) -> Seq<(char, usize)> {
    let at = label_at(tally, card);
    if at < tally.len() {
        tally.update(at, (card, (tally[at].1 + 1) as usize))
    } else {
        tally.push((card, 1usize))
    }
}

/// The tally of the cards: each label with the number of cards that bear it,
/// the labels in the order in which they first occur.
pub open spec fn tally_of(cards: Seq<char>) -> Seq<(char, usize)>
    decreases cards.len(),
{
    if cards.len() == 0 {
        Seq::empty()
    } else {
        counted(tally_of(cards.drop_last()), cards.last())
    }
}

/// The last place in the tally, among the first `upto`, of a label other
/// than `J` of which there are no fewer cards than of any other such label
/// before it; -1 where there is no label other than `J`.
pub open spec fn best_except_j(tally: Seq<(char, usize)>, upto: int) -> int
    decreases upto,
{
    if upto <= 0 || upto > tally.len() {
        -1
    } else {
        let before = best_except_j(tally, upto - 1);
        if tally[upto - 1].0 == 'J' {
            before
        } else if before < 0 || tally[upto - 1].1 >= tally[before].1 {
            upto - 1
        } else {
            before
        }
    }
}

/// The tally after the jokers have taken the label of which there are most
/// cards: they are added to that label and leave the tally. Five jokers stay
/// as they are, and so do jokers without any other card.
pub open spec fn with_jokers(tally: Seq<(char, usize)>) -> Seq<(char, usize)> {
    let j = label_at(tally, 'J');
    let best = best_except_j(tally, tally.len() as int);
    if j < tally.len() && tally[j].1 != 5 && best >= 0 {
        tally.update(
            best,
            (tally[best].0, (tally[best].1 + tally[j].1) as usize),
        ).remove(j)
    } else {
        tally
    }
}

/// Some label of the tally has exactly `n` cards.
pub open spec fn has_count(tally: Seq<(char, usize)>, n: usize) -> bool {
    exists|i: int| 0 <= i < tally.len() && (#[trigger] tally[i]).1 == n
}

/// The type of a hand with the given tally, from 7 for the strongest to 1:
/// 7 for one label, 6 for two labels of which one has four cards and 5 for
/// two labels else, 4 for three labels of which one has three cards and 3
/// for three labels else, 2 for four labels, and 1 for anything else.
pub open spec fn type_of(tally: Seq<(char, usize)>) -> u8 {
    if tally.len() == 1 {
        7
    } else if tally.len() == 2 {
        if has_count(tally, 4) {
            6
        } else {
            5
        }
    } else if tally.len() == 3 {
        if has_count(tally, 3) {
            4
        } else {
            3
        }
    } else if tally.len() == 4 {
        2
    } else {
        1
    }
}

/// The type of the hand, the jokers counted as wild cards or not.
pub open spec fn hand_kind(cards: Seq<char>, j_wildcard: bool) -> u8 {
    if j_wildcard {
        type_of(with_jokers(tally_of(cards)))
    } else {
        type_of(tally_of(cards))
    }
}

/// The place of the label in the tally.
pub fn find_label(tally: &Vec<(char, usize)>, label: char) -> (at: usize)
    ensures
        at == label_at(tally@, label),
        at <= tally@.len(),
        at < tally@.len() ==> tally@[at as int].0 == label,
{
    let mut k: usize = 0;
    assert(tally@.skip(0) =~= tally@);
    while k < tally.len()
        invariant
            k <= tally@.len(),
            label_at(tally@, label) == k + label_at(tally@.skip(k as int), label),
        decreases tally@.len() - k,
    {
        assert(tally@.skip(k as int)[0] == tally@[k as int]);
        assert(tally@.skip(k as int).skip(1) =~= tally@.skip(k + 1));
        if tally[k].0 == label {
            return k;
        }
        k += 1;
    }
    k
}

/// Counts the cards of each label.
pub fn tally(cards: &Vec<char>) -> (card_count: Vec<(char, usize)>)
    ensures
        card_count@ == tally_of(cards@),
{
    let mut card_count: Vec<(char, usize)> = Vec::new();
    let mut k: usize = 0;
    assert(cards@.take(0) =~= Seq::empty());
    while k < cards.len()
        invariant
            k <= cards@.len(),
            card_count@ == tally_of(cards@.take(k as int)),
            forall|i: int| 0 <= i < card_count@.len() ==> (#[trigger] card_count@[i]).1 <= k,
        decreases cards@.len() - k,
    {
        assert(cards@.take(k + 1).drop_last() =~= cards@.take(k as int));
        let card = cards[k];
        let at = find_label(&card_count, card);
        if at < card_count.len() {
            let n = card_count[at].1;
            card_count.set(at, (card, n + 1));
        } else {
            card_count.push((card, 1));
        }
        k += 1;
    }
    assert(cards@.take(k as int) =~= cards@);
    card_count
}

/// The label other than `J` of which there are most cards, the last of
/// several; `None` where there is no label but `J`.
pub fn find_max_by_value_except_j(card_count: &Vec<(char, usize)>) -> (best: Option<usize>)
    ensures
        match best {
            Some(i) => i == best_except_j(card_count@, card_count@.len() as int) && i
                < card_count@.len(),
            None => best_except_j(card_count@, card_count@.len() as int) < 0,
        },
{
    let mut best: Option<usize> = None;
    let mut k: usize = 0;
    while k < card_count.len()
        invariant
            k <= card_count@.len(),
            match best {
                Some(i) => i == best_except_j(card_count@, k as int) && i < k,
                None => best_except_j(card_count@, k as int) < 0,
            },
        decreases card_count@.len() - k,
    {
        if card_count[k].0 != 'J' {
            match best {
                Some(i) => {
                    if card_count[k].1 >= card_count[i].1 {
                        best = Some(k);
                    }
                },
                None => {
                    best = Some(k);
                },
            }
        }
        k += 1;
    }
    best
}

/// Lets the jokers take the label of which there are most cards.
pub fn reassign_j(card_count: &mut Vec<(char, usize)>)
    requires
        cards_in(old(card_count)@, old(card_count)@.len() as int) <= usize::MAX,
    ensures
        final(card_count)@ == with_jokers(old(card_count)@),
{
    let j = find_label(card_count, 'J');
    if j < card_count.len() {
        let j_value = card_count[j].1;
        if j_value == 5 {
            return ;
        }
        match find_max_by_value_except_j(card_count) {
            Some(best) => {
                proof {
                    lemma_best_is_no_joker(card_count@, card_count@.len() as int);
                    lemma_two_labels(card_count@, best as int, j as int);
                }
                let (label, n) = card_count[best];
                card_count.set(best, (label, n + j_value));
                card_count.remove(j);
            },
            None => {},
        }
    }
}

/// The type of a hand with the given tally.
pub fn assign_type(card_count: &Vec<(char, usize)>) -> (kind: u8)
    ensures
        kind == type_of(card_count@),
{
    let n = card_count.len();
    if n == 1 {
        7
    } else if n == 2 {
        if card_count[0].1 == 4 || card_count[1].1 == 4 {
            6
        } else {
            5
        }
    } else if n == 3 {
        if card_count[0].1 == 3 || card_count[1].1 == 3 || card_count[2].1 == 3 {
            4
        } else {
            3
        }
    } else if n == 4 {
        2
    } else {
        1
    }
}

/// The type of the hand.
pub fn hand_type(hand: &Hand, j_wildcard: bool) -> (kind: u8)
    ensures
        kind == hand_kind(hand.cards@, j_wildcard),
{
    let mut card_count = tally(&hand.cards);
    proof {
        lemma_tally_total(hand.cards@);
        assert(hand.cards@.len() == hand.cards.len());
    }
    if j_wildcard {
        reassign_j(&mut card_count);
    }
    assign_type(&card_count)
}

/// The number of cards that the first `upto` labels of the tally stand for.
pub open spec fn cards_in(tally: Seq<(char, usize)>, upto: int) -> int
    decreases upto,
{
    if upto <= 0 || upto > tally.len() {
        0
    } else {
        cards_in(tally, upto - 1) + tally[upto - 1].1
    }
}

/// The tally of a hand stands for as many cards as the hand has.
pub proof fn lemma_tally_total(cards: Seq<char>)
    requires
        cards.len() <= usize::MAX,
    ensures
        cards_in(tally_of(cards), tally_of(cards).len() as int) == cards.len(),
    decreases cards.len(),
{
    if cards.len() > 0 {
        lemma_tally_total(cards.drop_last());
        let before = tally_of(cards.drop_last());
        let at = label_at(before, cards.last());
        lemma_label_at(before, cards.last());
        let after = tally_of(cards);
        if at < before.len() {
            lemma_entry_bound(before, at, before.len() as int);
            lemma_cards_in_update(before, at, (cards.last(), (before[at].1 + 1) as usize), before.len() as int);
        } else {
            assert(after.drop_last() =~= before);
            lemma_cards_in_same(after, before, before.len() as int);
        }
    }
}

proof fn lemma_cards_in_same(a: Seq<(char, usize)>, b: Seq<(char, usize)>, upto: int)
    requires
        0 <= upto <= a.len(),
        upto <= b.len(),
        forall|i: int| 0 <= i < upto ==> a[i] == b[i],
    ensures
        cards_in(a, upto) == cards_in(b, upto),
    decreases upto,
{
    if upto > 0 {
        lemma_cards_in_same(a, b, upto - 1);
    }
}

proof fn lemma_cards_in_update(tally: Seq<(char, usize)>, at: int, entry: (char, usize), upto: int)
    requires
        0 <= at < tally.len(),
        0 <= upto <= tally.len(),
    ensures
        cards_in(tally.update(at, entry), upto) == cards_in(tally, upto) + if at < upto {
            entry.1 - tally[at].1
        } else {
            0
        },
    decreases upto,
{
    if upto > 0 {
        lemma_cards_in_update(tally, at, entry, upto - 1);
    }
}

/// No label stands for more cards than the tally as a whole.
pub proof fn lemma_entry_bound(tally: Seq<(char, usize)>, at: int, upto: int)
    requires
        0 <= at < upto <= tally.len(),
    ensures
        tally[at].1 <= cards_in(tally, upto),
        0 <= cards_in(tally, at),
    decreases upto,
{
    lemma_cards_in_nonnegative(tally, at);
    if at < upto - 1 {
        lemma_entry_bound(tally, at, upto - 1);
    } else {
        lemma_cards_in_nonnegative(tally, upto - 1);
    }
}

proof fn lemma_cards_in_nonnegative(tally: Seq<(char, usize)>, upto: int)
    ensures
        0 <= cards_in(tally, upto),
    decreases upto,
{
    if 0 < upto <= tally.len() {
        lemma_cards_in_nonnegative(tally, upto - 1);
    }
}

/// Two labels together stand for no more cards than the tally as a whole.
pub proof fn lemma_two_labels(tally: Seq<(char, usize)>, a: int, b: int)
    requires
        0 <= a < tally.len(),
        0 <= b < tally.len(),
        a != b,
    ensures
        tally[a].1 + tally[b].1 <= cards_in(tally, tally.len() as int),
{
    let lo = if a < b {
        a
    } else {
        b
    };
    let hi = if a < b {
        b
    } else {
        a
    };
    lemma_entry_bound(tally, lo, hi);
    lemma_cards_in_grows(tally, hi + 1, tally.len() as int);
}

proof fn lemma_cards_in_grows(tally: Seq<(char, usize)>, k: int, n: int)
    requires
        0 <= k <= n <= tally.len(),
    ensures
        cards_in(tally, k) <= cards_in(tally, n),
    decreases n - k,
{
    if k < n {
        lemma_cards_in_grows(tally, k, n - 1);
    }
}

/// The label that the jokers take is not `J`.
pub proof fn lemma_best_is_no_joker(tally: Seq<(char, usize)>, upto: int)
    requires
        0 <= upto <= tally.len(),
    ensures
        best_except_j(tally, upto) >= 0 ==> best_except_j(tally, upto) < upto && tally[best_except_j(
            tally,
            upto,
        )].0 != 'J',
    decreases upto,
{
    if upto > 0 {
        lemma_best_is_no_joker(tally, upto - 1);
    }
}

pub proof fn lemma_label_at(tally: Seq<(char, usize)>, label: char)
    ensures
        0 <= label_at(tally, label) <= tally.len(),
    decreases tally.len(),
{
    if tally.len() > 0 && tally[0].0 != label {
        lemma_label_at(tally.skip(1), label);
    }
}

/// How one hand stands to another.
#[derive(Clone, Copy, Debug, PartialEq, Eq, Structural)]
pub enum Order {
    Less,
    Equal,
    Greater,
}

/// How hand `a` stands to hand `b` by their cards alone, from place `from`
/// on: the first place at which the table ranks both cards, and ranks them
/// differently, decides; the hand with the card of the lower rank number is
/// the greater. Places that one of the hands does not have do not count.
pub open spec fn by_cards(a: Seq<char>, b: Seq<char>, table: Seq<(char, usize)>, from: int) -> Order
    decreases a.len() - from,
{
    if from < 0 || from >= a.len() || from >= b.len() {
        Order::Equal
    } else {
        match (rank_in(table, a[from]), rank_in(table, b[from])) {
            (Some(r1), Some(r2)) => if r1 < r2 {
                Order::Greater
            } else if r1 > r2 {
                Order::Less
            } else {
                by_cards(a, b, table, from + 1)
            },
            _ => by_cards(a, b, table, from + 1),
        }
    }
}

/// How hand `a` stands to hand `b`: by their types, and by their cards where
/// the types are the same.
pub open spec fn hand_order(a: Seq<char>, b: Seq<char>, table: Seq<(char, usize)>, j_wildcard: bool) -> Order {
    let ta = hand_kind(a, j_wildcard);
    let tb = hand_kind(b, j_wildcard);
    if ta < tb {
        Order::Less
    } else if ta > tb {
        Order::Greater
    } else {
        by_cards(a, b, table, 0)
    }
}

/// How hand `a` stands to hand `b`.
pub fn compare_hands(a: &Hand, b: &Hand, card_rank: &Vec<(char, usize)>, j_wildcard: bool) -> (order:
    Order)
    ensures
        order == hand_order(a.cards@, b.cards@, card_rank@, j_wildcard),
{
    let a_type = hand_type(a, j_wildcard);
    let b_type = hand_type(b, j_wildcard);
    if a_type < b_type {
        return Order::Less;
    }
    if a_type > b_type {
        return Order::Greater;
    }
    let mut i: usize = 0;
    while i < a.cards.len() && i < b.cards.len()
        invariant
            hand_kind(a.cards@, j_wildcard) == hand_kind(b.cards@, j_wildcard),
            by_cards(a.cards@, b.cards@, card_rank@, 0) == by_cards(
                a.cards@,
                b.cards@,
                card_rank@,
                i as int,
            ),
        decreases a.cards@.len() - i,
    {
        match (rank_of(card_rank, a.cards[i]), rank_of(card_rank, b.cards[i])) {
            (Some(r1), Some(r2)) => {
                if r1 < r2 {
                    return Order::Greater;
                }
                if r1 > r2 {
                    return Order::Less;
                }
            },
            _ => {},
        }
        i += 1;
    }
    Order::Equal
}

/// The mathematical value of a [`Hand`].
pub struct HandText {
    pub bid: i32,
    pub cards: Seq<char>,
}

impl Hand {
    pub open spec fn view(&self) -> HandText {
        HandText { bid: self.bid, cards: self.cards@ }
    }
}

/// The values of a list of hands.
pub open spec fn hand_texts(hands: Seq<Hand>) -> Seq<HandText> {
    hands.map_values(|h: Hand| h@)
}

/// The number that the text spells, where it fits in 32 bits.
pub open spec fn bid_of(text: Seq<char>) -> Option<i32> {
    match number_i64(text) {
        Some(v) => if i32::MIN <= v <= i32::MAX {
            Some(v as i32)
        } else {
            None
        },
        None => None,
    }
}

/// The hand that a line spells: two words, the cards and the bid. Any other
/// line spells none.
pub open spec fn hand_of(line: Seq<char>) -> Option<HandText> {
    let parts = words(line);
    if parts.len() == 2 {
        match bid_of(parts[1]) {
            Some(bid) => Some(HandText { bid, cards: parts[0] }),
            None => None,
        }
    } else {
        None
    }
}

/// The hands of the first `upto` lines; a line that spells none is passed
/// over.
pub open spec fn hands_of(lines: Seq<Seq<char>>, upto: int) -> Seq<HandText>
    decreases upto,
{
    if upto <= 0 || upto > lines.len() {
        Seq::empty()
    } else {
        match hand_of(lines[upto - 1]) {
            Some(h) => hands_of(lines, upto - 1).push(h),
            None => hands_of(lines, upto - 1),
        }
    }
}

/// Reads the hands.
pub fn parse_hands(lines: &Vec<String>) -> (hands: Vec<Hand>)
    ensures
        hand_texts(hands@) == hands_of(texts(lines@), lines@.len() as int),
        hands@.len() <= lines@.len(),
{
    let ghost text = texts(lines@);
    let mut hands: Vec<Hand> = Vec::new();
    let mut k: usize = 0;
    assert(hand_texts(hands@) =~= Seq::empty());
    while k < lines.len()
        invariant
            k <= lines@.len(),
            text == texts(lines@),
            hand_texts(hands@) == hands_of(text, k as int),
            hands@.len() <= k,
        decreases lines@.len() - k,
    {
        let chars = to_chars(lines[k].as_str());
        assert(text[k as int] == chars@);
        let parts = word_bounds(&chars);
        if parts.len() == 2 {
            match parse_i64(&chars, parts[1].0, parts[1].1) {
                Some(v) => {
                    if -0x8000_0000 <= v && v <= 0x7fff_ffff {
                        let ghost before = hand_texts(hands@);
                        let hand = Hand {
                            bid: v as i32,
                            cards: crate::text::slice(&chars, parts[0].0, parts[0].1),
                        };
                        let ghost h = hand@;
                        hands.push(hand);
                        assert(hand_texts(hands@) =~= before.push(h));
                    }
                },
                None => {},
            }
        }
        k += 1;
    }
    hands
}

/// The first place among the sorted hands at which a hand stands that is
/// greater than `h`, and their number where none is.
pub open spec fn place_for(
    sorted: Seq<HandText>,
    h: HandText,
    table: Seq<(char, usize)>,
    j_wildcard: bool,
    from: int,
) -> int
    decreases sorted.len() - from,
{
    if from < 0 || from >= sorted.len() {
        sorted.len() as int
    } else if hand_order(sorted[from].cards, h.cards, table, j_wildcard) == Order::Greater {
        from
    } else {
        place_for(sorted, h, table, j_wildcard, from + 1)
    }
}

/// The hands in ascending order, hands that stand equal in the order in
/// which they were given: each hand in turn goes before the first hand so
/// far that is greater.
pub open spec fn ranked(hands: Seq<HandText>, table: Seq<(char, usize)>, j_wildcard: bool) -> Seq<
    HandText,
>
    decreases hands.len(),
{
    if hands.len() == 0 {
        Seq::empty()
    } else {
        let before = ranked(hands.drop_last(), table, j_wildcard);
        before.insert(place_for(before, hands.last(), table, j_wildcard, 0), hands.last())
    }
}

/// The winnings of the first `upto` hands of a list in order: each bid times
/// the place of its hand, counted from one.
pub open spec fn winnings(hands: Seq<HandText>, upto: int) -> int
    decreases upto,
{
    if upto <= 0 || upto > hands.len() {
        0
    } else {
        winnings(hands, upto - 1) + upto * hands[upto - 1].bid
    }
}

/// Puts the hands in ascending order.
pub fn rank_hands(hands: Vec<Hand>, card_rank: &Vec<(char, usize)>, j_wildcard: bool) -> (sorted:
    Vec<Hand>)
    ensures
        hand_texts(sorted@) == ranked(hand_texts(hands@), card_rank@, j_wildcard),
        sorted@.len() == hands@.len(),
{
    let ghost all = hand_texts(hands@);
    let mut sorted: Vec<Hand> = Vec::new();
    let mut k: usize = 0;
    assert(all.take(0) =~= Seq::empty());
    assert(hand_texts(sorted@) =~= Seq::empty());
    while k < hands.len()
        invariant
            k <= hands@.len(),
            all == hand_texts(hands@),
            hand_texts(sorted@) == ranked(all.take(k as int), card_rank@, j_wildcard),
            sorted@.len() == k,
        decreases hands@.len() - k,
    {
        let hand = hands[k].clone();
        let ghost before = hand_texts(sorted@);
        proof {
            assert(all.take(k + 1).drop_last() =~= all.take(k as int));
            assert(all.take(k + 1).last() == hands@[k as int]@);
        }
        let mut at: usize = 0;
        let mut found = false;
        while at < sorted.len() && !found
            invariant
                at <= sorted@.len(),
                found ==> at < sorted@.len() && hand_order(
                    before[at as int].cards,
                    hand@.cards,
                    card_rank@,
                    j_wildcard,
                ) == Order::Greater,
                before == hand_texts(sorted@),
                place_for(before, hand@, card_rank@, j_wildcard, 0) == place_for(
                    before,
                    hand@,
                    card_rank@,
                    j_wildcard,
                    at as int,
                ),
            decreases sorted@.len() - at + if found {
                0int
            } else {
                1int
            },
        {
            assert(before[at as int] == sorted@[at as int]@);
            match compare_hands(&sorted[at], &hand, card_rank, j_wildcard) {
                Order::Greater => {
                    found = true;
                },
                _ => {
                    at += 1;
                },
            }
        }
        let ghost h = hand@;
        sorted.insert(at, hand);
        assert(hand_texts(sorted@) =~= before.insert(at as int, h));
        k += 1;
    }
    assert(all.take(k as int) =~= all);
    sorted
}

/// The winnings of the hands: each bid times the place of its hand when the
/// hands are put in ascending order.
pub fn solve_part(lines: &Vec<String>, card_rank: &Vec<(char, usize)>, j_wildcard: bool) -> (sum:
    i128)
    requires
        lines@.len() <= 0x7fff_ffff,
    ensures
        sum == winnings(
            ranked(hands_of(texts(lines@), lines@.len() as int), card_rank@, j_wildcard),
            hands_of(texts(lines@), lines@.len() as int).len() as int,
        ),
{
    let hands = parse_hands(lines);
    let sorted = rank_hands(hands, card_rank, j_wildcard);
    let ghost order = hand_texts(sorted@);
    let mut sum: i128 = 0;
    let mut idx: usize = 0;
    while idx < sorted.len()
        invariant
            idx <= sorted@.len() <= 0x7fff_ffff,
            order == hand_texts(sorted@),
            sum == winnings(order, idx as int),
            -0x4000_0000_0000_0000 * idx <= sum <= 0x4000_0000_0000_0000 * idx,
        decreases sorted@.len() - idx,
    {
        assert(order[idx as int] == sorted@[idx as int]@);
        let bid = sorted[idx].bid;
        assert(-0x4000_0000_0000_0000 <= (idx + 1) * bid <= 0x4000_0000_0000_0000)
            by (nonlinear_arith)
            requires
                0 <= idx < 0x7fff_ffff,
                -0x8000_0000 <= bid <= 0x7fff_ffff,
        ;
        sum = sum + (idx as i128 + 1) * bid as i128;
        idx += 1;
    }
    sum
}

/// The winnings when `J` is a jack.
pub fn part1(lines: &Vec<String>) -> (sum: i128)
    requires
        lines@.len() <= 0x7fff_ffff,
    ensures
        sum == winnings(
            ranked(hands_of(texts(lines@), lines@.len() as int), ranks_pt1(), false),
            hands_of(texts(lines@), lines@.len() as int).len() as int,
        ),
{
    let card_rank = card_rank_pt1();
    solve_part(lines, &card_rank, false)
}

/// The winnings when `J` is a joker.
pub fn part2(lines: &Vec<String>) -> (sum: i128)
    requires
        lines@.len() <= 0x7fff_ffff,
    ensures
        sum == winnings(
            ranked(hands_of(texts(lines@), lines@.len() as int), ranks_pt2(), true),
            hands_of(texts(lines@), lines@.len() as int).len() as int,
        ),
{
    let card_rank = card_rank_pt2();
    solve_part(lines, &card_rank, true)
}

/// Both winnings.
pub fn solve(lines: &Vec<String>) -> (answers: (i128, i128))
    requires
        lines@.len() <= 0x7fff_ffff,
    ensures
        answers.0 == winnings(
            ranked(hands_of(texts(lines@), lines@.len() as int), ranks_pt1(), false),
            hands_of(texts(lines@), lines@.len() as int).len() as int,
        ),
        answers.1 == winnings(
            ranked(hands_of(texts(lines@), lines@.len() as int), ranks_pt2(), true),
            hands_of(texts(lines@), lines@.len() as int).len() as int,
        ),
{
    (part1(lines), part2(lines))
}

} // verus!
