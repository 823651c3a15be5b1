//! Boat races: in how many ways a record can be beaten.

use vstd::prelude::*;
use crate::text::{
    after_last,
    blank,
    find_after_last,
    is_blank,
    number_i64,
    numbers_at,
    parse_i64,
    texts,
    to_chars,
    word_slots,
    words,
};

verus! {

/// Holding the button for `hold` of the `time` units of a race beats the
/// record `distance`.
pub open spec fn beats(time: int, distance: int, hold: int) -> bool {
    hold * (time - hold) > distance
}

/// How many holding times from 1 up to, but not including, `upto` beat the
/// record.
pub open spec fn ways(time: int, distance: int, upto: int) -> nat
    decreases upto,
{
    if upto <= 1 {
        0
    } else if beats(time, distance, upto - 1) {
        ways(time, distance, upto - 1) + 1
    } else {
        ways(time, distance, upto - 1)
    }
}

pub proof fn lemma_ways_bound(time: int, distance: int, upto: int)
    ensures
        ways(time, distance, upto) <= if upto <= 1 {
            0
        } else {
            upto - 1
        },
    decreases upto,
{
    if upto > 1 {
        lemma_ways_bound(time, distance, upto - 1);
    }
}

/// Counts, by trying each, the holding times from 1 up to `time - 2` that
/// beat the record. `race` is the time of the race and the record.
pub fn eval_simple(race: (i64, i64)) -> (count: i64)
    ensures
        count == ways(race.0 as int, race.1 as int, race.0 - 1),
{
    let mut count: i64 = 0;
    let mut i: i64 = 1;
    if race.0 <= 2 {
        return 0;
    }
    while i < race.0 - 1
        invariant
            1 <= i <= race.0 - 1,
            count == ways(race.0 as int, race.1 as int, i as int),
        decreases race.0 - 1 - i,
    {
        proof {
            lemma_ways_bound(race.0 as int, race.1 as int, i as int);
            assert(0 <= i * (race.0 - i) <= 0x7fff_ffff_ffff_ffff * 0x7fff_ffff_ffff_ffff)
                by (nonlinear_arith)
                requires
                    1 <= i <= 0x7fff_ffff_ffff_ffff,
                    1 <= race.0 - i <= 0x7fff_ffff_ffff_ffff,
            ;
        }
        let distance = (i as i128) * ((race.0 - i) as i128);
        if distance > race.1 as i128 {
            count += 1;
        }
        i += 1;
    }
    count
}

/// The races that two lines of words spell: word for word from the second
/// word on, a time from the first line with a record from the second, as far
/// as both lines have words; a pair of which one spells no number is passed
/// over.
pub open spec fn races(times: Seq<Seq<char>>, records: Seq<Seq<char>>, upto: int) -> Seq<
    (i64, i64),
>
    decreases upto,
{
    if upto <= 1 || upto > times.len() || upto > records.len() {
        Seq::empty()
    } else {
        let before = races(times, records, upto - 1);
        match (number_i64(times[upto - 1]), number_i64(records[upto - 1])) {
            (Some(t), Some(d)) => before.push((t, d)),
            _ => before,
        }
    }
}

/// The smaller of two numbers.
pub open spec fn least(a: int, b: int) -> int {
    if a <= b {
        a
    } else {
        b
    }
}

/// The races of the first two lines, a time and a record to each.
pub open spec fn races_of(lines: Seq<Seq<char>>) -> Option<Seq<(i64, i64)>> {
    if lines.len() < 2 {
        None
    } else {
        let times = words(lines[0]);
        let records = words(lines[1]);
        Some(races(times, records, least(times.len() as int, records.len() as int)))
    }
}

/// Reads the first two lines as races: a list of times and a list of
/// records, each behind a heading. `None` where there are fewer than two
/// lines.
pub fn parse_races_pt1(lines: &Vec<String>) -> (pairs: Option<Vec<(i64, i64)>>)
    ensures
        match pairs {
            Some(p) => races_of(texts(lines@)) == Some(p@),
            None => races_of(texts(lines@)) is None,
        },
{
    if lines.len() < 2 {
        return None;
    }
    let first = to_chars(lines[0].as_str());
    let second = to_chars(lines[1].as_str());
    assert(texts(lines@)[0] == first@ && texts(lines@)[1] == second@);
    let times = numbers_at(&first);
    let records = numbers_at(&second);
    let n = if times.len() <= records.len() {
        times.len()
    } else {
        records.len()
    };
    let mut pairs: Vec<(i64, i64)> = Vec::new();
    let mut k: usize = 1;
    if n <= 1 {
        return Some(pairs);
    }
    while k < n
        invariant
            1 <= k <= n,
            n <= times@.len(),
            n <= records@.len(),
            times@ == word_slots(first@),
            records@ == word_slots(second@),
            times@.len() == words(first@).len(),
            records@.len() == words(second@).len(),
            pairs@ == races(words(first@), words(second@), k as int),
        decreases n - k,
    {
        match (times[k], records[k]) {
            (Some(t), Some(d)) => {
                pairs.push((t, d));
            },
            _ => {},
        }
        k += 1;
    }
    Some(pairs)
}

/// The text with its white space left out.
pub open spec fn squeezed(s: Seq<char>) -> Seq<char> {
    s.filter(|c: char| !is_blank(c))
}

/// The time and the record that two lines spell when the numbers behind the
/// last colon of each are read as one number, the white space between them
/// passed over.
pub open spec fn one_race_of(lines: Seq<Seq<char>>) -> Option<(i64, i64)> {
    if lines.len() < 2 {
        None
    } else {
        match (
            number_i64(squeezed(lines[0].skip(after_last(lines[0], ':', lines[0].len() as int)))),
            number_i64(squeezed(lines[1].skip(after_last(lines[1], ':', lines[1].len() as int)))),
        ) {
            (Some(t), Some(d)) => Some((t, d)),
            _ => None,
        }
    }
}

/// The number that the text behind the last colon spells when its white
/// space is passed over.
pub fn squeezed_number(line: &Vec<char>) -> (value: Option<i64>)
    ensures
        value == number_i64(squeezed(line@.skip(after_last(line@, ':', line@.len() as int)))),
{
    let from = find_after_last(line, ':');
    let ghost rest = line@.skip(from as int);
    let ghost keep = |c: char| !is_blank(c);
    let mut kept: Vec<char> = Vec::new();
    let mut i: usize = from;
    assert(rest.take(0) =~= Seq::empty());
    while i < line.len()
        invariant
            from <= i <= line@.len(),
            rest == line@.skip(from as int),
            keep == |c: char| !is_blank(c),
            kept@ == rest.take(i - from).filter(keep),
        decreases line@.len() - i,
    {
        proof {
            assert(rest.take(i - from + 1) =~= rest.take(i - from).push(line@[i as int]));
            rest.take(i - from).lemma_filter_push(line@[i as int], keep);
        }
        if !blank(line[i]) {
            kept.push(line[i]);
        }
        i += 1;
    }
    assert(rest.take(i - from) =~= rest);
    assert(kept@.subrange(0, kept@.len() as int) =~= kept@);
    parse_i64(&kept, 0, kept.len())
}

/// Reads the first two lines as one race. `None` where there are fewer than
/// two lines or one of the two spells no number.
pub fn parse_races_pt2(lines: &Vec<String>) -> (race: Option<(i64, i64)>)
    ensures
        race == one_race_of(texts(lines@)),
{
    if lines.len() < 2 {
        return None;
    }
    let first = to_chars(lines[0].as_str());
    let second = to_chars(lines[1].as_str());
    assert(texts(lines@)[0] == first@ && texts(lines@)[1] == second@);
    match (squeezed_number(&first), squeezed_number(&second)) {
        (Some(t), Some(d)) => Some((t, d)),
        _ => None,
    }
}

} // verus!
