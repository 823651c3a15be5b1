//! Rows of springs: in how many ways the unknown springs of a row can be
//! damaged so that the runs of damaged springs have the lengths listed.

use vstd::prelude::*;
use crate::combine::{choices, combinations, lists};
use crate::text::{
    numbers_among,
    parse_i64,
    slice,
    split,
    split_bounds,
    texts,
    to_chars,
    word_bounds,
    words,
};

verus! {

/// The positions of the springs of which the row does not say whether they
/// are damaged.
pub open spec fn unknowns(springs: Seq<char>) -> Seq<usize> {
    Seq::new(springs.len(), |i: int| i as usize).filter(|i: usize| springs[i as int] == '?')
}

/// The spring at `at` counts as damaged: the row says so, or it is one of the
/// unknown springs chosen.
pub open spec fn damaged(springs: Seq<char>, chosen: Seq<usize>, at: int) -> bool {
    springs[at] == '#' || chosen.contains(at as usize)
}

/// The length listed for run number `i`, and -1 where the list has no such
/// entry.
pub open spec fn expected(lengths: Seq<i64>, i: int) -> int {
    if 0 <= i < lengths.len() {
        lengths[i] as int
    } else {
        -1
    }
}

/// How far a row has been compared with the list: the length of the run of
/// damaged springs that is open, and the number of runs that are closed and
/// had the lengths listed, or -1 once a closed run had another length.
pub struct Scan {
    pub run: int,
    pub matched: int,
}

/// The comparison after the first `upto` springs.
pub open spec fn scan(springs: Seq<char>, chosen: Seq<usize>, lengths: Seq<i64>, upto: nat) -> Scan
    decreases upto,
{
    if upto == 0 {
        Scan { run: 0, matched: 0 }
    } else {
        let s = scan(springs, chosen, lengths, (upto - 1) as nat);
        if s.matched < 0 {
            s
        } else if damaged(springs, chosen, upto - 1) {
            Scan { run: s.run + 1, matched: s.matched }
        } else if s.run == 0 {
            s
        } else if expected(lengths, s.matched) == s.run {
            Scan { run: 0, matched: s.matched + 1 }
        } else {
            Scan { run: s.run, matched: -1 }
        }
    }
}

/// The row, with the chosen springs damaged, agrees with the list: every run
/// of damaged springs that is followed by a working spring has the length
/// listed for it, and so has a run at the end of the row.
pub open spec fn fits(springs: Seq<char>, chosen: Seq<usize>, lengths: Seq<i64>) -> bool {
    let s = scan(springs, chosen, lengths, springs.len());
    s.matched >= 0 && (s.run == 0 || expected(lengths, s.matched) == s.run)
}

/// How many of the choices agree with the list.
pub open spec fn count_fits(
    springs: Seq<char>,
    all: Seq<Seq<usize>>,
    lengths: Seq<i64>,
) -> nat {
    all.filter(|chosen: Seq<usize>| fits(springs, chosen, lengths)).len()
}

/// The sum of the numbers.
pub open spec fn sum_of(numbers: Seq<i64>) -> int
    decreases numbers.len(),
{
    if numbers.len() == 0 {
        0
    } else {
        sum_of(numbers.drop_last()) + numbers.last()
    }
}

/// The test that a character is `c`.
pub open spec fn is_char(c: char) -> spec_fn(char) -> bool {
    |x: char| x == c
}

/// How often `c` occurs in `s`.
pub open spec fn occurrences(s: Seq<char>, c: char) -> nat {
    s.filter(is_char(c)).len()
}

/// The number of arrangements of a line: its first word is the row, its
/// second the list of lengths, separated by commas. As many unknown springs
/// are chosen as the lengths add up to beyond the `#` of the line; where that
/// is less than none or more than there are, there is no arrangement. A line
/// of fewer than two words has no meaning.
pub open spec fn arrangements(line: Seq<char>) -> Option<nat> {
    let w = words(line);
    if w.len() < 2 {
        None
    } else {
        let lengths = numbers_among(split(w[1], seq![',']));
        let missing = sum_of(lengths) - occurrences(line, '#');
        let open = unknowns(w[0]);
        if 0 <= missing <= open.len() {
            Some(count_fits(w[0], choices(open, missing as nat), lengths))
        } else {
            Some(0)
        }
    }
}

/// The sum of the arrangements of the lines, where every line has a meaning.
pub open spec fn total_arrangements(lines: Seq<Seq<char>>) -> Option<nat>
    decreases lines.len(),
{
    if lines.len() == 0 {
        Some(0)
    } else {
        match (total_arrangements(lines.drop_last()), arrangements(lines.last())) {
            (Some(before), Some(here)) => Some(before + here),
            _ => None,
        }
    }
}

/// Whether `x` is among the chosen.
pub fn holds(chosen: &Vec<usize>, x: usize) -> (b: bool)
    ensures
        b == chosen@.contains(x),
{
    let mut i: usize = 0;
    while i < chosen.len()
        invariant
            i <= chosen@.len(),
            forall|j: int| 0 <= j < i ==> chosen@[j] != x,
        decreases chosen@.len() - i,
    {
        if chosen[i] == x {
            return true;
        }
        i += 1;
    }
    false
}

/// Whether the row, with the chosen springs damaged, agrees with the list of
/// lengths.
pub fn agrees(springs: &Vec<char>, chosen: &Vec<usize>, lengths: &Vec<i64>) -> (b: bool)
    ensures
        b == fits(springs@, chosen@, lengths@),
{
    let mut run: usize = 0;
    let mut matched: usize = 0;
    let mut i: usize = 0;
    while i < springs.len()
        invariant
            i <= springs@.len(),
            run <= i,
            matched <= i,
            scan(springs@, chosen@, lengths@, i as nat) == (Scan {
                run: run as int,
                matched: matched as int,
            }),
        decreases springs@.len() - i,
    {
        if springs[i] == '#' || holds(chosen, i) {
            run += 1;
        } else if run != 0 {
            if matched < lengths.len() && lengths[matched] >= 0 && lengths[matched] as u64
                == run as u64 {
                matched += 1;
                run = 0;
            } else {
                proof {
                    lemma_failed_stays(springs@, chosen@, lengths@, (i + 1) as nat, springs@.len());
                }
                return false;
            }
        }
        i += 1;
    }
    run == 0 || (matched < lengths.len() && lengths[matched] >= 0 && lengths[matched] as u64
        == run as u64)
}

/// Once a closed run had a length that is not the one listed, the row does
/// not agree with the list, whatever follows.
pub proof fn lemma_failed_stays(
    springs: Seq<char>,
    chosen: Seq<usize>,
    lengths: Seq<i64>,
    at: nat,
    upto: nat,
)
    requires
        scan(springs, chosen, lengths, at).matched < 0,
        at <= upto,
    ensures
        scan(springs, chosen, lengths, upto).matched < 0,
    decreases upto,
{
    if at < upto {
        lemma_failed_stays(springs, chosen, lengths, at, (upto - 1) as nat);
    }
}

/// Counts the choices with which the row agrees with the list of lengths.
pub fn count_fitting(springs: &Vec<char>, all: &Vec<Vec<usize>>, lengths: &Vec<i64>) -> (count:
    usize)
    ensures
        count == count_fits(springs@, lists(all@), lengths@),
{
    let ghost good = |chosen: Seq<usize>| fits(springs@, chosen, lengths@);
    let mut count: usize = 0;
    let mut i: usize = 0;
    assert(lists(all@).take(0) =~= Seq::empty());
    while i < all.len()
        invariant
            i <= all@.len(),
            good == |chosen: Seq<usize>| fits(springs@, chosen, lengths@),
            count == lists(all@).take(i as int).filter(good).len(),
            count <= i,
        decreases all@.len() - i,
    {
        proof {
            let front = lists(all@).take(i as int);
            assert(lists(all@).take(i + 1) =~= front.push(all@[i as int]@));
            front.lemma_filter_push(all@[i as int]@, good);
        }
        if agrees(springs, &all[i], lengths) {
            count += 1;
        }
        i += 1;
    }
    assert(lists(all@).take(i as int) =~= lists(all@));
    count
}

/// The positions of the `?` in the row.
pub fn unknown_positions(springs: &Vec<char>) -> (open: Vec<usize>)
    ensures
        open@ == unknowns(springs@),
{
    let ghost all = Seq::new(springs@.len(), |i: int| i as usize);
    let ghost asked = |i: usize| springs@[i as int] == '?';
    let mut open: Vec<usize> = Vec::new();
    let mut i: usize = 0;
    assert(all.take(0) =~= Seq::empty());
    while i < springs.len()
        invariant
            i <= springs@.len(),
            all == Seq::new(springs@.len(), |i: int| i as usize),
            asked == |i: usize| springs@[i as int] == '?',
            open@ == all.take(i as int).filter(asked),
        decreases springs@.len() - i,
    {
        proof {
            assert(all.take(i + 1) =~= all.take(i as int).push(i));
            all.take(i as int).lemma_filter_push(i, asked);
        }
        if springs[i] == '?' {
            open.push(i);
        }
        i += 1;
    }
    assert(all.take(i as int) =~= all);
    open
}

/// How often `c` occurs in `s`.
pub fn count_char(s: &Vec<char>, c: char) -> (count: usize)
    ensures
        count == occurrences(s@, c),
{
    let ghost same = is_char(c);
    let mut count: usize = 0;
    let mut i: usize = 0;
    assert(s@.take(0) =~= Seq::empty());
    while i < s.len()
        invariant
            i <= s@.len(),
            same == is_char(c),
            count == s@.take(i as int).filter(same).len(),
            count <= i,
        decreases s@.len() - i,
    {
        proof {
            assert(s@.take(i + 1) =~= s@.take(i as int).push(s@[i as int]));
            s@.take(i as int).lemma_filter_push(s@[i as int], same);
        }
        if s[i] == c {
            count += 1;
        }
        i += 1;
    }
    assert(s@.take(i as int) =~= s@);
    count
}

/// The lengths that a list spells, with their sum: the numbers between its
/// commas.
pub fn read_lengths(list: &Vec<char>) -> (read: (Vec<i64>, i128))
    ensures
        read.0@ == numbers_among(split(list@, seq![','])),
        read.1 == sum_of(read.0@),
        -0x8000_0000 * read.0@.len() <= read.1 <= 0x8000_0000 * read.0@.len(),
{
    let comma: Vec<char> = vec![','];
    assert(comma@ =~= seq![',']);
    let bounds = split_bounds(list, &comma);
    let ghost pieces = split(list@, seq![',']);
    let mut lengths: Vec<i64> = Vec::new();
    let mut sum: i128 = 0;
    let mut k: usize = 0;
    assert(pieces.take(0) =~= Seq::empty());
    while k < bounds.len()
        invariant
            k <= bounds@.len(),
            pieces == split(list@, seq![',']),
            bounds@.len() == pieces.len(),
            forall|i: int|
                0 <= i < bounds@.len() ==> {
                    &&& (#[trigger] bounds@[i]).0 <= bounds@[i].1 <= list@.len()
                    &&& list@.subrange(bounds@[i].0 as int, bounds@[i].1 as int) == pieces[i]
                },
            lengths@ == numbers_among(pieces.take(k as int)),
            lengths@.len() <= k,
            sum == sum_of(lengths@),
            -0x8000_0000 * lengths@.len() <= sum <= 0x8000_0000 * lengths@.len(),
        decreases bounds@.len() - k,
    {
        let (a, b) = bounds[k];
        proof {
            assert(pieces.take(k + 1).drop_last() =~= pieces.take(k as int));
            assert(pieces.take(k + 1).last() == pieces[k as int]);
        }
        match parse_i64(list, a, b) {
            Some(v) => {
                if -0x8000_0000 <= v && v <= 0x7fff_ffff {
                    let ghost before = lengths@;
                    lengths.push(v);
                    assert(lengths@.drop_last() =~= before);
                    sum = sum + v as i128;
                }
            },
            None => {},
        }
        k += 1;
    }
    assert(pieces.take(k as int) =~= pieces);
    (lengths, sum)
}

/// The number of arrangements of one line, and `None` for a line of fewer
/// than two words.
pub fn count_arrangements(line: &str) -> (count: Option<usize>)
    ensures
        match count {
            Some(n) => arrangements(line@) == Some(n as nat),
            None => arrangements(line@) is None,
        },
{
    let chars = to_chars(line);
    let bounds = word_bounds(&chars);
    if bounds.len() < 2 {
        return None;
    }
    let springs = slice(&chars, bounds[0].0, bounds[0].1);
    let list = slice(&chars, bounds[1].0, bounds[1].1);
    let (lengths, sum) = read_lengths(&list);
    let hashes = count_char(&chars, '#');
    let open = unknown_positions(&springs);
    assert(lengths@.len() <= usize::MAX) by {
        assert(lengths.len() == lengths@.len());
    }
    let missing = sum - hashes as i128;
    if missing < 0 || missing > open.len() as i128 {
        return Some(0);
    }
    let all = combinations(&open, missing as usize);
    Some(count_fitting(&springs, &all, &lengths))
}

/// The sum of the arrangements of the lines; the second answer is 0. `None`
/// where a line has fewer than two words.
pub fn solve(lines: &Vec<String>) -> (answers: Option<(u128, u128)>)
    ensures
        match answers {
            Some((total, other)) => total_arrangements(texts(lines@)) == Some(total as nat)
                && other == 0,
            None => total_arrangements(texts(lines@)) is None,
        },
{
    let mut total: u128 = 0;
    let mut i: usize = 0;
    assert(texts(lines@).take(0) =~= Seq::empty());
    while i < lines.len()
        invariant
            i <= lines@.len(),
            total_arrangements(texts(lines@).take(i as int)) == Some(total as nat),
            total <= i * usize::MAX,
        decreases lines@.len() - i,
    {
        proof {
            assert(texts(lines@).take(i + 1).drop_last() =~= texts(lines@).take(i as int));
            assert(texts(lines@).take(i + 1).last() == lines@[i as int]@);
            assert(i * usize::MAX + usize::MAX <= u128::MAX) by (nonlinear_arith)
                requires
                    i <= usize::MAX,
                    usize::MAX <= u64::MAX,
            ;
            assert((i + 1) * usize::MAX == i * usize::MAX + usize::MAX) by (nonlinear_arith);
        }
        match count_arrangements(lines[i].as_str()) {
            Some(n) => {
                total = total + n as u128;
            },
            None => {
                proof {
                    lemma_no_total(texts(lines@), i + 1);
                }
                return None;
            },
        }
        i += 1;
    }
    assert(texts(lines@).take(i as int) =~= texts(lines@));
    Some((total, 0))
}

/// Lines of which a part has no total have none.
pub proof fn lemma_no_total(lines: Seq<Seq<char>>, k: int)
    requires
        0 <= k <= lines.len(),
        total_arrangements(lines.take(k)) is None,
    ensures
        total_arrangements(lines) is None,
    decreases lines.len() - k,
{
    if k < lines.len() {
        assert(lines.take(k + 1).drop_last() =~= lines.take(k));
        lemma_no_total(lines, k + 1);
    } else {
        assert(lines.take(k) =~= lines);
    }
}

} // verus!
