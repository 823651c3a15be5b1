//! Histories of readings, and the value that comes next, or came before,
//! when the differences of the differences are carried on.

use vstd::prelude::*;
use crate::text::{numbers_among, texts, to_chars, word_numbers, words};

verus! {

/// The numbers of a list as integers.
pub open spec fn ints(readings: Seq<i64>) -> Seq<int> {
    readings.map_values(|v: i64| v as int)
}

/// Every number of the list is 0. Holds of the empty list.
pub open spec fn all_zero(s: Seq<int>) -> bool {
    forall|i: int| 0 <= i < s.len() ==> #[trigger] s[i] == 0
}

/// The differences between each number and the one before it.
pub open spec fn diffs(s: Seq<int>) -> Seq<int> {
    if s.len() == 0 {
        s
    } else {
        Seq::new((s.len() - 1) as nat, |i: int| s[i + 1] - s[i])
    }
}

/// The value that follows the list: 0 after a list of zeros, else the last
/// number plus the value that follows the differences.
pub open spec fn next_value(s: Seq<int>) -> int
    decreases s.len(),
{
    if all_zero(s) {
        0
    } else {
        s.last() + next_value(diffs(s))
    }
}

/// The value that comes before the list: 0 before a list of zeros, else the
/// first number minus the value that comes before the differences.
pub open spec fn prev_value(s: Seq<int>) -> int
    decreases s.len(),
{
    if all_zero(s) {
        0
    } else {
        s[0] - prev_value(diffs(s))
    }
}

/// `v` fits in 64 bits.
pub open spec fn fits(v: int) -> bool {
    i64::MIN <= v <= i64::MAX
}

/// Everything that the two values are worked out from fits in 64 bits: the
/// differences, the differences of those and so on, and at each level the
/// values that come next and before.
pub open spec fn tame(s: Seq<int>) -> bool
    decreases s.len(),
{
    all_zero(s) || {
        &&& forall|i: int| 0 <= i < diffs(s).len() ==> fits(#[trigger] diffs(s)[i])
        &&& tame(diffs(s))
        &&& fits(next_value(s))
        &&& fits(prev_value(s))
    }
}

/// Whether every number of the list is 0.
pub fn is_all_zero(readings: &Vec<i64>) -> (b: bool)
    ensures
        b == all_zero(ints(readings@)),
{
    let mut i: usize = 0;
    while i < readings.len()
        invariant
            i <= readings@.len(),
            forall|j: int| 0 <= j < i ==> (#[trigger] ints(readings@)[j]) == 0,
        decreases readings@.len() - i,
    {
        if readings[i] != 0 {
            assert(ints(readings@)[i as int] != 0);
            return false;
        }
        i += 1;
    }
    true
}

/// The differences between each number and the one before it, or `None`
/// where one of them does not fit in 64 bits.
pub fn differences(readings: &Vec<i64>) -> (d: Option<Vec<i64>>)
    ensures
        match d {
            Some(d) => ints(d@) == diffs(ints(readings@)),
            None => exists|i: int|
                0 <= i < diffs(ints(readings@)).len() && !fits(
                    #[trigger] diffs(ints(readings@))[i],
                ),
        },
{
    let mut d: Vec<i64> = Vec::new();
    if readings.len() == 0 {
        assert(ints(d@) =~= diffs(ints(readings@)));
        return Some(d);
    }
    let mut i: usize = 0;
    while i < readings.len() - 1
        invariant
            readings@.len() > 0,
            i <= readings@.len() - 1,
            d@.len() == i,
            forall|j: int|
                0 <= j < i ==> (#[trigger] d@[j]) == diffs(ints(readings@))[j],
        decreases readings@.len() - i,
    {
        assert(diffs(ints(readings@))[i as int] == readings@[i + 1] - readings@[i as int]);
        match readings[i + 1].checked_sub(readings[i]) {
            Some(v) => {
                d.push(v);
            },
            None => {
                return None;
            },
        }
        i += 1;
    }
    assert(ints(d@) =~= diffs(ints(readings@)));
    Some(d)
}

/// The value that comes before the readings and the value that follows them,
/// or `None` where something on the way to them does not fit in 64 bits.
pub fn calculate_next(nums: &Vec<i64>) -> (values: Option<(i64, i64)>)
    ensures
        match values {
            Some((before, after)) => {
                &&& tame(ints(nums@))
                &&& before == prev_value(ints(nums@))
                &&& after == next_value(ints(nums@))
            },
            None => !tame(ints(nums@)),
        },
    decreases nums@.len(),
{
    if is_all_zero(nums) {
        return Some((0, 0));
    }
    let ghost s = ints(nums@);
    assert(nums@.len() > 0);
    let d = match differences(nums) {
        Some(d) => d,
        None => {
            return None;
        },
    };
    let (before, after) = match calculate_next(&d) {
        Some(values) => values,
        None => {
            return None;
        },
    };
    assert(s.last() == nums@[nums@.len() - 1] && s[0] == nums@[0]);
    let after = match nums[nums.len() - 1].checked_add(after) {
        Some(v) => v,
        None => {
            return None;
        },
    };
    let before = match nums[0].checked_sub(before) {
        Some(v) => v,
        None => {
            return None;
        },
    };
    assert forall|i: int| 0 <= i < diffs(s).len() implies fits(#[trigger] diffs(s)[i]) by {
        assert(diffs(s)[i] == ints(d@)[i]);
    }
    Some((before, after))
}

/// The readings of a line: the numbers among its words that fit in 32 bits.
pub open spec fn readings_of(line: Seq<char>) -> Seq<int> {
    ints(numbers_among(words(line)))
}

/// The sums of the values that follow and of the values that come before the
/// readings of the lines, where the readings of every line are tame.
pub open spec fn history_sums(lines: Seq<Seq<char>>) -> Option<(int, int)>
    decreases lines.len(),
{
    if lines.len() == 0 {
        Some((0, 0))
    } else {
        let s = readings_of(lines.last());
        match history_sums(lines.drop_last()) {
            Some((after, before)) => if tame(s) {
                Some((after + next_value(s), before + prev_value(s)))
            } else {
                None
            },
            None => None,
        }
    }
}

/// Lines of which a part has no sums have none.
pub proof fn lemma_no_sums(lines: Seq<Seq<char>>, k: int)
    requires
        0 <= k <= lines.len(),
        history_sums(lines.take(k)) is None,
    ensures
        history_sums(lines) is None,
    decreases lines.len() - k,
{
    if k < lines.len() {
        assert(lines.take(k + 1).drop_last() =~= lines.take(k));
        lemma_no_sums(lines, k + 1);
    } else {
        assert(lines.take(k) =~= lines);
    }
}

/// The sum of the values that follow the readings of each line, and the sum
/// of the values that come before them. `None` where the readings of a line
/// lead out of 64 bits.
pub fn solve(lines: &Vec<String>) -> (sums: Option<(i128, i128)>)
    ensures
        match sums {
            Some((after, before)) => history_sums(texts(lines@)) == Some(
                (after as int, before as int),
            ),
            None => history_sums(texts(lines@)) is None,
        },
{
    let mut sum_tail: i128 = 0;
    let mut sum_head: i128 = 0;
    let mut k: usize = 0;
    assert(texts(lines@).take(0) =~= Seq::empty());
    while k < lines.len()
        invariant
            k <= lines@.len(),
            history_sums(texts(lines@).take(k as int)) == Some((sum_tail as int, sum_head as int)),
            -0x8000_0000_0000_0000 * k <= sum_tail <= 0x8000_0000_0000_0000 * k,
            -0x8000_0000_0000_0000 * k <= sum_head <= 0x8000_0000_0000_0000 * k,
        decreases lines@.len() - k,
    {
        proof {
            assert(texts(lines@).take(k + 1).drop_last() =~= texts(lines@).take(k as int));
            assert(texts(lines@).take(k + 1).last() == lines@[k as int]@);
        }
        let chars = to_chars(lines[k].as_str());
        let nums = word_numbers(&chars);
        match calculate_next(&nums) {
            Some((before, after)) => {
                sum_tail = sum_tail + after as i128;
                sum_head = sum_head + before as i128;
            },
            None => {
                proof {
                    lemma_no_sums(texts(lines@), k + 1);
                }
                return None;
            },
        }
        k += 1;
    }
    assert(texts(lines@).take(k as int) =~= texts(lines@));
    Some((sum_tail, sum_head))
}

} // verus!
