//! Calibration values: the first and the last digit of each line, spelled
//! with a digit or with a word.

use vstd::prelude::*;
use crate::text::{digit_value, is_digit, matches_at, occurs_at, texts, to_chars};

verus! {

/// The contents of a list of vectors of characters.
pub open spec fn rows(list: Seq<Vec<char>>) -> Seq<Seq<char>> {
    list.map_values(|v: Vec<char>| v@)
}

/// The names of the digits from one to nine.
pub open spec fn names() -> Seq<Seq<char>> {
    seq![
        "one"@,
        "two"@,
        "three"@,
        "four"@,
        "five"@,
        "six"@,
        "seven"@,
        "eight"@,
        "nine"@,
    ]
}

/// The first of the names that stands in `line` at `at`, counted from 1.
pub open spec fn name_at(line: Seq<char>, at: int, nums: Seq<Seq<char>>, from: int) -> Option<
    int,
>
    decreases nums.len() - from,
{
    if from < 0 || from >= nums.len() {
        None
    } else if occurs_at(line, nums[from], at) {
        Some(from + 1)
    } else {
        name_at(line, at, nums, from + 1)
    }
}

/// The digit that stands in `line` at `at`: the value of a digit character,
/// or, where words count and no digit stands there, the number of the first
/// name that stands there.
pub open spec fn digit_at(line: Seq<char>, at: int, nums: Seq<Seq<char>>, with_text: bool) -> Option<
    int,
> {
    if is_digit(line[at]) {
        Some(digit_value(line[at]))
    } else if with_text {
        name_at(line, at, nums, 0)
    } else {
        None
    }
}

/// The digit at the first place at or after `from` where one stands.
pub open spec fn first_digit(
    line: Seq<char>,
    nums: Seq<Seq<char>>,
    with_text: bool,
    from: int,
) -> Option<int>
    decreases line.len() - from,
{
    if from < 0 || from >= line.len() {
        None
    } else {
        match digit_at(line, from, nums, with_text) {
            Some(v) => Some(v),
            None => first_digit(line, nums, with_text, from + 1),
        }
    }
}

/// The digit at the last place before `upto` where one stands.
pub open spec fn last_digit(
    line: Seq<char>,
    nums: Seq<Seq<char>>,
    with_text: bool,
    upto: int,
) -> Option<int>
    decreases upto,
{
    if upto <= 0 || upto > line.len() {
        None
    } else {
        match digit_at(line, upto - 1, nums, with_text) {
            Some(v) => Some(v),
            None => last_digit(line, nums, with_text, upto - 1),
        }
    }
}

/// The calibration value of a line: ten times its first digit plus its last,
/// and 0 for a line without digits.
pub open spec fn calibration(line: Seq<char>, nums: Seq<Seq<char>>, with_text: bool) -> int {
    match (
        first_digit(line, nums, with_text, 0),
        last_digit(line, nums, with_text, line.len() as int),
    ) {
        (Some(first), Some(last)) => 10 * first + last,
        _ => 0,
    }
}

/// The sum of the calibration values of the lines.
pub open spec fn calibration_sum(lines: Seq<Seq<char>>, nums: Seq<Seq<char>>, with_text: bool) -> int
    decreases lines.len(),
{
    if lines.len() == 0 {
        0
    } else {
        calibration_sum(lines.drop_last(), nums, with_text) + calibration(
            lines.last(),
            nums,
            with_text,
        )
    }
}

/// The digit that stands in `line` at `at`, if one does.
pub fn get_digit_from_str(line: &Vec<char>, at: usize, nums: &Vec<Vec<char>>, with_text: bool) -> (digit:
    Option<u32>)
    requires
        at < line@.len(),
        nums@.len() <= u32::MAX,
    ensures
        match digit {
            Some(v) => digit_at(line@, at as int, rows(nums@), with_text) == Some(v as int),
            None => digit_at(line@, at as int, rows(nums@), with_text) is None,
        },
        digit matches Some(v) ==> v <= 9 || v <= nums@.len(),
{
    let c = line[at];
    let n = c as u32;
    if 48 <= n && n <= 57 {
        return Some(n - 48);
    }
    if !with_text {
        return None;
    }
    let mut i: usize = 0;
    while i < nums.len()
        invariant
            i <= nums@.len() <= u32::MAX,
            at < line@.len(),
            with_text,
            !is_digit(line@[at as int]),
            name_at(line@, at as int, rows(nums@), 0) == name_at(
                line@,
                at as int,
                rows(nums@),
                i as int,
            ),
        decreases nums@.len() - i,
    {
        if matches_at(line, &nums[i], at) {
            return Some(i as u32 + 1);
        }
        i += 1;
    }
    None
}

/// The names of the digits from one to nine.
pub fn digit_names() -> (nums: Vec<Vec<char>>)
    ensures
        rows(nums@) == names(),
{
    let mut nums: Vec<Vec<char>> = Vec::new();
    nums.push(to_chars("one"));
    nums.push(to_chars("two"));
    nums.push(to_chars("three"));
    nums.push(to_chars("four"));
    nums.push(to_chars("five"));
    nums.push(to_chars("six"));
    nums.push(to_chars("seven"));
    nums.push(to_chars("eight"));
    nums.push(to_chars("nine"));
    assert(rows(nums@) =~= names());
    nums
}

/// The digit at the first place of the line where one stands.
pub fn find_first(line: &Vec<char>, nums: &Vec<Vec<char>>, with_text: bool) -> (digit: Option<u32>)
    requires
        nums@.len() <= 9,
    ensures
        match digit {
            Some(v) => first_digit(line@, rows(nums@), with_text, 0) == Some(v as int) && v <= 9,
            None => first_digit(line@, rows(nums@), with_text, 0) is None,
        },
{
    let mut i: usize = 0;
    while i < line.len()
        invariant
            i <= line@.len(),
            nums@.len() <= 9,
            first_digit(line@, rows(nums@), with_text, 0) == first_digit(
                line@,
                rows(nums@),
                with_text,
                i as int,
            ),
        decreases line@.len() - i,
    {
        let digit = get_digit_from_str(line, i, nums, with_text);
        if digit.is_some() {
            return digit;
        }
        i += 1;
    }
    None
}

/// The digit at the last place of the line where one stands.
pub fn find_last(line: &Vec<char>, nums: &Vec<Vec<char>>, with_text: bool) -> (digit: Option<u32>)
    requires
        nums@.len() <= 9,
    ensures
        match digit {
            Some(v) => last_digit(line@, rows(nums@), with_text, line@.len() as int) == Some(v as int)
                && v <= 9,
            None => last_digit(line@, rows(nums@), with_text, line@.len() as int) is None,
        },
{
    let mut j: usize = line.len();
    while j > 0
        invariant
            j <= line@.len(),
            nums@.len() <= 9,
            last_digit(line@, rows(nums@), with_text, line@.len() as int) == last_digit(
                line@,
                rows(nums@),
                with_text,
                j as int,
            ),
        decreases j,
    {
        let digit = get_digit_from_str(line, j - 1, nums, with_text);
        if digit.is_some() {
            return digit;
        }
        j -= 1;
    }
    None
}

/// The calibration value of one line.
pub fn calibrate(line: &Vec<char>, nums: &Vec<Vec<char>>, with_text: bool) -> (value: u32)
    requires
        nums@.len() <= 9,
    ensures
        value == calibration(line@, rows(nums@), with_text),
        value <= 99,
{
    match (find_first(line, nums, with_text), find_last(line, nums, with_text)) {
        (Some(first), Some(last)) => 10 * first + last,
        _ => 0,
    }
}

/// The sum of the calibration values of the lines, with the names of the
/// digits counted or not.
pub fn solve_part(with_text: bool, lines: &Vec<String>) -> (sol: u128)
    ensures
        sol == calibration_sum(texts(lines@), names(), with_text),
{
    let nums = digit_names();
    let mut sol: u128 = 0;
    let mut k: usize = 0;
    assert(texts(lines@).take(0) =~= Seq::empty());
    assert(names().len() == 9);
    while k < lines.len()
        invariant
            k <= lines@.len(),
            rows(nums@) == names(),
            nums@.len() == 9,
            sol == calibration_sum(texts(lines@).take(k as int), names(), with_text),
            sol <= 99 * k,
        decreases lines@.len() - k,
    {
        proof {
            assert(texts(lines@).take(k + 1).drop_last() =~= texts(lines@).take(k as int));
            assert(texts(lines@).take(k + 1).last() == lines@[k as int]@);
        }
        let line = to_chars(lines[k].as_str());
        let value = calibrate(&line, &nums, with_text);
        sol = sol + value as u128;
        k += 1;
    }
    assert(texts(lines@).take(k as int) =~= texts(lines@));
    sol
}

/// The sum of the calibration values of the lines, first with digits alone,
/// then with the names of the digits too.
pub fn solve(lines: &Vec<String>) -> (answers: (u128, u128))
    ensures
        answers.0 == calibration_sum(texts(lines@), names(), false),
        answers.1 == calibration_sum(texts(lines@), names(), true),
{
    (solve_part(false, lines), solve_part(true, lines))
}

} // verus!
