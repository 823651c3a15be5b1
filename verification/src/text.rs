//! Searching and cutting text, as sequences of characters.

use vstd::prelude::*;

verus! {

/// The texts of a list of strings.
pub open spec fn texts(lines: Seq<String>) -> Seq<Seq<char>> {
    lines.map_values(|s: String| s@)
}

/// `pat` stands in `s` at position `i`.
pub open spec fn occurs_at(s: Seq<char>, pat: Seq<char>, i: int) -> bool {
    0 <= i && i + pat.len() <= s.len() && s.subrange(i, i + pat.len()) == pat
}

/// The first position at or after `from` at which `pat` stands in `s`.
pub open spec fn find(s: Seq<char>, pat: Seq<char>, from: int) -> Option<int>
    decreases s.len() + 1 - from,
{
    if from < 0 || from + pat.len() > s.len() {
        None
    } else if occurs_at(s, pat, from) {
        Some(from)
    } else {
        find(s, pat, from + 1)
    }
}

/// `find` returns the least position, and `None` only where there is none.
pub proof fn lemma_find(s: Seq<char>, pat: Seq<char>, from: int)
    requires
        0 <= from,
    ensures
        match find(s, pat, from) {
            Some(i) => from <= i && occurs_at(s, pat, i) && forall|j: int|
                from <= j < i ==> !occurs_at(s, pat, j),
            None => forall|j: int| from <= j ==> !occurs_at(s, pat, j),
        },
    decreases s.len() + 1 - from,
{
    if from + pat.len() <= s.len() && !occurs_at(s, pat, from) {
        lemma_find(s, pat, from + 1);
    }
}

/// The pieces that remain of `s` from `start` on when every occurrence of
/// `pat` is cut out, scanning from `at` and going on behind each occurrence
/// found. An empty `pat` cuts nothing.
pub open spec fn pieces(s: Seq<char>, pat: Seq<char>, start: int, at: int) -> Seq<Seq<char>>
    decreases s.len() - at,
{
    if at < 0 || pat.len() == 0 || at + pat.len() > s.len() {
        seq![s.subrange(start, s.len() as int)]
    } else if occurs_at(s, pat, at) {
        seq![s.subrange(start, at)] + pieces(s, pat, at + pat.len(), at + pat.len())
    } else {
        pieces(s, pat, start, at + 1)
    }
}

/// The pieces between the occurrences of `pat` in `s`, leftmost occurrence
/// first: one piece more than there are cuts, so never none.
pub open spec fn split(s: Seq<char>, pat: Seq<char>) -> Seq<Seq<char>> {
    pieces(s, pat, 0, 0)
}

/// The characters of a string.
pub fn to_chars(s: &str) -> (v: Vec<char>)
    ensures
        v@ == s@,
{
    let n = s.unicode_len();
    let mut v: Vec<char> = Vec::new();
    let mut i: usize = 0;
    while i < n
        invariant
            n == s@.len(),
            i <= n,
            v@ == s@.take(i as int),
        decreases n - i,
    {
        v.push(s.get_char(i));
        assert(s@.take(i + 1) =~= s@.take(i as int).push(s@[i as int]));
        i += 1;
    }
    assert(s@.take(n as int) =~= s@);
    v
}

/// The characters of `s` from position `from` up to `to`.
pub fn slice(s: &Vec<char>, from: usize, to: usize) -> (v: Vec<char>)
    requires
        from <= to <= s@.len(),
    ensures
        v@ == s@.subrange(from as int, to as int),
{
    let mut v: Vec<char> = Vec::new();
    let mut i: usize = from;
    while i < to
        invariant
            from <= i <= to <= s@.len(),
            v@ == s@.subrange(from as int, i as int),
        decreases to - i,
    {
        v.push(s[i]);
        assert(s@.subrange(from as int, i + 1) =~= s@.subrange(from as int, i as int).push(
            s@[i as int],
        ));
        i += 1;
    }
    v
}

/// Whether `pat` stands in `s` at position `i`.
pub fn matches_at(s: &Vec<char>, pat: &Vec<char>, i: usize) -> (b: bool)
    ensures
        b == occurs_at(s@, pat@, i as int),
{
    if pat.len() > s.len() || i > s.len() - pat.len() {
        return false;
    }
    let mut k: usize = 0;
    while k < pat.len()
        invariant
            i + pat@.len() <= s@.len() <= usize::MAX,
            k <= pat@.len(),
            forall|j: int| 0 <= j < k ==> s@[i + j] == pat@[j],
        decreases pat@.len() - k,
    {
        if s[i + k] != pat[k] {
            assert(s@.subrange(i as int, i + pat@.len())[k as int] != pat@[k as int]);
            return false;
        }
        k += 1;
    }
    assert(s@.subrange(i as int, i + pat@.len()) =~= pat@);
    true
}

/// The first position at or after `from` at which `pat` stands in `s`.
pub fn find_from(s: &Vec<char>, pat: &Vec<char>, from: usize) -> (at: Option<usize>)
    ensures
        match at {
            Some(i) => find(s@, pat@, from as int) == Some(i as int),
            None => find(s@, pat@, from as int) is None,
        },
{
    if pat.len() > s.len() {
        return None;
    }
    if pat.len() == 0 {
        if from > s.len() {
            return None;
        }
        assert(s@.subrange(from as int, from as int) =~= pat@);
        return Some(from);
    }
    let last = s.len() - pat.len();
    let mut i: usize = from;
    while i <= last
        invariant
            0 < pat@.len(),
            last == s@.len() - pat@.len(),
            s@.len() <= usize::MAX,
            from <= i,
            find(s@, pat@, from as int) == find(s@, pat@, i as int),
        decreases last + 1 - i,
    {
        if matches_at(s, pat, i) {
            return Some(i);
        }
        i += 1;
    }
    None
}

/// The bounds of the pieces between the occurrences of `pat` in `s`: piece
/// `k` is `s[bounds[k].0 .. bounds[k].1]`.
pub fn split_bounds(s: &Vec<char>, pat: &Vec<char>) -> (bounds: Vec<(usize, usize)>)
    ensures
        bounds@.len() == split(s@, pat@).len(),
        forall|k: int|
            0 <= k < bounds@.len() ==> {
                &&& (#[trigger] bounds@[k]).0 <= bounds@[k].1 <= s@.len()
                &&& s@.subrange(bounds@[k].0 as int, bounds@[k].1 as int) == split(s@, pat@)[k]
            },
{
    let mut bounds: Vec<(usize, usize)> = Vec::new();
    let mut start: usize = 0;
    let mut at: usize = 0;
    let ghost done: Seq<Seq<char>> = Seq::empty();
    if pat.len() > 0 && pat.len() <= s.len() {
        let last = s.len() - pat.len();
        while at <= last
            invariant
                0 < pat@.len() <= s@.len() <= usize::MAX,
                last == s@.len() - pat@.len(),
                start <= at <= s@.len(),
                done.len() == bounds@.len(),
                forall|k: int|
                    0 <= k < bounds@.len() ==> {
                        &&& (#[trigger] bounds@[k]).0 <= bounds@[k].1 <= s@.len()
                        &&& s@.subrange(bounds@[k].0 as int, bounds@[k].1 as int) == done[k]
                    },
                done + pieces(s@, pat@, start as int, at as int) == split(s@, pat@),
            decreases s@.len() - at,
        {
            if matches_at(s, pat, at) {
                bounds.push((start, at));
                proof {
                    let piece = s@.subrange(start as int, at as int);
                    let rest = pieces(s@, pat@, at + pat@.len(), at + pat@.len());
                    assert(done + (seq![piece] + rest) =~= done.push(piece) + rest);
                    done = done.push(piece);
                }
                at = at + pat.len();
                start = at;
            } else {
                at += 1;
            }
        }
    }
    bounds.push((start, s.len()));
    proof {
        let piece = s@.subrange(start as int, s@.len() as int);
        assert(pieces(s@, pat@, start as int, at as int) =~= seq![piece]);
        assert(done + seq![piece] =~= done.push(piece));
        done = done.push(piece);
        assert(done == split(s@, pat@));
    }
    bounds
}

/// The bounds, within `s`, of the pieces between the occurrences of `pat` in
/// the part of `s` from `from` up to `to`.
pub fn split_within(s: &Vec<char>, from: usize, to: usize, pat: &Vec<char>) -> (bounds: Vec<
    (usize, usize),
>)
    requires
        from <= to <= s@.len(),
    ensures
        bounds@.len() == split(s@.subrange(from as int, to as int), pat@).len(),
        bounds@.len() >= 1,
        forall|k: int|
            0 <= k < bounds@.len() ==> {
                &&& from <= (#[trigger] bounds@[k]).0 <= bounds@[k].1 <= to
                &&& s@.subrange(bounds@[k].0 as int, bounds@[k].1 as int) == split(
                    s@.subrange(from as int, to as int),
                    pat@,
                )[k]
            },
{
    let part = slice(s, from, to);
    let inner = split_bounds(&part, pat);
    let mut bounds: Vec<(usize, usize)> = Vec::new();
    let mut k: usize = 0;
    while k < inner.len()
        invariant
            k <= inner@.len(),
            from <= to <= s@.len(),
            part@ == s@.subrange(from as int, to as int),
            inner@.len() == split(part@, pat@).len(),
            forall|i: int|
                0 <= i < inner@.len() ==> {
                    &&& (#[trigger] inner@[i]).0 <= inner@[i].1 <= part@.len()
                    &&& part@.subrange(inner@[i].0 as int, inner@[i].1 as int) == split(
                        part@,
                        pat@,
                    )[i]
                },
            bounds@.len() == k,
            forall|i: int|
                0 <= i < k ==> {
                    &&& from <= (#[trigger] bounds@[i]).0 <= bounds@[i].1 <= to
                    &&& s@.subrange(bounds@[i].0 as int, bounds@[i].1 as int) == split(
                        part@,
                        pat@,
                    )[i]
                },
        decreases inner@.len() - k,
    {
        let (a, b) = inner[k];
        assert(s@.subrange(from + a, from + b) =~= part@.subrange(a as int, b as int));
        bounds.push((from + a, from + b));
        k += 1;
    }
    proof {
        lemma_split_some(part@, pat@);
    }
    bounds
}

/// Cutting gives at least one piece.
pub proof fn lemma_split_some(s: Seq<char>, pat: Seq<char>)
    ensures
        split(s, pat).len() >= 1,
{
    lemma_pieces_some(s, pat, 0, 0);
}

proof fn lemma_pieces_some(s: Seq<char>, pat: Seq<char>, start: int, at: int)
    ensures
        pieces(s, pat, start, at).len() >= 1,
    decreases s.len() - at,
{
    if at < 0 || pat.len() == 0 || at + pat.len() > s.len() {
    } else if occurs_at(s, pat, at) {
    } else {
        lemma_pieces_some(s, pat, start, at + 1);
    }
}

/// `c` is white space: one of the characters that Unicode lists as such.
pub open spec fn is_blank(c: char) -> bool {
    let n = c as u32;
    ||| 9 <= n <= 13
    ||| n == 32
    ||| n == 133
    ||| n == 160
    ||| n == 5760
    ||| 8192 <= n <= 8202
    ||| n == 8232
    ||| n == 8233
    ||| n == 8239
    ||| n == 8287
    ||| n == 12288
}

/// Whether `c` is white space.
pub fn blank(c: char) -> (b: bool)
    ensures
        b == is_blank(c),
{
    let n = c as u32;
    (9 <= n && n <= 13) || n == 32 || n == 133 || n == 160 || n == 5760 || (8192 <= n && n
        <= 8202) || n == 8232 || n == 8233 || n == 8239 || n == 8287 || n == 12288
}

/// The words that end within `s`, and the word that `s` ends in the middle
/// of, which is empty where `s` ends with white space.
pub open spec fn word_scan(s: Seq<char>) -> (Seq<Seq<char>>, Seq<char>)
    decreases s.len(),
{
    if s.len() == 0 {
        (Seq::empty(), Seq::empty())
    } else {
        let (done, word) = word_scan(s.drop_last());
        if !is_blank(s.last()) {
            (done, word.push(s.last()))
        } else if word.len() > 0 {
            (done.push(word), Seq::empty())
        } else {
            (done, word)
        }
    }
}

/// The words of `s`: its longest runs of characters that are not white
/// space.
pub open spec fn words(s: Seq<char>) -> Seq<Seq<char>> {
    let (done, word) = word_scan(s);
    if word.len() > 0 {
        done.push(word)
    } else {
        done
    }
}

/// The bounds of the words of `s`: word `k` is `s[bounds[k].0 .. bounds[k].1]`.
pub fn word_bounds(s: &Vec<char>) -> (bounds: Vec<(usize, usize)>)
    ensures
        bounds@.len() == words(s@).len(),
        forall|k: int|
            0 <= k < bounds@.len() ==> {
                &&& (#[trigger] bounds@[k]).0 < bounds@[k].1 <= s@.len()
                &&& s@.subrange(bounds@[k].0 as int, bounds@[k].1 as int) == words(s@)[k]
            },
{
    let mut bounds: Vec<(usize, usize)> = Vec::new();
    let mut start: usize = 0;
    let mut i: usize = 0;
    assert(s@.subrange(0, 0) =~= Seq::empty());
    while i < s.len()
        invariant
            start <= i <= s@.len(),
            bounds@.len() == word_scan(s@.take(i as int)).0.len(),
            forall|k: int|
                0 <= k < bounds@.len() ==> {
                    &&& (#[trigger] bounds@[k]).0 < bounds@[k].1 <= s@.len()
                    &&& s@.subrange(bounds@[k].0 as int, bounds@[k].1 as int) == word_scan(
                        s@.take(i as int),
                    ).0[k]
                },
            s@.subrange(start as int, i as int) == word_scan(s@.take(i as int)).1,
        decreases s@.len() - i,
    {
        proof {
            assert(s@.take(i + 1).drop_last() =~= s@.take(i as int));
            assert(s@.subrange(start as int, i + 1) =~= s@.subrange(start as int, i as int).push(
                s@[i as int],
            ));
            assert(s@.subrange(i + 1, i + 1) =~= Seq::empty());
        }
        if blank(s[i]) {
            if start < i {
                bounds.push((start, i));
            }
            start = i + 1;
        }
        i += 1;
    }
    assert(s@.take(i as int) =~= s@);
    if start < i {
        bounds.push((start, i));
    }
    bounds
}

/// `c` is one of the digits `0` to `9`.
pub open spec fn is_digit(c: char) -> bool {
    48 <= c as u32 <= 57
}

/// The value of a digit.
pub open spec fn digit_value(c: char) -> int {
    c as u32 - 48
}

/// Every character of `s` is a digit.
pub open spec fn all_digits(s: Seq<char>) -> bool {
    forall|i: int| 0 <= i < s.len() ==> is_digit(#[trigger] s[i])
}

/// The number that a run of digits spells in base ten; 0 for none.
pub open spec fn digits_value(s: Seq<char>) -> int
    decreases s.len(),
{
    if s.len() == 0 {
        0
    } else {
        digits_value(s.drop_last()) * 10 + digit_value(s.last())
    }
}

/// The number that `s` spells: one digit or more, with `+` or `-` before
/// them or neither. Anything else spells no number.
pub open spec fn number(s: Seq<char>) -> Option<int> {
    if s.len() > 0 && (s[0] == '-' || s[0] == '+') {
        if s.len() > 1 && all_digits(s.skip(1)) {
            if s[0] == '-' {
                Some(-digits_value(s.skip(1)))
            } else {
                Some(digits_value(s.skip(1)))
            }
        } else {
            None
        }
    } else if s.len() > 0 && all_digits(s) {
        Some(digits_value(s))
    } else {
        None
    }
}

/// The number that `s` spells, where it fits in 64 bits.
pub open spec fn number_i64(s: Seq<char>) -> Option<i64> {
    match number(s) {
        Some(v) => if i64::MIN <= v <= i64::MAX {
            Some(v as i64)
        } else {
            None
        },
        None => None,
    }
}

/// More digits spell no smaller number.
pub proof fn lemma_digits_grow(s: Seq<char>, k: int)
    requires
        all_digits(s),
        0 <= k <= s.len(),
    ensures
        0 <= digits_value(s.take(k)) <= digits_value(s),
    decreases s.len() - k,
{
    lemma_digits_nonnegative(s.take(k));
    if k < s.len() {
        lemma_digits_grow(s, k + 1);
        assert(s.take(k + 1).drop_last() =~= s.take(k));
        assert(is_digit(s[k]));
    } else {
        assert(s.take(k) =~= s);
    }
}

pub proof fn lemma_digits_nonnegative(s: Seq<char>)
    requires
        all_digits(s),
    ensures
        0 <= digits_value(s),
    decreases s.len(),
{
    if s.len() > 0 {
        lemma_digits_nonnegative(s.drop_last());
        assert(is_digit(s.last()));
    }
}

/// Reads the characters of `s` from `from` up to `to` as a number.
pub fn parse_i64(s: &Vec<char>, from: usize, to: usize) -> (value: Option<i64>)
    requires
        from <= to <= s@.len(),
    ensures
        value == number_i64(s@.subrange(from as int, to as int)),
{
    let ghost text = s@.subrange(from as int, to as int);
    if from == to {
        return None;
    }
    let first = s[from];
    assert(text[0] == first);
    let signed = first == '-' || first == '+';
    let start = if signed {
        from + 1
    } else {
        from
    };
    if start == to {
        return None;
    }
    let ghost digits = s@.subrange(start as int, to as int);
    assert(signed ==> digits =~= text.skip(1));
    assert(!signed ==> digits =~= text);
    let mut acc: i128 = 0;
    let mut i: usize = start;
    assert(digits.take(0) =~= Seq::empty());
    while i < to
        invariant
            start <= i <= to <= s@.len(),
            start < to,
            digits == s@.subrange(start as int, to as int),
            text == s@.subrange(from as int, to as int),
            from < to,
            first == text[0],
            signed == (first == '-' || first == '+'),
            signed ==> digits == text.skip(1),
            !signed ==> digits == text,
            all_digits(digits.take(i - start)),
            acc == digits_value(digits.take(i - start)),
            0 <= acc <= 0x8000_0000_0000_0000,
        decreases to - i,
    {
        let c = s[i];
        let n = c as u32;
        proof {
            assert(digits[i - start] == c);
            assert(digits.take(i - start + 1).drop_last() =~= digits.take(i - start));
        }
        if n < 48 || n > 57 {
            assert(!all_digits(digits));
            return None;
        }
        acc = acc * 10 + (n - 48) as i128;
        proof {
            assert forall|j: int| 0 <= j < i - start + 1 implies is_digit(
                #[trigger] digits.take(i - start + 1)[j],
            ) by {
                if j < i - start {
                    assert(digits.take(i - start)[j] == digits[j]);
                }
            }
        }
        if acc > 0x8000_0000_0000_0000 {
            proof {
                if all_digits(digits) {
                    lemma_digits_grow(digits, i - start + 1);
                }
            }
            return None;
        }
        i += 1;
    }
    assert(digits.take(i - start) =~= digits);
    if first == '-' {
        Some((-acc) as i64)
    } else if acc > 0x7fff_ffff_ffff_ffff {
        None
    } else {
        Some(acc as i64)
    }
}

/// The numbers among the pieces, those that fit in 32 bits, in order; what
/// spells no such number is passed over.
pub open spec fn numbers_among(pieces: Seq<Seq<char>>) -> Seq<i64>
    decreases pieces.len(),
{
    if pieces.len() == 0 {
        Seq::empty()
    } else {
        let before = numbers_among(pieces.drop_last());
        match number_i64(pieces.last()) {
            Some(v) => if i32::MIN <= v <= i32::MAX {
                before.push(v)
            } else {
                before
            },
            None => before,
        }
    }
}

/// The numbers among the words of `s` that fit in 32 bits.
pub fn word_numbers(s: &Vec<char>) -> (numbers: Vec<i64>)
    ensures
        numbers@ == numbers_among(words(s@)),
        forall|i: int|
            0 <= i < numbers@.len() ==> i32::MIN <= (#[trigger] numbers@[i]) <= i32::MAX,
{
    let bounds = word_bounds(s);
    let ghost pieces = words(s@);
    let mut numbers: Vec<i64> = Vec::new();
    let mut k: usize = 0;
    assert(pieces.take(0) =~= Seq::empty());
    while k < bounds.len()
        invariant
            k <= bounds@.len(),
            pieces == words(s@),
            bounds@.len() == pieces.len(),
            forall|i: int|
                0 <= i < bounds@.len() ==> {
                    &&& (#[trigger] bounds@[i]).0 < bounds@[i].1 <= s@.len()
                    &&& s@.subrange(bounds@[i].0 as int, bounds@[i].1 as int) == pieces[i]
                },
            numbers@ == numbers_among(pieces.take(k as int)),
            forall|i: int|
                0 <= i < numbers@.len() ==> i32::MIN <= (#[trigger] numbers@[i]) <= i32::MAX,
        decreases bounds@.len() - k,
    {
        let (a, b) = bounds[k];
        proof {
            assert(pieces.take(k + 1).drop_last() =~= pieces.take(k as int));
            assert(pieces.take(k + 1).last() == pieces[k as int]);
        }
        match parse_i64(s, a, b) {
            Some(v) => {
                if -0x8000_0000 <= v && v <= 0x7fff_ffff {
                    numbers.push(v);
                }
            },
            None => {},
        }
        k += 1;
    }
    assert(pieces.take(k as int) =~= pieces);
    numbers
}

/// The numbers among the pieces, those that fit in 64 bits, in order; what
/// spells no such number is passed over.
pub open spec fn wide_numbers_among(pieces: Seq<Seq<char>>) -> Seq<i64>
    decreases pieces.len(),
{
    if pieces.len() == 0 {
        Seq::empty()
    } else {
        let before = wide_numbers_among(pieces.drop_last());
        match number_i64(pieces.last()) {
            Some(v) => before.push(v),
            None => before,
        }
    }
}

/// The numbers among the words of `s` from `from` on that fit in 64 bits.
pub fn wide_word_numbers(s: &Vec<char>, from: usize) -> (numbers: Vec<i64>)
    requires
        from <= s@.len(),
    ensures
        numbers@ == wide_numbers_among(words(s@.skip(from as int))),
{
    let rest = slice(s, from, s.len());
    assert(rest@ =~= s@.skip(from as int));
    let bounds = word_bounds(&rest);
    let ghost pieces = words(rest@);
    let mut numbers: Vec<i64> = Vec::new();
    let mut k: usize = 0;
    assert(pieces.take(0) =~= Seq::empty());
    while k < bounds.len()
        invariant
            k <= bounds@.len(),
            pieces == words(rest@),
            bounds@.len() == pieces.len(),
            forall|i: int|
                0 <= i < bounds@.len() ==> {
                    &&& (#[trigger] bounds@[i]).0 < bounds@[i].1 <= rest@.len()
                    &&& rest@.subrange(bounds@[i].0 as int, bounds@[i].1 as int) == pieces[i]
                },
            numbers@ == wide_numbers_among(pieces.take(k as int)),
        decreases bounds@.len() - k,
    {
        let (a, b) = bounds[k];
        proof {
            assert(pieces.take(k + 1).drop_last() =~= pieces.take(k as int));
            assert(pieces.take(k + 1).last() == pieces[k as int]);
        }
        match parse_i64(&rest, a, b) {
            Some(v) => {
                numbers.push(v);
            },
            None => {},
        }
        k += 1;
    }
    assert(pieces.take(k as int) =~= pieces);
    numbers
}

/// The place behind the last `c` among the first `upto` characters of `s`,
/// and 0 where there is none.
pub open spec fn after_last(s: Seq<char>, c: char, upto: int) -> int
    decreases upto,
{
    if upto <= 0 || upto > s.len() {
        0
    } else if s[upto - 1] == c {
        upto
    } else {
        after_last(s, c, upto - 1)
    }
}

/// The place behind the last `c` of `s`, and 0 where `s` has none.
pub fn find_after_last(s: &Vec<char>, c: char) -> (at: usize)
    ensures
        at == after_last(s@, c, s@.len() as int),
        at <= s@.len(),
{
    let mut from = s.len();
    while from > 0 && s[from - 1] != c
        invariant
            from <= s@.len(),
            after_last(s@, c, s@.len() as int) == after_last(s@, c, from as int),
        decreases from,
    {
        from -= 1;
    }
    from
}

/// What each word of `s` spells: a number that fits in 64 bits, or nothing.
pub open spec fn word_slots(s: Seq<char>) -> Seq<Option<i64>> {
    words(s).map_values(|w: Seq<char>| number_i64(w))
}

/// Reads each word of `s` as a number.
pub fn numbers_at(s: &Vec<char>) -> (slots: Vec<Option<i64>>)
    ensures
        slots@ == word_slots(s@),
        slots@.len() == words(s@).len(),
{
    let bounds = word_bounds(s);
    let mut slots: Vec<Option<i64>> = Vec::new();
    let mut k: usize = 0;
    while k < bounds.len()
        invariant
            k <= bounds@.len(),
            bounds@.len() == words(s@).len(),
            forall|i: int|
                0 <= i < bounds@.len() ==> {
                    &&& (#[trigger] bounds@[i]).0 < bounds@[i].1 <= s@.len()
                    &&& s@.subrange(bounds@[i].0 as int, bounds@[i].1 as int) == words(s@)[i]
                },
            slots@.len() == k,
            forall|i: int| 0 <= i < k ==> slots@[i] == number_i64(words(s@)[i]),
        decreases bounds@.len() - k,
    {
        let (a, b) = bounds[k];
        slots.push(parse_i64(s, a, b));
        k += 1;
    }
    assert(slots@ =~= word_slots(s@));
    slots
}

} // verus!
