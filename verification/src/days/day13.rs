//! Patterns of ash and rocks, and the line across which a pattern would
//! mirror itself if one smudge were wiped away.

use std::collections::VecDeque;
use vstd::prelude::*;
use crate::days::day11::{grid, transpose, transposed, wide_enough};
use crate::text::texts;

verus! {

/// The row read as a number in base two, `#` for one and anything else for
/// zero, the first character highest; of a row of more than 64 characters the
/// last 64 count.
pub open spec fn row_bits(row: Seq<char>) -> u64
    decreases row.len(),
{
    if row.len() == 0 {
        0
    } else {
        let bit: u64 = if row.last() == '#' {
            1
        } else {
            0
        };
        (row_bits(row.drop_last()) << 1) | bit
    }
}

/// The number of ones among the lowest `bits` binary digits of `x`.
pub open spec fn ones(x: u64, bits: nat) -> nat
    decreases bits,
{
    if bits == 0 {
        0
    } else {
        ones(x, (bits - 1) as nat) + if (x >> ((bits - 1) as u64)) & 1 == 1 {
            1nat
        } else {
            0nat
        }
    }
}

/// The number of places in which the rows on the two sides of the line
/// before row `at` differ when the grid is folded along that line: the sum,
/// over the first `pairs` pairs of rows that come to lie on each other, of the
/// number of binary digits in which the two rows of the pair differ.
pub open spec fn smudges(rows: Seq<u64>, at: int, pairs: int) -> nat
    decreases pairs,
{
    if pairs <= 0 || at - pairs < 0 || at + pairs - 1 >= rows.len() {
        0
    } else {
        smudges(rows, at, pairs - 1) + ones(rows[at - pairs] ^ rows[at + pairs - 1], 64)
    }
}

/// The number of pairs of rows that come to lie on each other when the grid
/// is folded before row `at`.
pub open spec fn reach(len: int, at: int) -> int {
    if at <= len - at {
        at
    } else {
        len - at
    }
}

/// The line before row `at` is a mirror but for one smudge.
pub open spec fn smudged_mirror(rows: Seq<u64>, at: int) -> bool {
    0 <= at < rows.len() && smudges(rows, at, reach(rows.len() as int, at)) == 1
}

/// More pairs differ in no fewer places.
pub proof fn lemma_smudges_grow(rows: Seq<u64>, at: int, k: int, n: int)
    requires
        0 <= k <= n <= reach(rows.len() as int, at),
        0 <= at <= rows.len(),
    ensures
        smudges(rows, at, k) <= smudges(rows, at, n),
    decreases n - k,
{
    if k < n {
        lemma_smudges_grow(rows, at, k, n - 1);
    }
}

/// The number of ones among the binary digits of `x`.
pub fn count_ones(x: u64) -> (n: u32)
    ensures
        n == ones(x, 64),
{
    let mut n: u32 = 0;
    let mut i: u32 = 0;
    while i < 64
        invariant
            i <= 64,
            n == ones(x, i as nat),
            n <= i,
        decreases 64 - i,
    {
        if (x >> (i as u64)) & 1 == 1 {
            n += 1;
        }
        i += 1;
    }
    n
}

/// The rows of the grid as numbers.
pub fn to_binary_grid(grid_rows: &Vec<Vec<char>>) -> (bits: Vec<u64>)
    ensures
        bits@.len() == grid_rows@.len(),
        forall|i: int| 0 <= i < bits@.len() ==> (#[trigger] bits@[i]) == row_bits(grid_rows@[i]@),
{
    let mut bits: Vec<u64> = Vec::new();
    let mut k: usize = 0;
    while k < grid_rows.len()
        invariant
            k <= grid_rows@.len(),
            bits@.len() == k,
            forall|i: int| 0 <= i < k ==> (#[trigger] bits@[i]) == row_bits(grid_rows@[i]@),
        decreases grid_rows@.len() - k,
    {
        let row = &grid_rows[k];
        let mut acc: u64 = 0;
        let mut i: usize = 0;
        assert(row@.take(0) =~= Seq::empty());
        while i < row.len()
            invariant
                i <= row@.len(),
                acc == row_bits(row@.take(i as int)),
            decreases row@.len() - i,
        {
            assert(row@.take(i + 1).drop_last() =~= row@.take(i as int));
            let bit: u64 = if row[i] == '#' {
                1
            } else {
                0
            };
            acc = (acc << 1) | bit;
            i += 1;
        }
        assert(row@.take(i as int) =~= row@);
        bits.push(acc);
        k += 1;
    }
    bits
}

/// The first row before which the grid, folded, differs from itself in
/// exactly one place.
pub fn mutation_index(slice: &[u64]) -> (at: Option<usize>)
    ensures
        match at {
            Some(i) => smudged_mirror(slice@, i as int) && forall|j: int|
                0 <= j < i ==> !smudged_mirror(slice@, j),
            None => forall|j: int| 0 <= j < slice@.len() ==> !smudged_mirror(slice@, j),
        },
{
    let n = slice.len();
    let mut idx: usize = 0;
    while idx < n
        invariant
            idx <= n,
            n == slice@.len(),
            forall|j: int| 0 <= j < idx ==> !smudged_mirror(slice@, j),
        decreases n - idx,
    {
        let pairs = if idx <= n - idx {
            idx
        } else {
            n - idx
        };
        let mut mutations_needed: u64 = 0;
        let mut k: usize = 0;
        while k < pairs && mutations_needed < 2
            invariant
                k <= pairs,
                idx < n,
                n == slice@.len(),
                pairs == reach(n as int, idx as int),
                mutations_needed == smudges(slice@, idx as int, k as int),
                mutations_needed <= 64 * k,
            decreases pairs - k,
        {
            let diff = slice[idx - 1 - k] ^ slice[idx + k];
            let more = count_ones(diff);
            proof {
                lemma_ones_bound(diff, 64);
            }
            mutations_needed = mutations_needed + more as u64;
            k += 1;
        }
        proof {
            lemma_smudges_grow(slice@, idx as int, k as int, pairs as int);
        }
        if mutations_needed == 1 {
            return Some(idx);
        }
        idx += 1;
    }
    None
}

/// No more digits are ones than there are digits.
pub proof fn lemma_ones_bound(x: u64, bits: nat)
    ensures
        ones(x, bits) <= bits,
    decreases bits,
{
    if bits > 0 {
        lemma_ones_bound(x, (bits - 1) as nat);
    }
}

/// The summary of a pattern whose mirror has one smudge: a hundred times the
/// number of rows above the mirror, if it lies between rows, else the number
/// of columns to the left of it, and 0 where there is neither.
pub open spec fn smudge_summary(rows: Seq<Seq<char>>, cols: Seq<Seq<char>>, value: int) -> bool {
    let r = rows.map_values(|row: Seq<char>| row_bits(row));
    let c = cols.map_values(|row: Seq<char>| row_bits(row));
    if exists|i: int| smudged_mirror(r, i) {
        exists|i: int|
            smudged_mirror(r, i) && value == 100 * i && forall|j: int|
                0 <= j < i ==> !smudged_mirror(r, j)
    } else if exists|i: int| smudged_mirror(c, i) {
        exists|i: int|
            smudged_mirror(c, i) && value == i && forall|j: int|
                0 <= j < i ==> !smudged_mirror(c, j)
    } else {
        value == 0
    }
}

/// The first row at or after `from` before which the grid mirrors itself
/// but for one smudge.
pub open spec fn first_smudged(rows: Seq<u64>, from: int) -> Option<int>
    decreases rows.len() - from,
{
    if from < 0 || from >= rows.len() {
        None
    } else if smudged_mirror(rows, from) {
        Some(from)
    } else {
        first_smudged(rows, from + 1)
    }
}

/// `first_smudged` gives the first such row, and nothing only where there is
/// none.
pub proof fn lemma_first_smudged(rows: Seq<u64>, from: int)
    requires
        0 <= from,
    ensures
        match first_smudged(rows, from) {
            Some(i) => from <= i && smudged_mirror(rows, i) && forall|j: int|
                from <= j < i ==> !smudged_mirror(rows, j),
            None => forall|j: int| from <= j ==> !smudged_mirror(rows, j),
        },
    decreases rows.len() - from,
{
    if from < rows.len() && !smudged_mirror(rows, from) {
        lemma_first_smudged(rows, from + 1);
    }
}

/// The rows of a grid as numbers.
pub open spec fn bits_of(rows: Seq<Seq<char>>) -> Seq<u64> {
    rows.map_values(|row: Seq<char>| row_bits(row))
}

/// The summary of a pattern whose mirror has one smudge: a hundred times the
/// number of rows above the mirror, if it lies between rows, else the number
/// of columns to the left of it, and 0 where there is neither.
pub open spec fn smudge_value(rows: Seq<Seq<char>>, cols: Seq<Seq<char>>) -> int {
    match first_smudged(bits_of(rows), 0) {
        Some(i) => 100 * i,
        None => match first_smudged(bits_of(cols), 0) {
            Some(i) => i,
            None => 0,
        },
    }
}

/// The summary of a pattern whose mirror has one smudge, from its rows and
/// its columns.
pub fn solve_pt2(rows: &Vec<Vec<char>>, cols: &Vec<Vec<char>>) -> (value: u128)
    ensures
        smudge_summary(grid(rows@), grid(cols@), value as int),
        value == smudge_value(grid(rows@), grid(cols@)),
        value <= 100 * 0xffff_ffff_ffff_ffff,
{
    proof {
        lemma_first_smudged(bits_of(grid(rows@)), 0);
        lemma_first_smudged(bits_of(grid(cols@)), 0);
        assert(rows@.len() == rows.len() && cols@.len() == cols.len());
    }
    let binary_grid = to_binary_grid(rows);
    let ghost r = grid(rows@).map_values(|row: Seq<char>| row_bits(row));
    assert(binary_grid@ =~= r);
    match mutation_index(binary_grid.as_slice()) {
        Some(i) => {
            assert(smudged_mirror(r, i as int));
            i as u128 * 100
        },
        None => {
            let transposed_binary_grid = to_binary_grid(cols);
            let ghost c = grid(cols@).map_values(|row: Seq<char>| row_bits(row));
            assert(transposed_binary_grid@ =~= c);
            assert(!exists|i: int| smudged_mirror(r, i));
            match mutation_index(transposed_binary_grid.as_slice()) {
                Some(i) => {
                    assert(smudged_mirror(c, i as int));
                    i as u128
                },
                None => {
                    assert(!exists|i: int| smudged_mirror(c, i));
                    0
                },
            }
        },
    }
}

/// A search for the mirror of a pattern: the row that is looked at, the rows
/// before which a mirror may lie, oldest first, and the answer once it is
/// found.
pub struct MirrorSearch {
    pub el: int,
    pub options: Seq<int>,
    pub found: Option<int>,
}

/// The row of the grid, and the empty row where the grid has no such row.
pub open spec fn row_or_empty(rows: Seq<Seq<char>>, at: int) -> Seq<char> {
    if 0 <= at < rows.len() {
        rows[at]
    } else {
        Seq::empty()
    }
}

/// One step of the search. The row looked at is held against its image in
/// the oldest mirror: if the image lies above the grid the mirror is the
/// answer; if the two rows differ the mirror is dropped, and the search goes
/// back to the row behind the mirror that is now the oldest. Then, if the row
/// before the one the search has come to equals the row that was looked at,
/// the line between them joins the mirrors. The search moves on by one row.
pub open spec fn mirror_step(rows: Seq<Seq<char>>, s: MirrorSearch) -> MirrorSearch {
    if s.found is Some || s.el < 0 || s.el >= rows.len() {
        s
    } else {
        let line = rows[s.el];
        let image = if s.options.len() > 0 {
            2 * s.options[0] - 1 - s.el
        } else {
            0
        };
        if s.options.len() > 0 && image < 0 {
            MirrorSearch { found: Some(s.options[0]), ..s }
        } else {
            let dropped = s.options.len() > 0 && row_or_empty(rows, image) != line;
            let options = if dropped {
                s.options.skip(1)
            } else {
                s.options
            };
            let el = if dropped && options.len() > 0 {
                options[0] + 1
            } else {
                s.el
            };
            let options = if el > 0 && row_or_empty(rows, el - 1) == line {
                options.push(el)
            } else {
                options
            };
            MirrorSearch { el: el + 1, options, found: None }
        }
    }
}

/// The search after `n` steps.
pub open spec fn mirror_steps(rows: Seq<Seq<char>>, n: nat) -> MirrorSearch
    decreases n,
{
    if n == 0 {
        MirrorSearch { el: 0, options: Seq::empty(), found: None }
    } else {
        mirror_step(rows, mirror_steps(rows, (n - 1) as nat))
    }
}

/// The search is over: the answer is found or the last row has been looked
/// at.
pub open spec fn mirror_done(rows: Seq<Seq<char>>, s: MirrorSearch) -> bool {
    s.found is Some || s.el < 0 || s.el >= rows.len()
}

/// The answer of a search that is over: the mirror that was confirmed, else
/// the youngest of the mirrors that are left, else 0.
pub open spec fn mirror_answer(s: MirrorSearch) -> int {
    match s.found {
        Some(m) => m,
        None => if s.options.len() > 0 {
            s.options.last()
        } else {
            0
        },
    }
}

/// A search that is over stays as it is.
pub proof fn lemma_mirror_done_stays(rows: Seq<Seq<char>>, k: nat, n: nat)
    requires
        mirror_done(rows, mirror_steps(rows, k)),
        k <= n,
    ensures
        mirror_steps(rows, n) == mirror_steps(rows, k),
    decreases n,
{
    if n > k {
        lemma_mirror_done_stays(rows, k, (n - 1) as nat);
    }
}

/// Whether two rows are the same.
pub fn same_row(a: &Vec<char>, b: &Vec<char>) -> (same: bool)
    ensures
        same == (a@ == b@),
{
    if a.len() != b.len() {
        return false;
    }
    let mut i: usize = 0;
    while i < a.len()
        invariant
            i <= a@.len(),
            a@.len() == b@.len(),
            forall|j: int| 0 <= j < i ==> a@[j] == b@[j],
        decreases a@.len() - i,
    {
        if a[i] != b[i] {
            return false;
        }
        i += 1;
    }
    assert(a@ =~= b@);
    true
}

/// Searches the pattern for the line across which its rows mirror each
/// other, and returns the number of rows before it, or 0 where it finds
/// none. `None` where the search is not over after `limit` steps.
pub fn find_mirror_location(lines: &Vec<Vec<char>>, limit: usize) -> (at: Option<i128>)
    ensures
        match at {
            Some(m) => mirror_done(grid(lines@), mirror_steps(grid(lines@), limit as nat)) && m
                == mirror_answer(mirror_steps(grid(lines@), limit as nat)),
            None => !mirror_done(grid(lines@), mirror_steps(grid(lines@), limit as nat)),
        },
        at matches Some(m) ==> 0 <= m <= lines@.len(),
{
    let ghost rows = grid(lines@);
    let empty: Vec<char> = Vec::new();
    let n = lines.len();
    let mut mirror_options: VecDeque<usize> = VecDeque::new();
    let mut el: u128 = 0;
    let mut steps: usize = 0;
    assert(mirror_options@.map_values(|m: usize| m as int) =~= Seq::empty());
    while el < n as u128
        invariant
            steps <= limit,
            n == lines@.len(),
            el <= n + 1,
            rows == grid(lines@),
            empty@ == Seq::<char>::empty(),
            forall|i: int|
                0 <= i < mirror_options@.len() ==> (#[trigger] mirror_options@[i]) <= n && (
                mirror_options@[i] == n ==> el > n),
            mirror_steps(rows, steps as nat) == (MirrorSearch {
                el: el as int,
                options: mirror_options@.map_values(|m: usize| m as int),
                found: None,
            }),
        decreases limit - steps,
    {
        if steps >= limit {
            return None;
        }
        let ghost before = mirror_steps(rows, steps as nat);
        let ghost waiting = mirror_options@;
        let ghost options = waiting.map_values(|m: usize| m as int);
        let at = el as usize;
        assert(rows[at as int] == lines@[at as int]@);
        let mut next = at;
        if mirror_options.len() > 0 {
            let mirror_location = mirror_options[0];
            assert(options[0] == mirror_location);
            let mirror_check = 2 * mirror_location as i128 - 1 - at as i128;
            if mirror_check < 0 {
                proof {
                    lemma_mirror_done_stays(rows, (steps + 1) as nat, limit as nat);
                }
                return Some(mirror_location as i128);
            }
            let differ = if mirror_check < n as i128 {
                assert(rows[mirror_check as int] == lines@[mirror_check as int]@);
                !same_row(&lines[mirror_check as usize], &lines[at])
            } else {
                !same_row(&empty, &lines[at])
            };
            if differ {
                mirror_options.pop_front();
                assert(mirror_options@ =~= waiting.skip(1));
                assert(mirror_options@.map_values(|m: usize| m as int) =~= options.skip(1));
                assert forall|i: int| 0 <= i < mirror_options@.len() implies (
                #[trigger] mirror_options@[i]) <= n && (mirror_options@[i] == n ==> el > n) by {
                    assert(mirror_options@[i] == waiting[i + 1]);
                }
                if mirror_options.len() > 0 {
                    next = mirror_options[0] + 1;
                }
            }
        }
        let ghost mid = mirror_options@.map_values(|m: usize| m as int);
        let ghost kept = mirror_options@;
        if next > 0 {
            let joins = if next - 1 < n {
                assert(rows[next - 1] == lines@[next - 1]@);
                same_row(&lines[next - 1], &lines[at])
            } else {
                same_row(&empty, &lines[at])
            };
            if joins {
                mirror_options.push_back(next);
                assert(mirror_options@.map_values(|m: usize| m as int) =~= mid.push(next as int));
                assert forall|i: int| 0 <= i < mirror_options@.len() implies (
                #[trigger] mirror_options@[i]) <= n && (mirror_options@[i] == n ==> next + 1
                    > n) by {
                    if i < kept.len() {
                        assert(mirror_options@[i] == kept[i]);
                    }
                }
            }
        }
        el = next as u128 + 1;
        steps += 1;
        assert(mirror_steps(rows, steps as nat) == mirror_step(rows, before));
    }
    proof {
        lemma_mirror_done_stays(rows, steps as nat, limit as nat);
        let options = mirror_options@.map_values(|m: usize| m as int);
        if mirror_options@.len() > 0 {
            assert(options.last() == mirror_options@[mirror_options@.len() - 1]);
        }
    }
    if mirror_options.len() > 0 {
        Some(mirror_options[mirror_options.len() - 1] as i128)
    } else {
        Some(0)
    }
}

/// What the search for the mirror of a pattern answers, where it is over
/// after `limit` steps.
pub open spec fn mirror_of(rows: Seq<Seq<char>>, limit: nat) -> Option<int> {
    let s = mirror_steps(rows, limit);
    if mirror_done(rows, s) {
        Some(mirror_answer(s))
    } else {
        None
    }
}

/// The summary of a pattern: a hundred times the number of rows above its
/// mirror, or, where the search among the rows answers 0, the number of
/// columns to the left of its mirror.
pub open spec fn summary(rows: Seq<Seq<char>>, cols: Seq<Seq<char>>, limit: nat) -> Option<int> {
    match mirror_of(rows, limit) {
        None => None,
        Some(r) => if r == 0 {
            match mirror_of(cols, limit) {
                None => None,
                Some(c) => Some(c),
            }
        } else {
            Some(r * 100)
        },
    }
}

/// The summary of a pattern, from its rows and its columns.
pub fn solve_pt1(rows: &Vec<Vec<char>>, cols: &Vec<Vec<char>>, limit: usize) -> (value: Option<i128>)
    ensures
        match value {
            Some(v) => summary(grid(rows@), grid(cols@), limit as nat) == Some(v as int),
            None => summary(grid(rows@), grid(cols@), limit as nat) is None,
        },
        value matches Some(v) ==> 0 <= v <= 100 * 0xffff_ffff_ffff_ffff,
{
    assert(rows@.len() == rows.len() && cols@.len() == cols.len());
    let row_mirror = match find_mirror_location(rows, limit) {
        Some(m) => m,
        None => {
            return None;
        },
    };
    if row_mirror == 0 {
        return find_mirror_location(cols, limit);
    }
    Some(row_mirror * 100)
}

/// The patterns of the first `upto` lines: the lines between the empty
/// lines. There is one pattern more than there are empty lines.
pub open spec fn patterns(lines: Seq<Seq<char>>, upto: int) -> Seq<Seq<Seq<char>>>
    decreases upto,
{
    if upto <= 0 || upto > lines.len() {
        seq![Seq::empty()]
    } else {
        let before = patterns(lines, upto - 1);
        if lines[upto - 1].len() == 0 {
            before.push(Seq::empty())
        } else {
            before.drop_last().push(before.last().push(lines[upto - 1]))
        }
    }
}

/// The contents of a list of patterns.
pub open spec fn grids(list: Seq<Vec<Vec<char>>>) -> Seq<Seq<Seq<char>>> {
    list.map_values(|g: Vec<Vec<char>>| grid(g@))
}

/// Cuts the lines into patterns at the empty lines.
pub fn read_patterns(lines: &Vec<String>) -> (list: Vec<Vec<Vec<char>>>)
    ensures
        grids(list@) == patterns(texts(lines@), lines@.len() as int),
        list@.len() >= 1,
{
    let ghost text = texts(lines@);
    let mut list: Vec<Vec<Vec<char>>> = Vec::new();
    list.push(Vec::new());
    let mut k: usize = 0;
    assert(grids(list@) =~= seq![Seq::empty()]) by {
        assert(grid(list@[0]@) =~= Seq::empty());
    }
    while k < lines.len()
        invariant
            k <= lines@.len(),
            text == texts(lines@),
            list@.len() >= 1,
            grids(list@) == patterns(text, k as int),
        decreases lines@.len() - k,
    {
        let line = crate::text::to_chars(lines[k].as_str());
        assert(text[k as int] == line@);
        let ghost before = grids(list@);
        if line.len() == 0 {
            list.push(Vec::new());
            assert(grids(list@) =~= before.push(Seq::empty())) by {
                assert(grid(list@[list@.len() - 1]@) =~= Seq::empty());
            }
        } else {
            let last = list.len() - 1;
            let ghost rows = grid(list@[last as int]@);
            list[last].push(line);
            assert(grids(list@) =~= before.drop_last().push(before.last().push(line@))) by {
                assert(grid(list@[last as int]@) =~= rows.push(line@));
            }
        }
        k += 1;
    }
    list
}

/// The sums of the two summaries of the first `upto` patterns, where every
/// pattern has rows no shorter than its first and every search is over after
/// `limit` steps.
pub open spec fn summaries(list: Seq<Seq<Seq<char>>>, limit: nat, upto: int) -> Option<(int, int)>
    decreases upto,
{
    if upto <= 0 || upto > list.len() {
        Some((0, 0))
    } else {
        let rows = list[upto - 1];
        match summaries(list, limit, upto - 1) {
            None => None,
            Some((one, two)) => if !wide_enough(rows) {
                None
            } else {
                match summary(rows, transposed(rows), limit) {
                    None => None,
                    Some(v) => Some((one + v, two + smudge_value(rows, transposed(rows)))),
                }
            },
        }
    }
}

/// Patterns of which a part has no sums have none.
pub proof fn lemma_no_summaries(list: Seq<Seq<Seq<char>>>, limit: nat, k: int, n: int)
    requires
        0 <= k <= n <= list.len(),
        summaries(list, limit, k) is None,
    ensures
        summaries(list, limit, n) is None,
    decreases n - k,
{
    if k < n {
        lemma_no_summaries(list, limit, k, n - 1);
    }
}

/// The sum of the summaries of the patterns, and the sum of their summaries
/// when each mirror has one smudge. There is no answer where a pattern has a
/// row shorter than its first, or a search is not over after `limit` steps.
pub fn solve(lines: &Vec<String>, limit: usize) -> (sums: Option<(i128, u128)>)
    requires
        lines@.len() <= 0xffff_ffff,
    ensures
        match sums {
            Some((one, two)) => summaries(
                patterns(texts(lines@), lines@.len() as int),
                limit as nat,
                patterns(texts(lines@), lines@.len() as int).len() as int,
            ) matches Some(s) && s.0 == one && s.1 == two,
            None => summaries(
                patterns(texts(lines@), lines@.len() as int),
                limit as nat,
                patterns(texts(lines@), lines@.len() as int).len() as int,
            ) is None,
        },
{
    let list = read_patterns(lines);
    let ghost all = grids(list@);
    let mut sum_pt1: i128 = 0;
    let mut sum_pt2: u128 = 0;
    let mut k: usize = 0;
    proof {
        lemma_patterns_len(texts(lines@), lines@.len() as int);
    }
    while k < list.len()
        invariant
            k <= list@.len() <= 0x1_0000_0000,
            all == grids(list@),
            all == patterns(texts(lines@), lines@.len() as int),
            summaries(all, limit as nat, k as int) matches Some(s) && s.0 == sum_pt1 && s.1
                == sum_pt2,
            0 <= sum_pt1 <= k * 0x1_0000_0000_0000_0000_0000,
            sum_pt2 <= k * 0x1_0000_0000_0000_0000_0000,
        decreases list@.len() - k,
    {
        let rows = &list[k];
        assert(all[k as int] == grid(rows@));
        let mut j: usize = 0;
        let mut wide = true;
        while j < rows.len()
            invariant
                j <= rows@.len(),
                wide <==> forall|i: int| 0 <= i < j ==> (#[trigger] rows@[i])@.len() >= rows@[0]@.len(),
            decreases rows@.len() - j,
        {
            if rows[j].len() < rows[0].len() {
                wide = false;
            }
            j += 1;
        }
        if !wide {
            proof {
                let i = choose|i: int| 0 <= i < rows@.len() && (#[trigger] rows@[i])@.len() < rows@[0]@.len();
                assert(grid(rows@)[i].len() < grid(rows@)[0].len());
                lemma_no_summaries(all, limit as nat, k + 1, all.len() as int);
            }
            return None;
        }
        assert(wide_enough(grid(rows@))) by {
            assert forall|i: int| 0 <= i < grid(rows@).len() implies (#[trigger] grid(rows@)[i]).len()
                >= grid(rows@)[0].len() by {
                assert(rows@[i]@.len() >= rows@[0]@.len());
            }
        }
        let cols = transpose(rows);
        let one = match solve_pt1(rows, &cols, limit) {
            Some(v) => v,
            None => {
                proof {
                    lemma_no_summaries(all, limit as nat, k + 1, all.len() as int);
                }
                return None;
            },
        };
        let two = solve_pt2(rows, &cols);
        proof {
            assert(rows@.len() <= 0xffff_ffff_ffff_ffff && cols@.len() <= 0xffff_ffff_ffff_ffff) by {
                assert(rows.len() == rows@.len() && cols.len() == cols@.len());
            }
            assert(0 <= one <= 100 * 0xffff_ffff_ffff_ffff);
            assert((k + 1) * 0x1_0000_0000_0000_0000_0000 == k * 0x1_0000_0000_0000_0000_0000
                + 0x1_0000_0000_0000_0000_0000) by (nonlinear_arith);
            assert(k * 0x1_0000_0000_0000_0000_0000 + 0x1_0000_0000_0000_0000_0000
                <= 0x1_0000_0000 * 0x1_0000_0000_0000_0000_0000) by (nonlinear_arith)
                requires
                    k < 0x1_0000_0000,
            ;
        }
        sum_pt1 = sum_pt1 + one;
        sum_pt2 = sum_pt2 + two;
        k += 1;
    }
    Some((sum_pt1, sum_pt2))
}

/// There is one pattern more than there are empty lines.
pub proof fn lemma_patterns_len(lines: Seq<Seq<char>>, upto: int)
    requires
        0 <= upto <= lines.len(),
    ensures
        1 <= patterns(lines, upto).len() <= upto + 1,
    decreases upto,
{
    if upto > 0 {
        lemma_patterns_len(lines, upto - 1);
    }
}

} // verus!
