//! Seeds and the chain of range maps that leads from a seed to its location.

use vstd::prelude::*;
use crate::text::{
    after_last,
    find_after_last,
    number_i64,
    parse_i64,
    split,
    split_bounds,
    texts,
    to_chars,
    wide_numbers_among,
    wide_word_numbers,
    words,
};

verus! {

/// One line of a map: the numbers from `source_start` on, `range_length` of
/// them, go to the numbers from `destination_start` on.
#[derive(Clone, Copy, Debug, PartialEq, Eq, Structural)]
pub struct Range {
    pub destination_start: i64,
    pub source_start: i64,
    pub range_length: i64,
}

impl Range {
    /// `id` lies in the source of this range.
    pub open spec fn covers(self, id: int) -> bool {
        self.source_start <= id < self.source_start + self.range_length
    }

    /// Where the range sends `id`.
    pub open spec fn image(self, id: int) -> int {
        id - self.source_start + self.destination_start
    }

    /// The destination of the range lies within 64 bits.
    pub open spec fn wf(self) -> bool {
        self.range_length > 0 ==> self.destination_start + self.range_length - 1 <= i64::MAX
    }
}

/// One map: its ranges in the order in which they are tried.
#[derive(Debug)]
pub struct Block {
    pub ranges: Vec<Range>,
}

impl Block {
    pub open spec fn wf(&self) -> bool {
        forall|i: int| 0 <= i < self.ranges@.len() ==> (#[trigger] self.ranges@[i]).wf()
    }
}

/// Where a map sends `id`: by the first of its ranges that covers it, and to
/// itself where none does.
pub open spec fn mapped(ranges: Seq<Range>, id: int) -> int
    decreases ranges.len(),
{
    if ranges.len() == 0 {
        id
    } else if ranges[0].covers(id) {
        ranges[0].image(id)
    } else {
        mapped(ranges.skip(1), id)
    }
}

/// Where the chain of maps sends a seed.
pub open spec fn location(blocks: Seq<Block>, seed: int) -> int
    decreases blocks.len(),
{
    if blocks.len() == 0 {
        seed
    } else {
        mapped(blocks.last().ranges@, location(blocks.drop_last(), seed))
    }
}

/// The least location of the seeds, and `i64::MAX` where that is less or
/// there are no seeds.
pub open spec fn nearest(seeds: Seq<i64>, blocks: Seq<Block>) -> int
    decreases seeds.len(),
{
    if seeds.len() == 0 {
        i64::MAX as int
    } else {
        let before = nearest(seeds.drop_last(), blocks);
        let here = location(blocks, seeds.last() as int);
        if here < before {
            here
        } else {
            before
        }
    }
}

/// The seed ranges that a list of numbers spells: each pair `(a, b)` of the
/// list, taken two by two, stands for the seeds from `a` up to `a + b`. A
/// number left over at the end stands for nothing.
pub open spec fn seed_ranges(seeds: Seq<i64>) -> Seq<(int, int)>
    decreases seeds.len(),
{
    if seeds.len() < 2 {
        Seq::empty()
    } else {
        seq![(seeds[0] as int, seeds[0] + seeds[1])] + seed_ranges(seeds.skip(2))
    }
}

/// Where one map sends `id`.
pub fn map_id(ranges: &Vec<Range>, id: i64) -> (to: i64)
    requires
        forall|i: int| 0 <= i < ranges@.len() ==> (#[trigger] ranges@[i]).wf(),
    ensures
        to == mapped(ranges@, id as int),
{
    let mut k: usize = 0;
    assert(ranges@.skip(0) =~= ranges@);
    while k < ranges.len()
        invariant
            k <= ranges@.len(),
            forall|i: int| 0 <= i < ranges@.len() ==> (#[trigger] ranges@[i]).wf(),
            mapped(ranges@, id as int) == mapped(ranges@.skip(k as int), id as int),
        decreases ranges@.len() - k,
    {
        let r = ranges[k];
        assert(ranges@.skip(k as int)[0] == r);
        assert(ranges@.skip(k as int).skip(1) =~= ranges@.skip(k + 1));
        if id >= r.source_start && (id as i128) < r.source_start as i128 + r.range_length as i128 {
            return (id - r.source_start) + r.destination_start;
        }
        k += 1;
    }
    id
}

/// Where the chain of maps sends the seed.
pub fn distance_for_seed(blocks: &Vec<Block>, seed: i64) -> (id: i64)
    requires
        forall|i: int| 0 <= i < blocks@.len() ==> (#[trigger] blocks@[i]).wf(),
    ensures
        id == location(blocks@, seed as int),
{
    let mut id = seed;
    let mut k: usize = 0;
    while k < blocks.len()
        invariant
            k <= blocks@.len(),
            forall|i: int| 0 <= i < blocks@.len() ==> (#[trigger] blocks@[i]).wf(),
            id == location(blocks@.take(k as int), seed as int),
        decreases blocks@.len() - k,
    {
        assert(blocks@.take(k + 1).drop_last() =~= blocks@.take(k as int));
        assert(blocks@[k as int].wf());
        id = map_id(&blocks[k].ranges, id);
        k += 1;
    }
    assert(blocks@.take(k as int) =~= blocks@);
    id
}

/// The least location that the chain of maps gives to one of the seeds.
pub fn shortest_distance(seeds: &Vec<i64>, blocks: &Vec<Block>) -> (least: i64)
    requires
        forall|i: int| 0 <= i < blocks@.len() ==> (#[trigger] blocks@[i]).wf(),
    ensures
        least == nearest(seeds@, blocks@),
{
    let mut least: i64 = i64::MAX;
    let mut k: usize = 0;
    while k < seeds.len()
        invariant
            k <= seeds@.len(),
            forall|i: int| 0 <= i < blocks@.len() ==> (#[trigger] blocks@[i]).wf(),
            least == nearest(seeds@.take(k as int), blocks@),
        decreases seeds@.len() - k,
    {
        assert(seeds@.take(k + 1).drop_last() =~= seeds@.take(k as int));
        let here = distance_for_seed(blocks, seeds[k]);
        if here < least {
            least = here;
        }
        k += 1;
    }
    assert(seeds@.take(k as int) =~= seeds@);
    least
}

/// Reads the list of seeds as ranges, two numbers to a range: a start and a
/// length. Returns `None` where the end of a range does not fit in 64 bits.
pub fn get_seed_ranges(seeds: &Vec<i64>) -> (ranges: Option<Vec<(i64, i64)>>)
    ensures
        match ranges {
            Some(r) => {
                &&& r@.len() == seed_ranges(seeds@).len()
                &&& forall|i: int|
                    0 <= i < r@.len() ==> (#[trigger] r@[i]).0 == seed_ranges(seeds@)[i].0
                        && r@[i].1 == seed_ranges(seeds@)[i].1
            },
            None => exists|i: int|
                0 <= i < seed_ranges(seeds@).len() && !(i64::MIN <= (#[trigger] seed_ranges(
                    seeds@,
                )[i]).1 <= i64::MAX),
        },
{
    let mut ranges: Vec<(i64, i64)> = Vec::new();
    let mut k: usize = 0;
    let ghost all = seed_ranges(seeds@);
    assert(seeds@.skip(0) =~= seeds@);
    while seeds.len() - k >= 2
        invariant
            k <= seeds@.len(),
            all == seed_ranges(seeds@),
            all =~= Seq::new(ranges@.len(), |i: int| (ranges@[i].0 as int, ranges@[i].1 as int))
                + seed_ranges(seeds@.skip(k as int)),
        decreases seeds@.len() - k,
    {
        let a = seeds[k];
        let b = seeds[k + 1];
        let ghost done = Seq::new(ranges@.len(), |i: int| (ranges@[i].0 as int, ranges@[i].1 as int));
        let ghost rest = seeds@.skip(k as int);
        assert(rest[0] == a && rest[1] == b);
        assert(rest.skip(2) =~= seeds@.skip(k + 2));
        assert(all[done.len() as int] == (a as int, a + b));
        match a.checked_add(b) {
            Some(end) => {
                ranges.push((a, end));
            },
            None => {
                return None;
            },
        }
        k += 2;
    }
    assert(seed_ranges(seeds@.skip(k as int)) =~= Seq::empty());
    Some(ranges)
}

/// The seeds that a line lists: the numbers among the words behind its last
/// colon.
pub open spec fn seeds_of(line: Seq<char>) -> Seq<i64> {
    wide_numbers_among(words(line.skip(after_last(line, ':', line.len() as int))))
}

/// The seeds that the line lists.
pub fn get_seeds(line: &str) -> (seeds: Vec<i64>)
    ensures
        seeds@ == seeds_of(line@),
{
    let chars = to_chars(line);
    let from = find_after_last(&chars, ':');
    wide_word_numbers(&chars, from)
}

/// The range that a line spells: three numbers with single spaces between
/// them, the start of the destination, the start of the source and the
/// length. What follows a third space is passed over.
pub open spec fn range_of(line: Seq<char>) -> Option<Range> {
    let nums = split(line, seq![' ']);
    if nums.len() < 3 {
        None
    } else {
        match (number_i64(nums[0]), number_i64(nums[1]), number_i64(nums[2])) {
            (Some(d), Some(s), Some(l)) => Some(
                Range { destination_start: d, source_start: s, range_length: l },
            ),
            _ => None,
        }
    }
}

/// The values of a list of blocks.
pub open spec fn ranges_of(blocks: Seq<Block>) -> Seq<Seq<Range>> {
    blocks.map_values(|b: Block| b.ranges@)
}

/// The maps that the lines spell, the first line left out: a line with a
/// colon begins a map, and every line behind it that is not empty adds a
/// range to it. Lines before the first map are passed over. There are no
/// maps where a line that should spell a range spells none.
pub open spec fn blocks_of(lines: Seq<Seq<char>>, upto: int) -> Option<Seq<Seq<Range>>>
    decreases upto,
{
    if upto <= 1 || upto > lines.len() {
        Some(Seq::empty())
    } else {
        let line = lines[upto - 1];
        match blocks_of(lines, upto - 1) {
            None => None,
            Some(before) => if line.contains(':') {
                Some(before.push(Seq::empty()))
            } else if line.len() > 0 && before.len() > 0 {
                match range_of(line) {
                    Some(r) => Some(before.drop_last().push(before.last().push(r))),
                    None => None,
                }
            } else {
                Some(before)
            },
        }
    }
}

/// Lines of which a part spells no maps spell none.
pub proof fn lemma_no_blocks(lines: Seq<Seq<char>>, k: int, n: int)
    requires
        1 <= k <= n <= lines.len(),
        blocks_of(lines, k) is None,
    ensures
        blocks_of(lines, n) is None,
    decreases n - k,
{
    if k < n {
        lemma_no_blocks(lines, k, n - 1);
    }
}

/// Reads one range.
pub fn parse_range(line: &Vec<char>) -> (range: Option<Range>)
    ensures
        range == range_of(line@),
{
    let space: Vec<char> = vec![' '];
    assert(space@ =~= seq![' ']);
    let nums = split_bounds(line, &space);
    if nums.len() < 3 {
        return None;
    }
    match (
        parse_i64(line, nums[0].0, nums[0].1),
        parse_i64(line, nums[1].0, nums[1].1),
        parse_i64(line, nums[2].0, nums[2].1),
    ) {
        (Some(d), Some(s), Some(l)) => Some(
            Range { destination_start: d, source_start: s, range_length: l },
        ),
        _ => None,
    }
}

/// Whether the line holds `c`.
pub fn has_char(line: &Vec<char>, c: char) -> (b: bool)
    ensures
        b == line@.contains(c),
{
    let mut i: usize = 0;
    while i < line.len()
        invariant
            i <= line@.len(),
            forall|j: int| 0 <= j < i ==> line@[j] != c,
        decreases line@.len() - i,
    {
        if line[i] == c {
            return true;
        }
        i += 1;
    }
    false
}

/// Reads the maps.
pub fn generate_blocks(lines: &Vec<String>) -> (blocks: Option<Vec<Block>>)
    ensures
        match blocks {
            Some(b) => blocks_of(texts(lines@), lines@.len() as int) == Some(ranges_of(b@)),
            None => blocks_of(texts(lines@), lines@.len() as int) is None,
        },
{
    let ghost text = texts(lines@);
    let mut blocks: Vec<Block> = Vec::new();
    if lines.len() <= 1 {
        assert(ranges_of(blocks@) =~= Seq::empty());
        return Some(blocks);
    }
    let mut k: usize = 1;
    assert(ranges_of(blocks@) =~= Seq::empty());
    while k < lines.len()
        invariant
            1 <= k <= lines@.len(),
            text == texts(lines@),
            blocks_of(text, k as int) == Some(ranges_of(blocks@)),
        decreases lines@.len() - k,
    {
        let line = to_chars(lines[k].as_str());
        assert(text[k as int] == line@);
        let ghost before = ranges_of(blocks@);
        if has_char(&line, ':') {
            blocks.push(Block { ranges: Vec::new() });
            assert(ranges_of(blocks@) =~= before.push(Seq::empty()));
        } else if line.len() > 0 && blocks.len() > 0 {
            match parse_range(&line) {
                Some(r) => {
                    let last = blocks.len() - 1;
                    let ghost old_ranges = blocks@[last as int].ranges@;
                    blocks[last].ranges.push(r);
                    assert(ranges_of(blocks@) =~= before.drop_last().push(before.last().push(r)));
                },
                None => {
                    proof {
                        lemma_no_blocks(text, k + 1, lines@.len() as int);
                    }
                    return None;
                },
            }
        }
        k += 1;
    }
    Some(blocks)
}

/// The number `x` lies in one of the ranges of seeds, each from its first
/// number up to, but not including, its second.
pub open spec fn covered(pairs: Seq<(i64, i64)>, x: int) -> bool {
    exists|i: int| 0 <= i < pairs.len() && (#[trigger] pairs[i]).0 <= x < pairs[i].1
}

/// The range of seeds `(first, second)` holds no seed, and `first` is `s`.
pub open spec fn hollow(pairs: Seq<(i64, i64)>, s: int) -> bool {
    exists|i: int| 0 <= i < pairs.len() && (#[trigger] pairs[i]).0 >= pairs[i].1 && pairs[i].0 == s
}

/// The map sends one of the seeds of the ranges to `v`.
pub open spec fn sent(ranges: Seq<Range>, pairs: Seq<(i64, i64)>, v: int) -> bool {
    exists|x: int| covered(pairs, x) && #[trigger] mapped(ranges, x) == v
}

/// The chain of maps sends one of the seeds of the ranges to `v`.
pub open spec fn located(blocks: Seq<Block>, pairs: Seq<(i64, i64)>, v: int) -> bool {
    exists|x: int| covered(pairs, x) && #[trigger] location(blocks, x) == v
}

/// The source and the destination of the range lie within 64 bits.
pub open spec fn roomy(r: Range) -> bool {
    r.range_length > 0 ==> r.source_start + r.range_length <= i64::MAX && r.destination_start
        + r.range_length <= i64::MAX
}

/// Every range of every map is roomy.
pub open spec fn all_roomy(blocks: Seq<Block>) -> bool {
    forall|b: int, i: int|
        0 <= b < blocks.len() && 0 <= i < blocks[b].ranges@.len() ==> roomy(
            #[trigger] blocks[b].ranges@[i],
        )
}

/// The number of seeds in the first `upto` ranges of seeds.
pub open spec fn seeds_in(pairs: Seq<(i64, i64)>, upto: int) -> int
    decreases upto,
{
    if upto <= 0 || upto > pairs.len() {
        0
    } else {
        seeds_in(pairs, upto - 1) + if pairs[upto - 1].0 < pairs[upto - 1].1 {
            pairs[upto - 1].1 - pairs[upto - 1].0
        } else {
            0
        }
    }
}

proof fn lemma_seeds_in_nonnegative(pairs: Seq<(i64, i64)>, upto: int)
    ensures
        seeds_in(pairs, upto) >= 0,
    decreases upto,
{
    if 0 < upto <= pairs.len() {
        lemma_seeds_in_nonnegative(pairs, upto - 1);
    }
}

proof fn lemma_seeds_in_push(pairs: Seq<(i64, i64)>, p: (i64, i64))
    ensures
        seeds_in(pairs.push(p), (pairs.len() + 1) as int) == seeds_in(pairs, pairs.len() as int)
            + if p.0 < p.1 {
            p.1 - p.0
        } else {
            0
        },
{
    lemma_seeds_in_same(pairs.push(p), pairs, pairs.len() as int);
}

proof fn lemma_seeds_in_same(a: Seq<(i64, i64)>, b: Seq<(i64, i64)>, upto: int)
    requires
        0 <= upto <= a.len(),
        upto <= b.len(),
        forall|i: int| 0 <= i < upto ==> a[i] == b[i],
    ensures
        seeds_in(a, upto) == seeds_in(b, upto),
    decreases upto,
{
    if upto > 0 {
        lemma_seeds_in_same(a, b, upto - 1);
    }
}

/// A map sends a number that none of its first `k` ranges covers where the
/// ranges from the `k`th on send it.
proof fn lemma_mapped_skip(ranges: Seq<Range>, x: int, k: int)
    requires
        0 <= k <= ranges.len(),
        forall|j: int| 0 <= j < k ==> !(#[trigger] ranges[j]).covers(x),
    ensures
        mapped(ranges, x) == mapped(ranges.skip(k), x),
    decreases k,
{
    if k == 0 {
        assert(ranges.skip(0) =~= ranges);
    } else {
        lemma_mapped_skip(ranges, x, k - 1);
        assert(ranges.skip(k - 1)[0] == ranges[k - 1]);
        assert(ranges.skip(k - 1).skip(1) =~= ranges.skip(k));
    }
}

/// Sends the ranges of seeds through one map: each range is cut where the
/// ranges of the map begin and end, and each piece goes where the map sends
/// its seeds. A range that holds no seed stays as it is.
pub fn map_ranges(ranges: &Vec<Range>, seed_pairs: Vec<(i64, i64)>) -> (out: Vec<(i64, i64)>)
    requires
        forall|i: int| 0 <= i < ranges@.len() ==> roomy(#[trigger] ranges@[i]),
    ensures
        forall|v: int| covered(out@, v) <==> sent(ranges@, seed_pairs@, v),
        forall|s: int| hollow(out@, s) <==> hollow(seed_pairs@, s),
        seed_pairs@.len() > 0 ==> out@.len() > 0,
{
    let ghost given = seed_pairs@;
    let mut seeds = seed_pairs;
    let mut new_seeds: Vec<(i64, i64)> = Vec::new();
    proof {
        lemma_seeds_in_nonnegative(seeds@, seeds@.len() as int);
    }
    while seeds.len() > 0
        invariant
            forall|i: int| 0 <= i < ranges@.len() ==> roomy(#[trigger] ranges@[i]),
            forall|v: int|
                (covered(new_seeds@, v) || sent(ranges@, seeds@, v)) <==> sent(ranges@, given, v),
            forall|s: int| (hollow(new_seeds@, s) || hollow(seeds@, s)) <==> hollow(given, s),
            given.len() > 0 ==> new_seeds@.len() + seeds@.len() > 0,
            seeds_in(seeds@, seeds@.len() as int) >= 0,
        decreases 2 * seeds_in(seeds@, seeds@.len() as int) + seeds@.len(),
    {
        let ghost before = seeds@;
        let ghost done = new_seeds@;
        let (s, e) = seeds.pop().unwrap();
        let ghost rest = seeds@;
        proof {
            assert(before =~= rest.push((s, e)));
            lemma_seeds_in_push(rest, (s, e));
            lemma_seeds_in_nonnegative(rest, rest.len() as int);
        }
        let mut k: usize = 0;
        let mut cut: Option<(i64, i64, usize)> = None;
        while k < ranges.len() && cut.is_none()
            invariant
                k <= ranges@.len(),
                forall|i: int| 0 <= i < ranges@.len() ==> roomy(#[trigger] ranges@[i]),
                match cut {
                    None => forall|j: int, x: int|
                        0 <= j < k && s <= x < e ==> !#[trigger] ranges@[j].covers(x),
                    Some((os, oe, at)) => {
                        &&& at < ranges@.len()
                        &&& at == k
                        &&& s <= os < oe <= e
                        &&& ranges@[at as int].range_length > 0
                        &&& ranges@[at as int].source_start <= os
                        &&& oe <= ranges@[at as int].source_start + ranges@[at as int].range_length
                        &&& os == if s >= ranges@[at as int].source_start {
                            s
                        } else {
                            ranges@[at as int].source_start
                        }
                        &&& oe == if e <= ranges@[at as int].source_start
                            + ranges@[at as int].range_length {
                            e as int
                        } else {
                            ranges@[at as int].source_start + ranges@[at as int].range_length
                        }
                        &&& forall|j: int, x: int|
                            0 <= j < at && s <= x < e ==> !#[trigger] ranges@[j].covers(x)
                    },
                },
            decreases ranges@.len() - k + if cut is None {
                1int
            } else {
                0int
            },
        {
            let r = ranges[k];
            let os = if s >= r.source_start {
                s
            } else {
                r.source_start
            };
            let end = r.source_start as i128 + r.range_length as i128;
            let oe: i128 = if (e as i128) <= end {
                e as i128
            } else {
                end
            };
            if (os as i128) < oe {
                assert(r.range_length > 0);
                cut = Some((os, oe as i64, k));
            } else {
                assert forall|x: int| s <= x < e implies !r.covers(x) by {}
                k += 1;
            }
        }
        match cut {
            Some((os, oe, at)) => {
                let r = ranges[at];
                let lo = os - r.source_start + r.destination_start;
                let hi = oe - r.source_start + r.destination_start;
                new_seeds.push((lo, hi));
                let ghost mut left = rest;
                if os > s {
                    seeds.push((s, os));
                    proof {
                        lemma_seeds_in_push(left, (s, os));
                        left = left.push((s, os));
                    }
                }
                if e > oe {
                    seeds.push((oe, e));
                    proof {
                        lemma_seeds_in_push(left, (oe, e));
                        left = left.push((oe, e));
                    }
                }
                proof {
                    assert(seeds@ =~= left);
                    lemma_seeds_in_nonnegative(seeds@, seeds@.len() as int);
                    lemma_cut(ranges@, given, before, rest, done, s, e, os, oe, at as int, seeds@, new_seeds@);
                    assert(forall|v: int|
                        (covered(new_seeds@, v) || sent(ranges@, seeds@, v)) <==> sent(
                            ranges@,
                            given,
                            v,
                        ));
                }
            },
            None => {
                new_seeds.push((s, e));
                proof {
                    lemma_kept(ranges@, given, before, rest, done, s, e, new_seeds@);
                    assert(seeds@ == rest);
                    assert(forall|v: int|
                        (covered(new_seeds@, v) || sent(ranges@, seeds@, v)) <==> sent(
                            ranges@,
                            given,
                            v,
                        ));
                }
            },
        }
    }
    proof {
        assert forall|v: int| covered(new_seeds@, v) <==> sent(ranges@, given, v) by {
            if sent(ranges@, seeds@, v) {
                let x = choose|x: int| covered(seeds@, x) && #[trigger] mapped(ranges@, x) == v;
                assert(!covered(seeds@, x));
            }
        }
        assert forall|s: int| hollow(new_seeds@, s) <==> hollow(given, s) by {
            assert(!hollow(seeds@, s));
        }
    }
    new_seeds
}

/// A range of seeds that no range of the map overlaps goes on as it is.
proof fn lemma_kept(
    ranges: Seq<Range>,
    given: Seq<(i64, i64)>,
    before: Seq<(i64, i64)>,
    rest: Seq<(i64, i64)>,
    done: Seq<(i64, i64)>,
    s: i64,
    e: i64,
    after: Seq<(i64, i64)>,
)
    requires
        before == rest.push((s, e)),
        after == done.push((s, e)),
        forall|j: int, x: int| 0 <= j < ranges.len() && s <= x < e ==> !#[trigger] ranges[j].covers(x),
        forall|v: int| (covered(done, v) || sent(ranges, before, v)) <==> sent(ranges, given, v),
        forall|t: int| (hollow(done, t) || hollow(before, t)) <==> hollow(given, t),
    ensures
        forall|v: int| (covered(after, v) || sent(ranges, rest, v)) <==> sent(ranges, given, v),
        forall|t: int| (hollow(after, t) || hollow(rest, t)) <==> hollow(given, t),
{
    assert forall|v: int| (covered(after, v) || sent(ranges, rest, v)) <==> sent(
        ranges,
        before,
        v,
    ) || covered(done, v) by {
        if covered(after, v) {
            let i = choose|i: int| 0 <= i < after.len() && (#[trigger] after[i]).0 <= v < after[i].1;
            if i < done.len() {
                assert(done[i] == after[i]);
            } else {
                lemma_mapped_skip(ranges, v, ranges.len() as int);
                assert(ranges.skip(ranges.len() as int) =~= Seq::empty());
                assert(before[rest.len() as int] == (s, e));
                assert(covered(before, v));
                assert(mapped(ranges, v) == v);
            }
        }
        if sent(ranges, rest, v) {
            let x = choose|x: int| covered(rest, x) && #[trigger] mapped(ranges, x) == v;
            let i = choose|i: int| 0 <= i < rest.len() && (#[trigger] rest[i]).0 <= x < rest[i].1;
            assert(before[i] == rest[i]);
            assert(covered(before, x));
        }
        if covered(done, v) {
            let i = choose|i: int| 0 <= i < done.len() && (#[trigger] done[i]).0 <= v < done[i].1;
            assert(after[i] == done[i]);
        }
        if sent(ranges, before, v) {
            let x = choose|x: int| covered(before, x) && #[trigger] mapped(ranges, x) == v;
            let i = choose|i: int|
                0 <= i < before.len() && (#[trigger] before[i]).0 <= x < before[i].1;
            if i < rest.len() {
                assert(rest[i] == before[i]);
                assert(covered(rest, x));
            } else {
                lemma_mapped_skip(ranges, x, ranges.len() as int);
                assert(ranges.skip(ranges.len() as int) =~= Seq::empty());
                assert(after[done.len() as int] == (s, e));
                assert(covered(after, v));
            }
        }
    }
    assert forall|t: int| (hollow(after, t) || hollow(rest, t)) <==> (hollow(done, t) || hollow(
        before,
        t,
    )) by {
        if hollow(after, t) {
            let i = choose|i: int|
                0 <= i < after.len() && (#[trigger] after[i]).0 >= after[i].1 && after[i].0 == t;
            if i < done.len() {
                assert(done[i] == after[i]);
            } else {
                assert(before[rest.len() as int] == (s, e));
            }
        }
        if hollow(rest, t) {
            let i = choose|i: int|
                0 <= i < rest.len() && (#[trigger] rest[i]).0 >= rest[i].1 && rest[i].0 == t;
            assert(before[i] == rest[i]);
        }
        if hollow(done, t) {
            let i = choose|i: int|
                0 <= i < done.len() && (#[trigger] done[i]).0 >= done[i].1 && done[i].0 == t;
            assert(after[i] == done[i]);
        }
        if hollow(before, t) {
            let i = choose|i: int|
                0 <= i < before.len() && (#[trigger] before[i]).0 >= before[i].1 && before[i].0
                    == t;
            if i < rest.len() {
                assert(rest[i] == before[i]);
            } else {
                assert(after[done.len() as int] == (s, e));
            }
        }
    }
    assert forall|v: int| (covered(after, v) || sent(ranges, rest, v)) <==> sent(
        ranges,
        given,
        v,
    ) by {
        assert((covered(done, v) || sent(ranges, before, v)) <==> sent(ranges, given, v));
        assert((covered(after, v) || sent(ranges, rest, v)) <==> (sent(ranges, before, v)
            || covered(done, v)));
    }
}

/// A range of seeds that a range of the map overlaps is cut in three: the
/// part that overlaps goes where that range sends it, and what lies before
/// and behind it is looked at again.
proof fn lemma_cut(
    ranges: Seq<Range>,
    given: Seq<(i64, i64)>,
    before: Seq<(i64, i64)>,
    rest: Seq<(i64, i64)>,
    done: Seq<(i64, i64)>,
    s: i64,
    e: i64,
    os: i64,
    oe: i64,
    at: int,
    seeds: Seq<(i64, i64)>,
    after: Seq<(i64, i64)>,
)
    requires
        before == rest.push((s, e)),
        0 <= at < ranges.len(),
        roomy(ranges[at]),
        s <= os < oe <= e,
        ranges[at].source_start <= os,
        oe <= ranges[at].source_start + ranges[at].range_length,
        forall|j: int, x: int| 0 <= j < at && s <= x < e ==> !#[trigger] ranges[j].covers(x),
        after == done.push(
            (
                (os - ranges[at].source_start + ranges[at].destination_start) as i64,
                (oe - ranges[at].source_start + ranges[at].destination_start) as i64,
            ),
        ),
        seeds == pieces_left(rest, s, e, os, oe),
        forall|v: int| (covered(done, v) || sent(ranges, before, v)) <==> sent(ranges, given, v),
        forall|t: int| (hollow(done, t) || hollow(before, t)) <==> hollow(given, t),
    ensures
        forall|v: int| (covered(after, v) || sent(ranges, seeds, v)) <==> sent(ranges, given, v),
        forall|t: int| (hollow(after, t) || hollow(seeds, t)) <==> hollow(given, t),
{
    let r = ranges[at];
    let shift = r.destination_start - r.source_start;
    assert forall|x: int| os <= x < oe implies mapped(ranges, x) == x + shift by {
        lemma_mapped_skip(ranges, x, at);
        assert(ranges.skip(at)[0] == r);
        assert(r.covers(x));
    }
    assert forall|x: int| covered(before, x) <==> covered(seeds, x) || os <= x < oe by {
        if covered(before, x) {
            let i = choose|i: int|
                0 <= i < before.len() && (#[trigger] before[i]).0 <= x < before[i].1;
            if i < rest.len() {
                assert(seeds[i] == rest[i]);
            } else if x < os {
                assert(seeds[rest.len() as int] == (s, os));
            } else if x >= oe {
                assert(seeds[seeds.len() - 1] == (oe, e));
            }
        }
        if covered(seeds, x) {
            let i = choose|i: int| 0 <= i < seeds.len() && (#[trigger] seeds[i]).0 <= x < seeds[i].1;
            if i < rest.len() {
                assert(before[i] == seeds[i]);
            } else {
                assert(before[rest.len() as int] == (s, e));
            }
        }
        if os <= x < oe {
            assert(before[rest.len() as int] == (s, e));
        }
    }
    assert forall|v: int| (covered(after, v) || sent(ranges, seeds, v)) <==> sent(
        ranges,
        before,
        v,
    ) || covered(done, v) by {
        if covered(after, v) {
            let i = choose|i: int| 0 <= i < after.len() && (#[trigger] after[i]).0 <= v < after[i].1;
            if i < done.len() {
                assert(done[i] == after[i]);
            } else {
                let x = v - shift;
                assert(os <= x < oe);
                assert(covered(before, x));
                assert(mapped(ranges, x) == v);
            }
        }
        if sent(ranges, seeds, v) {
            let x = choose|x: int| covered(seeds, x) && #[trigger] mapped(ranges, x) == v;
            assert(covered(before, x));
        }
        if covered(done, v) {
            let i = choose|i: int| 0 <= i < done.len() && (#[trigger] done[i]).0 <= v < done[i].1;
            assert(after[i] == done[i]);
        }
        if sent(ranges, before, v) {
            let x = choose|x: int| covered(before, x) && #[trigger] mapped(ranges, x) == v;
            if os <= x < oe {
                assert(after[done.len() as int].0 <= v < after[done.len() as int].1);
                assert(covered(after, v));
            } else {
                assert(covered(seeds, x));
            }
        }
    }
    assert forall|t: int| (hollow(after, t) || hollow(seeds, t)) <==> (hollow(done, t) || hollow(
        before,
        t,
    )) by {
        if hollow(after, t) {
            let i = choose|i: int|
                0 <= i < after.len() && (#[trigger] after[i]).0 >= after[i].1 && after[i].0 == t;
            if i < done.len() {
                assert(done[i] == after[i]);
            }
        }
        if hollow(seeds, t) {
            let i = choose|i: int|
                0 <= i < seeds.len() && (#[trigger] seeds[i]).0 >= seeds[i].1 && seeds[i].0 == t;
            if i < rest.len() {
                assert(before[i] == seeds[i]);
            }
        }
        if hollow(done, t) {
            let i = choose|i: int|
                0 <= i < done.len() && (#[trigger] done[i]).0 >= done[i].1 && done[i].0 == t;
            assert(after[i] == done[i]);
        }
        if hollow(before, t) {
            let i = choose|i: int|
                0 <= i < before.len() && (#[trigger] before[i]).0 >= before[i].1 && before[i].0
                    == t;
            assert(i < rest.len());
            assert(seeds[i] == before[i]);
        }
    }
    assert forall|v: int| (covered(after, v) || sent(ranges, seeds, v)) <==> sent(
        ranges,
        given,
        v,
    ) by {
        assert((covered(done, v) || sent(ranges, before, v)) <==> sent(ranges, given, v));
        assert((covered(after, v) || sent(ranges, seeds, v)) <==> (sent(ranges, before, v)
            || covered(done, v)));
    }
}

/// The ranges of seeds that are still to be looked at after the range from
/// `s` to `e` has been cut at `os` and `oe`.
pub open spec fn pieces_left(rest: Seq<(i64, i64)>, s: i64, e: i64, os: i64, oe: i64) -> Seq<
    (i64, i64),
> {
    let first = if os > s {
        rest.push((s, os))
    } else {
        rest
    };
    if e > oe {
        first.push((oe, e))
    } else {
        first
    }
}

/// `m` is the least of the locations of the seeds of the ranges. A range
/// that holds no seed counts with its first number as it stands.
pub open spec fn least_location(blocks: Seq<Block>, pairs: Seq<(i64, i64)>, m: int) -> bool {
    &&& candidate(blocks, pairs, m)
    &&& forall|v: int| #[trigger] candidate(blocks, pairs, v) ==> m <= v
}

/// `v` is the location of one of the seeds of the ranges, or the first number
/// of a range that holds no seed.
pub open spec fn candidate(blocks: Seq<Block>, pairs: Seq<(i64, i64)>, v: int) -> bool {
    located(blocks, pairs, v) || hollow(pairs, v)
}

/// The least location that the chain of maps gives to one of the seeds of the
/// ranges, and `None` where there is no range of seeds.
pub fn solve_part2(blocks: &Vec<Block>, seed_pairs: &Vec<(i64, i64)>) -> (least: Option<i64>)
    requires
        all_roomy(blocks@),
    ensures
        match least {
            Some(m) => least_location(blocks@, seed_pairs@, m as int),
            None => seed_pairs@.len() == 0,
        },
{
    let ghost given = seed_pairs@;
    let mut seeds: Vec<(i64, i64)> = Vec::new();
    let mut i: usize = 0;
    while i < seed_pairs.len()
        invariant
            i <= seed_pairs@.len(),
            seeds@ == seed_pairs@.take(i as int),
        decreases seed_pairs@.len() - i,
    {
        seeds.push(seed_pairs[i]);
        assert(seed_pairs@.take(i + 1) =~= seed_pairs@.take(i as int).push(seed_pairs@[i as int]));
        i += 1;
    }
    assert(seed_pairs@.take(i as int) =~= seed_pairs@);
    let mut k: usize = 0;
    proof {
        assert(blocks@.take(0) =~= Seq::empty());
        assert forall|v: int| covered(seeds@, v) <==> located(blocks@.take(0), given, v) by {
            if covered(seeds@, v) {
                assert(location(blocks@.take(0), v) == v);
            }
        }
    }
    while k < blocks.len()
        invariant
            k <= blocks@.len(),
            all_roomy(blocks@),
            given == seed_pairs@,
            forall|v: int| covered(seeds@, v) <==> located(blocks@.take(k as int), given, v),
            forall|s: int| hollow(seeds@, s) <==> hollow(given, s),
            given.len() > 0 ==> seeds@.len() > 0,
        decreases blocks@.len() - k,
    {
        let ghost before = seeds@;
        let ghost ranges = blocks@[k as int].ranges@;
        assert forall|j: int| 0 <= j < ranges.len() implies roomy(#[trigger] ranges[j]) by {
            assert(roomy(blocks@[k as int].ranges@[j]));
        }
        seeds = map_ranges(&blocks[k].ranges, seeds);
        proof {
            let shorter = blocks@.take(k as int);
            let longer = blocks@.take(k + 1);
            assert(longer.drop_last() =~= shorter);
            assert(longer.last() == blocks@[k as int]);
            assert forall|v: int| covered(seeds@, v) <==> located(longer, given, v) by {
                if covered(seeds@, v) {
                    assert(sent(ranges, before, v));
                    let x = choose|x: int| covered(before, x) && #[trigger] mapped(ranges, x) == v;
                    assert(located(shorter, given, x));
                    let y = choose|y: int| covered(given, y) && #[trigger] location(shorter, y) == x;
                    assert(location(longer, y) == v);
                }
                if located(longer, given, v) {
                    let y = choose|y: int| covered(given, y) && #[trigger] location(longer, y) == v;
                    let x = location(shorter, y);
                    assert(located(shorter, given, x));
                    assert(covered(before, x));
                    assert(mapped(ranges, x) == v);
                    assert(sent(ranges, before, v));
                }
            }
        }
        k += 1;
    }
    assert(blocks@.take(k as int) =~= blocks@);
    if seeds.len() == 0 {
        return None;
    }
    let mut least = seeds[0].0;
    let mut at: usize = 0;
    let mut j: usize = 1;
    while j < seeds.len()
        invariant
            1 <= j <= seeds@.len(),
            at < j,
            least == seeds@[at as int].0,
            forall|i: int| 0 <= i < j ==> least <= (#[trigger] seeds@[i]).0,
            given == seed_pairs@,
            forall|v: int| covered(seeds@, v) <==> located(blocks@, given, v),
            forall|s: int| hollow(seeds@, s) <==> hollow(given, s),
        decreases seeds@.len() - j,
    {
        if seeds[j].0 < least {
            least = seeds[j].0;
            at = j;
        }
        j += 1;
    }
    proof {
        let m = least as int;
        if seeds@[at as int].0 < seeds@[at as int].1 {
            assert(covered(seeds@, m));
            assert(located(blocks@, given, m));
        } else {
            assert(hollow(seeds@, m));
            assert(hollow(given, m));
        }
        assert forall|v: int| #[trigger] candidate(blocks@, given, v) implies m <= v by {
            if located(blocks@, given, v) {
                assert(covered(seeds@, v));
                let i = choose|i: int| 0 <= i < seeds@.len() && (#[trigger] seeds@[i]).0 <= v < seeds@[i].1;
            } else {
                assert(hollow(seeds@, v));
                let i = choose|i: int|
                    0 <= i < seeds@.len() && (#[trigger] seeds@[i]).0 >= seeds@[i].1 && seeds@[i].0
                        == v;
            }
        }
    }
    Some(least)
}

/// Whether the source and the destination of every range lie within 64
/// bits.
pub fn check_roomy(blocks: &Vec<Block>) -> (ok: bool)
    ensures
        ok == all_roomy(blocks@),
        ok == roomy_maps(ranges_of(blocks@)),
        ok ==> forall|i: int| 0 <= i < blocks@.len() ==> (#[trigger] blocks@[i]).wf(),
{
    let mut b: usize = 0;
    while b < blocks.len()
        invariant
            b <= blocks@.len(),
            forall|x: int, i: int|
                0 <= x < b && 0 <= i < blocks@[x].ranges@.len() ==> roomy(
                    #[trigger] blocks@[x].ranges@[i],
                ),
        decreases blocks@.len() - b,
    {
        let ranges = &blocks[b].ranges;
        let mut i: usize = 0;
        while i < ranges.len()
            invariant
                i <= ranges@.len(),
                b < blocks@.len(),
                ranges@ == blocks@[b as int].ranges@,
                forall|j: int| 0 <= j < i ==> roomy(#[trigger] ranges@[j]),
            decreases ranges@.len() - i,
        {
            let r = ranges[i];
            if r.range_length > 0 && (r.source_start as i128 + r.range_length as i128
                > 0x7fff_ffff_ffff_ffff || r.destination_start as i128 + r.range_length as i128
                > 0x7fff_ffff_ffff_ffff) {
                assert(!roomy(blocks@[b as int].ranges@[i as int]));
                assert(!roomy(ranges_of(blocks@)[b as int][i as int]));
                return false;
            }
            i += 1;
        }
        b += 1;
    }
    assert(roomy_maps(ranges_of(blocks@))) by {
        assert forall|x: int, i: int|
            0 <= x < ranges_of(blocks@).len() && 0 <= i < ranges_of(blocks@)[x].len() implies roomy(
            #[trigger] ranges_of(blocks@)[x][i],
        ) by {
            assert(roomy(blocks@[x].ranges@[i]));
        }
    }
    assert forall|i: int| 0 <= i < blocks@.len() implies (#[trigger] blocks@[i]).wf() by {
        assert forall|j: int| 0 <= j < blocks@[i].ranges@.len() implies (
        #[trigger] blocks@[i].ranges@[j]).wf() by {
            assert(roomy(blocks@[i].ranges@[j]));
        }
    }
    true
}

/// Every range of every map is roomy.
pub open spec fn roomy_maps(maps: Seq<Seq<Range>>) -> bool {
    forall|b: int, i: int|
        0 <= b < maps.len() && 0 <= i < maps[b].len() ==> roomy(#[trigger] maps[b][i])
}

/// The end of some range of seeds does not fit in 64 bits.
pub open spec fn seeds_overflow(seeds: Seq<i64>) -> bool {
    exists|i: int|
        0 <= i < seed_ranges(seeds).len() && !(i64::MIN <= (#[trigger] seed_ranges(seeds)[i]).1
            <= i64::MAX)
}

/// The maps `blocks` and the ranges of seeds `pairs` are those of the lines,
/// and `one` and `two` are the answers for them.
pub open spec fn answered(
    lines: Seq<Seq<char>>,
    blocks: Seq<Block>,
    pairs: Seq<(i64, i64)>,
    one: i64,
    two: Option<i64>,
) -> bool {
    &&& lines.len() > 0
    &&& blocks_of(lines, lines.len() as int) == Some(ranges_of(blocks))
    &&& roomy_maps(ranges_of(blocks))
    &&& one == nearest(seeds_of(lines[0]), blocks)
    &&& pairs.len() == seed_ranges(seeds_of(lines[0])).len()
    &&& forall|i: int|
        0 <= i < pairs.len() ==> (#[trigger] pairs[i]).0 == seed_ranges(seeds_of(lines[0]))[i].0
            && pairs[i].1 == seed_ranges(seeds_of(lines[0]))[i].1
    &&& match two {
        Some(m) => least_location(blocks, pairs, m as int),
        None => pairs.len() == 0,
    }
}

/// The least location of the seeds that the first line lists, and the least
/// location of the seeds of the ranges that the same list spells, which is
/// `None` where the line lists fewer than two numbers. There is no answer
/// without a line, where the maps cannot be read, where a range of a map
/// leaves 64 bits, or where a range of seeds does.
pub fn solve(lines: &Vec<String>) -> (answers: Option<(i64, Option<i64>)>)
    ensures
        match answers {
            Some(found) => exists|blocks: Seq<Block>, pairs: Seq<(i64, i64)>|
                #[trigger] answered(texts(lines@), blocks, pairs, found.0, found.1),
            None => lines@.len() == 0 || match blocks_of(texts(lines@), lines@.len() as int) {
                None => true,
                Some(maps) => !roomy_maps(maps) || seeds_overflow(seeds_of(lines@[0]@)),
            },
        },
{
    if lines.len() == 0 {
        return None;
    }
    let blocks = match generate_blocks(lines) {
        Some(blocks) => blocks,
        None => {
            return None;
        },
    };
    if !check_roomy(&blocks) {
        return None;
    }
    let seeds_p1 = get_seeds(lines[0].as_str());
    let sol1 = shortest_distance(&seeds_p1, &blocks);
    let seeds_p2 = match get_seed_ranges(&seeds_p1) {
        Some(pairs) => pairs,
        None => {
            return None;
        },
    };
    let sol2 = solve_part2(&blocks, &seeds_p2);
    assert(texts(lines@)[0] == lines@[0]@);
    assert(answered(texts(lines@), blocks@, seeds_p2@, sol1, sol2));
    assert(exists|b: Seq<Block>, p: Seq<(i64, i64)>|
        #[trigger] answered(texts(lines@), b, p, sol1, sol2));
    let answers = Some((sol1, sol2));
    assert(answers->Some_0.0 == sol1 && answers->Some_0.1 == sol2);
    assert(exists|b: Seq<Block>, p: Seq<(i64, i64)>|
        #[trigger] answered(texts(lines@), b, p, answers->Some_0.0, answers->Some_0.1));
    answers
}

} // verus!
