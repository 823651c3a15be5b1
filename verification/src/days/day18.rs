//! Digging plans: directions, ranges of a trench and the area of a polygon.

use vstd::prelude::*;
use crate::marks::{rectangular, dry, dry_squares, lemma_dry_squares_flood, lemma_dry_squares_nonnegative, lemma_dry_squares_bound};
use crate::text::{number_i64, parse_i64, texts, to_chars, word_bounds, words};

verus! {

/// The step, as (rows, columns), that a direction letter stands for.
pub open spec fn delta_of(dir: char) -> (int, int) {
    if dir == 'R' {
        (0, 1)
    } else if dir == 'L' {
        (0, -1)
    } else if dir == 'U' {
        (-1, 0)
    } else {
        (1, 0)
    }
}

/// The step of one of the four direction letters `R`, `L`, `U`, `D`.
pub fn dir_delta(dir: char) -> (delta: (i64, i64))
    requires
        dir == 'R' || dir == 'L' || dir == 'U' || dir == 'D',
    ensures
        delta.0 == delta_of(dir).0,
        delta.1 == delta_of(dir).1,
{
    if dir == 'R' {
        (0, 1)
    } else if dir == 'L' {
        (0, -1)
    } else if dir == 'U' {
        (-1, 0)
    } else {
        (1, 0)
    }
}

/// The larger of two numbers.
pub open spec fn larger(a: int, b: int) -> int {
    if a >= b {
        a
    } else {
        b
    }
}

/// The smaller of two numbers.
pub open spec fn smaller(a: int, b: int) -> int {
    if a <= b {
        a
    } else {
        b
    }
}

/// The part that two closed ranges have in common, if any.
pub open spec fn common(r1: (i64, i64), r2: (i64, i64)) -> Option<(i64, i64)> {
    let lo = larger(r1.0 as int, r2.0 as int);
    let hi = smaller(r1.1 as int, r2.1 as int);
    if lo <= hi {
        Some((lo as i64, hi as i64))
    } else {
        None
    }
}

/// What each of two closed ranges has below the larger of the two starts and
/// above the smaller of the two ends: for the first range the part below,
/// then the part above, then the same for the second.
pub open spec fn leftovers(r1: (i64, i64), r2: (i64, i64)) -> Seq<(i64, i64)> {
    let lo = larger(r1.0 as int, r2.0 as int);
    let hi = smaller(r1.1 as int, r2.1 as int);
    let below1 = if r1.0 < lo {
        seq![(r1.0, (lo - 1) as i64)]
    } else {
        Seq::empty()
    };
    let above1 = if r1.1 > hi {
        seq![((hi + 1) as i64, r1.1)]
    } else {
        Seq::empty()
    };
    let below2 = if r2.0 < lo {
        seq![(r2.0, (lo - 1) as i64)]
    } else {
        Seq::empty()
    };
    let above2 = if r2.1 > hi {
        seq![((hi + 1) as i64, r2.1)]
    } else {
        Seq::empty()
    };
    below1 + above1 + below2 + above2
}

/// Cuts two closed ranges into the part they share and the parts that lie
/// outside it.
pub fn intersect_ranges(range1: &(i64, i64), range2: &(i64, i64)) -> (parts: (
    Option<(i64, i64)>,
    Vec<(i64, i64)>,
))
    ensures
        parts.0 == common(*range1, *range2),
        parts.1@ == leftovers(*range1, *range2),
{
    let (start1, end1) = *range1;
    let (start2, end2) = *range2;
    let max_start = if start1 >= start2 {
        start1
    } else {
        start2
    };
    let min_end = if end1 <= end2 {
        end1
    } else {
        end2
    };
    let intersection = if max_start <= min_end {
        Some((max_start, min_end))
    } else {
        None
    };
    let mut non_intersecting: Vec<(i64, i64)> = Vec::new();
    if start1 < max_start {
        non_intersecting.push((start1, max_start - 1));
    }
    if end1 > min_end {
        non_intersecting.push((min_end + 1, end1));
    }
    if start2 < max_start {
        non_intersecting.push((start2, max_start - 1));
    }
    if end2 > min_end {
        non_intersecting.push((min_end + 1, end2));
    }
    assert(non_intersecting@ =~= leftovers(*range1, *range2));
    (intersection, non_intersecting)
}

/// Twice the signed area that the first `count` edges of a polygon sweep out:
/// the sum of `x[i] * y[i+1] - y[i] * x[i+1]`, the last corner joined to the
/// first.
pub open spec fn swept(vertices: Seq<(i64, i64)>, count: nat) -> int
    decreases count,
{
    if count == 0 {
        0
    } else {
        let i = (count - 1) as int;
        let j = (i + 1) % (vertices.len() as int);
        swept(vertices, (count - 1) as nat) + vertices[i].0 * vertices[j].1 - vertices[i].1
            * vertices[j].0
    }
}

/// The area of the polygon, the half rounded down.
pub open spec fn area(vertices: Seq<(i64, i64)>) -> int {
    let twice = swept(vertices, vertices.len());
    if twice >= 0 {
        twice / 2
    } else {
        (-twice) / 2
    }
}

/// What one edge adds is at most `2^63` in size when the coordinates fit in
/// 32 bits.
proof fn lemma_edge_bound(a: (i64, i64), b: (i64, i64))
    requires
        -0x8000_0000 <= a.0 <= 0x8000_0000,
        -0x8000_0000 <= a.1 <= 0x8000_0000,
        -0x8000_0000 <= b.0 <= 0x8000_0000,
        -0x8000_0000 <= b.1 <= 0x8000_0000,
    ensures
        -0x4000_0000_0000_0000 <= a.0 * b.1 <= 0x4000_0000_0000_0000,
        -0x4000_0000_0000_0000 <= a.1 * b.0 <= 0x4000_0000_0000_0000,
{
    assert(-0x4000_0000_0000_0000 <= a.0 * b.1 <= 0x4000_0000_0000_0000) by (nonlinear_arith)
        requires
            -0x8000_0000 <= a.0 <= 0x8000_0000,
            -0x8000_0000 <= b.1 <= 0x8000_0000,
    ;
    assert(-0x4000_0000_0000_0000 <= a.1 * b.0 <= 0x4000_0000_0000_0000) by (nonlinear_arith)
        requires
            -0x8000_0000 <= a.1 <= 0x8000_0000,
            -0x8000_0000 <= b.0 <= 0x8000_0000,
    ;
}

/// The area of a polygon by the shoelace formula. The coordinates must fit in
/// 32 bits, so that no sum leaves 128 bits.
pub fn shoelace_formula(vertices: &[(i64, i64)]) -> (a: i128)
    requires
        forall|i: int|
            0 <= i < vertices@.len() ==> {
                &&& -0x8000_0000 <= (#[trigger] vertices@[i]).0 <= 0x8000_0000
                &&& -0x8000_0000 <= vertices@[i].1 <= 0x8000_0000
            },
    ensures
        a == area(vertices@),
{
    let n = vertices.len();
    let mut twice: i128 = 0;
    let mut i: usize = 0;
    while i < n
        invariant
            n == vertices@.len(),
            i <= n,
            twice == swept(vertices@, i as nat),
            -0x8000_0000_0000_0000 * i <= twice <= 0x8000_0000_0000_0000 * i,
            forall|i: int|
                0 <= i < vertices@.len() ==> {
                    &&& -0x8000_0000 <= (#[trigger] vertices@[i]).0 <= 0x8000_0000
                    &&& -0x8000_0000 <= vertices@[i].1 <= 0x8000_0000
                },
        decreases n - i,
    {
        let j = if i + 1 == n {
            0
        } else {
            i + 1
        };
        assert(j == (i + 1) % (n as int)) by {
            if i + 1 < n {
                vstd::arithmetic::div_mod::lemma_small_mod((i + 1) as nat, n as nat);
            } else {
                vstd::arithmetic::div_mod::lemma_mod_self_0(n as int);
            }
        }
        let a = vertices[i];
        let b = vertices[j];
        proof {
            lemma_edge_bound(a, b);
        }
        twice = twice + (a.0 as i128) * (b.1 as i128) - (a.1 as i128) * (b.0 as i128);
        i += 1;
    }
    if twice >= 0 {
        twice / 2
    } else {
        (-twice) / 2
    }
}

/// One square of the dig site.
#[derive(Clone, Copy, Debug, PartialEq, Eq)]
pub struct Block {
    pub rel_location: (i64, i64),
    pub flooded: bool,
}

/// Which squares of a site are flooded.
pub open spec fn flags(grid: Seq<Vec<Block>>) -> Seq<Seq<bool>> {
    grid.map_values(|row: Vec<Block>| row@.map_values(|b: Block| b.flooded))
}

/// The two squares share an edge.
pub open spec fn adjacent(a: (int, int), b: (int, int)) -> bool {
    ||| a.0 == b.0 && (a.1 == b.1 + 1 || a.1 + 1 == b.1)
    ||| a.1 == b.1 && (a.0 == b.0 + 1 || a.0 + 1 == b.0)
}

/// Water that enters at `start` reaches `c` in `n` steps or fewer, each step
/// from a dry square to a dry square that shares an edge with it.
pub open spec fn reach(site: Seq<Seq<bool>>, start: (int, int), c: (int, int), n: nat) -> bool
    decreases n,
{
    if n == 0 {
        c == start && dry(site, start)
    } else {
        reach(site, start, c, (n - 1) as nat) || (dry(site, c) && exists|d: (int, int)|
            reach(site, start, d, (n - 1) as nat) && #[trigger] adjacent(d, c))
    }
}

/// Water that enters at `start` reaches `c`.
pub open spec fn reachable(site: Seq<Seq<bool>>, start: (int, int), c: (int, int)) -> bool {
    exists|n: nat| reach(site, start, c, n)
}

/// A set of squares that holds the start, if it is dry, and with each of its
/// squares every dry neighbour, holds every square that the water reaches.
proof fn lemma_closed_holds_reach(
    site: Seq<Seq<bool>>,
    start: (int, int),
    wet: Set<(int, int)>,
    c: (int, int),
    n: nat,
)
    requires
        dry(site, start) ==> wet.contains(start),
        forall|p: (int, int), d: (int, int)|
            wet.contains(p) && #[trigger] adjacent(p, d) && dry(site, d) ==> wet.contains(d),
        reach(site, start, c, n),
    ensures
        wet.contains(c),
    decreases n,
{
    if n > 0 {
        if reach(site, start, c, (n - 1) as nat) {
            lemma_closed_holds_reach(site, start, wet, c, (n - 1) as nat);
        } else {
            let d = choose|d: (int, int)|
                reach(site, start, d, (n - 1) as nat) && #[trigger] adjacent(d, c);
            lemma_closed_holds_reach(site, start, wet, d, (n - 1) as nat);
            assert(wet.contains(d) && adjacent(d, c) && dry(site, c));
        }
    }
}

/// Water that reaches a square reaches its dry neighbours.
proof fn lemma_reach_on(site: Seq<Seq<bool>>, start: (int, int), p: (int, int), d: (int, int))
    requires
        reachable(site, start, p),
        adjacent(p, d),
        dry(site, d),
    ensures
        reachable(site, start, d),
{
    let n = choose|n: nat| reach(site, start, p, n);
    assert(reach(site, start, p, n) && adjacent(p, d));
    assert(reach(site, start, d, n + 1));
}

/// Floods the site from `(start_x, start_y)`: the square there, if it lies
/// on the site and is dry, and every dry square that the water reaches from
/// it by steps between squares that share an edge. Returns the number of
/// squares newly flooded.
pub fn flood_fill(grid: &mut Vec<Vec<Block>>, start_x: i64, start_y: i64) -> (area: u128)
    requires
        rectangular(flags(old(grid)@)),
    ensures
        final(grid)@.len() == old(grid)@.len(),
        forall|x: int|
            0 <= x < old(grid)@.len() ==> (#[trigger] final(grid)@[x])@.len() == old(grid)@[x]@.len(),
        forall|x: int, y: int|
            0 <= x < old(grid)@.len() && 0 <= y < old(grid)@[x]@.len() ==> {
                &&& (#[trigger] final(grid)@[x]@[y]).rel_location == old(grid)@[x]@[y].rel_location
                &&& final(grid)@[x]@[y].flooded == (old(grid)@[x]@[y].flooded || reachable(
                    flags(old(grid)@),
                    (start_x as int, start_y as int),
                    (x, y),
                ))
            },
        exists|wet: Set<(int, int)>|
            {
                &&& wet.finite()
                &&& #[trigger] wet.len() == area
                &&& forall|c: (int, int)|
                    wet.contains(c) <==> reachable(
                        flags(old(grid)@),
                        (start_x as int, start_y as int),
                        c,
                    )
            },
{
    let ghost site = flags(grid@);
    let ghost start = (start_x as int, start_y as int);
    let ghost mut wet: Set<(int, int)> = Set::empty();
    let mut stack: Vec<(i128, i128)> = Vec::new();
    stack.push((start_x as i128, start_y as i128));
    let mut area: u128 = 0;
    let rows = grid.len();
    let cols = if rows > 0 {
        grid[0].len()
    } else {
        0
    };
    proof {
        lemma_dry_squares_nonnegative(site, rows as int);
        lemma_dry_squares_bound(site, rows as int);
        assert(stack@[0] == (start.0 as i128, start.1 as i128));
        if rows > 0 {
            assert(rows * cols <= 0xffff_ffff_ffff_ffff * 0xffff_ffff_ffff_ffff)
                by (nonlinear_arith)
                requires
                    0 <= rows <= 0xffff_ffff_ffff_ffff,
                    0 <= cols <= 0xffff_ffff_ffff_ffff,
            ;
        }
    }
    while stack.len() > 0
        invariant
            site == flags(old(grid)@),
            start == (start_x as int, start_y as int),
            rectangular(site),
            rows == grid@.len(),
            rows == site.len(),
            rows > 0 ==> cols == site[0].len(),
            grid@.len() == old(grid)@.len(),
            forall|x: int| 0 <= x < rows ==> (#[trigger] grid@[x])@.len() == old(grid)@[x]@.len(),
            forall|x: int, y: int|
                0 <= x < rows && 0 <= y < site[x].len() ==> {
                    &&& (#[trigger] grid@[x]@[y]).rel_location == old(grid)@[x]@[y].rel_location
                    &&& grid@[x]@[y].flooded == (site[x][y] || wet.contains((x, y)))
                },
            wet.finite(),
            wet.len() == area,
            forall|c: (int, int)| wet.contains(c) ==> dry(site, c) && reachable(site, start, c),
            forall|i: int|
                0 <= i < stack@.len() ==> ((#[trigger] stack@[i]).0 as int, stack@[i].1 as int)
                    == start || exists|p: (int, int)|
                    wet.contains(p) && adjacent(p, (stack@[i].0 as int, stack@[i].1 as int)),
            forall|p: (int, int), d: (int, int)|
                wet.contains(p) && #[trigger] adjacent(p, d) && dry(site, d) ==> wet.contains(d)
                    || on_stack(stack@, d),
            dry(site, start) ==> wet.contains(start) || on_stack(stack@, start),
            area + dry_squares(flags(grid@), rows as int) == dry_squares(site, rows as int),
            dry_squares(flags(grid@), rows as int) >= 0,
            dry_squares(site, rows as int) <= 0xffff_ffff_ffff_ffff * 0xffff_ffff_ffff_ffff,
        decreases 4 * dry_squares(flags(grid@), rows as int) + stack@.len(),
    {
        let ghost before = stack@;
        let ghost wet_before = wet;
        let (x, y) = stack.pop().unwrap();
        let ghost here = (x as int, y as int);
        assert(before[before.len() - 1] == (x, y));
        assert forall|d: (int, int)| on_stack(before, d) implies on_stack(stack@, d) || d
            == here by {
            let i = choose|i: int|
                0 <= i < before.len() && ((#[trigger] before[i]).0 as int, before[i].1 as int)
                    == d;
            if i < stack@.len() {
                assert(stack@[i] == before[i]);
            }
        }
        if x < 0 || y < 0 || x >= rows as i128 || y >= cols as i128 {
            assert(!dry(site, here));
            continue ;
        }
        let ux = x as usize;
        let uy = y as usize;
        assert(site[ux as int].len() == cols);
        if grid[ux][uy].flooded {
            assert(!dry(site, here) || wet.contains(here));
            continue ;
        }
        proof {
            assert(dry(site, here));
            if here != start {
                let p = choose|p: (int, int)| wet.contains(p) && adjacent(p, here);
                lemma_reach_on(site, start, p, here);
            } else {
                assert(reach(site, start, here, 0));
            }
            let now = flags(grid@);
            assert(dry(now, here));
            lemma_dry_squares_flood(now, x as int, y as int, rows as int);
        }
        let ghost now = flags(grid@);
        let ghost cells = grid@;
        let block = grid[ux][uy];
        grid[ux].set(uy, Block { rel_location: block.rel_location, flooded: true });
        proof {
            assert(flags(grid@) =~= now.update(x as int, now[x as int].update(y as int, true))) by {
                assert forall|i: int| 0 <= i < rows implies flags(grid@)[i] =~= now.update(
                    x as int,
                    now[x as int].update(y as int, true),
                )[i] by {
                    if i != x {
                        assert(grid@[i] == cells[i]);
                    }
                }
            }
            wet = wet.insert(here);
        }
        area += 1;
        let below = (x + 1, y);
        let right = (x, y + 1);
        let above = (x - 1, y);
        let left = (x, y - 1);
        stack.push(below);
        stack.push(right);
        stack.push(above);
        stack.push(left);
        proof {
            let n = stack@.len() as int;
            assert(stack@[n - 4] == below && stack@[n - 3] == right && stack@[n - 2] == above
                && stack@[n - 1] == left);
            assert forall|d: (int, int)| adjacent(here, d) implies on_stack(stack@, d) by {
                if d == (x + 1, y as int) {
                    assert((stack@[n - 4].0 as int, stack@[n - 4].1 as int) == d);
                } else if d == (x as int, y + 1) {
                    assert((stack@[n - 3].0 as int, stack@[n - 3].1 as int) == d);
                } else if d == (x - 1, y as int) {
                    assert((stack@[n - 2].0 as int, stack@[n - 2].1 as int) == d);
                } else {
                    assert((stack@[n - 1].0 as int, stack@[n - 1].1 as int) == d);
                }
            }
            assert forall|i: int| 0 <= i < stack@.len() implies ((#[trigger] stack@[i]).0 as int, stack@[i].1 as int)
                == start || exists|p: (int, int)|
                wet.contains(p) && adjacent(p, (stack@[i].0 as int, stack@[i].1 as int)) by {
                if i >= n - 4 {
                    assert(wet.contains(here) && adjacent(
                        here,
                        (stack@[i].0 as int, stack@[i].1 as int),
                    ));
                } else {
                    assert(stack@[i] == before[i]);
                    if (before[i].0 as int, before[i].1 as int) != start {
                        let p = choose|p: (int, int)|
                            wet_before.contains(p) && adjacent(
                                p,
                                (before[i].0 as int, before[i].1 as int),
                            );
                        assert(wet.contains(p));
                    }
                }
            }
            assert forall|d: (int, int)| on_stack(before, d) && d != here implies on_stack(
                stack@,
                d,
            ) by {
                let i = choose|i: int|
                    0 <= i < before.len() && ((#[trigger] before[i]).0 as int, before[i].1 as int)
                        == d;
                assert(i < n - 4);
                assert(stack@[i] == before[i]);
            }
        }
    }
    proof {
        assert forall|c: (int, int)| reachable(site, start, c) implies wet.contains(c) by {
            let n = choose|n: nat| reach(site, start, c, n);
            assert forall|p: (int, int), d: (int, int)|
                wet.contains(p) && #[trigger] adjacent(p, d) && dry(site, d) implies wet.contains(
                d,
            ) by {
                assert(!on_stack(stack@, d));
            }
            assert(!on_stack(stack@, start));
            lemma_closed_holds_reach(site, start, wet, c, n);
        }
        assert forall|x: int, y: int|
            0 <= x < old(grid)@.len() && 0 <= y < old(grid)@[x]@.len() implies (
        #[trigger] grid@[x]@[y]).flooded == (old(grid)@[x]@[y].flooded || reachable(
            site,
            start,
            (x, y),
        )) by {
            assert(site[x][y] == old(grid)@[x]@[y].flooded);
        }
    }
    area
}

/// The square is on the stack.
pub open spec fn on_stack(stack: Seq<(i128, i128)>, d: (int, int)) -> bool {
    exists|i: int| 0 <= i < stack.len() && ((#[trigger] stack[i]).0 as int, stack[i].1 as int) == d
}

/// What a line of the dig plan says: a direction, the first character of its
/// first word, and a distance, the number that its second word spells or 0
/// where it spells none. A line of fewer than two words, or with another
/// direction than `R`, `L`, `U`, `D`, says nothing.
pub open spec fn order_of(line: Seq<char>) -> Option<(char, i64)> {
    let w = words(line);
    if w.len() < 2 {
        None
    } else {
        let dir = w[0][0];
        if dir == 'R' || dir == 'L' || dir == 'U' || dir == 'D' {
            Some(
                (
                    dir,
                    match number_i64(w[1]) {
                        Some(d) => d,
                        None => 0,
                    },
                ),
            )
        } else {
            None
        }
    }
}

/// The squares that are dug when `count` steps, but no fewer than none, are
/// taken from `from` in the direction `dir`, each square as row and column.
pub open spec fn stretch(from: (int, int), dir: char, count: int) -> Seq<(int, int)>
    decreases count,
{
    if count <= 0 {
        Seq::empty()
    } else {
        stretch(from, dir, count - 1).push(
            (from.0 + count * delta_of(dir).0, from.1 + count * delta_of(dir).1),
        )
    }
}

/// The square at which a trench ends that starts at the origin.
pub open spec fn end_of(path: Seq<(int, int)>) -> (int, int) {
    if path.len() == 0 {
        (0, 0)
    } else {
        path.last()
    }
}

/// The trench that the first `upto` lines dig, square by square from the
/// origin, where every line says something.
pub open spec fn trench(lines: Seq<Seq<char>>, upto: int) -> Option<Seq<(int, int)>>
    decreases upto,
{
    if upto <= 0 || upto > lines.len() {
        Some(Seq::empty())
    } else {
        match (trench(lines, upto - 1), order_of(lines[upto - 1])) {
            (Some(path), Some((dir, dist))) => Some(
                path + stretch(end_of(path), dir, dist as int),
            ),
            _ => None,
        }
    }
}

/// Lines of which a part digs no trench dig none.
pub proof fn lemma_no_trench(lines: Seq<Seq<char>>, k: int, n: int)
    requires
        0 <= k <= n <= lines.len(),
        trench(lines, k) is None,
    ensures
        trench(lines, n) is None,
    decreases n - k,
{
    if k < n {
        lemma_no_trench(lines, k, n - 1);
    }
}

/// The squares of a list of blocks.
pub open spec fn squares(path: Seq<Block>) -> Seq<(int, int)> {
    path.map_values(|b: Block| (b.rel_location.0 as int, b.rel_location.1 as int))
}

/// Reads what a line says.
pub fn read_order(line: &str) -> (order: Option<(char, i64)>)
    ensures
        order == order_of(line@),
{
    let chars = to_chars(line);
    let sp = word_bounds(&chars);
    if sp.len() < 2 {
        return None;
    }
    let dir = chars[sp[0].0];
    assert(words(line@)[0][0] == dir) by {
        assert(chars@.subrange(sp@[0].0 as int, sp@[0].1 as int)[0] == chars@[sp@[0].0 as int]);
    }
    if !(dir == 'R' || dir == 'L' || dir == 'U' || dir == 'D') {
        return None;
    }
    let dist = match parse_i64(&chars, sp[1].0, sp[1].1) {
        Some(d) => d,
        None => 0,
    };
    Some((dir, dist))
}

/// Digs the trench, square by square. `None` where a line says nothing or
/// the trench leaves 64 bits.
pub fn dig(lines: &Vec<String>) -> (path: Option<Vec<Block>>)
    ensures
        match path {
            Some(p) => trench(texts(lines@), lines@.len() as int) == Some(squares(p@)) && forall|
                i: int,
            |
                0 <= i < p@.len() ==> (#[trigger] p@[i]).flooded,
            None => trench(texts(lines@), lines@.len() as int) matches Some(t) ==> exists|i: int|
                0 <= i < t.len() && !(i64::MIN <= (#[trigger] t[i]).0 <= i64::MAX && i64::MIN
                    <= t[i].1 <= i64::MAX),
        },
{
    let ghost text = texts(lines@);
    let mut path: Vec<Block> = Vec::new();
    let mut loc: (i64, i64) = (0, 0);
    let mut k: usize = 0;
    assert(squares(path@) =~= Seq::empty());
    while k < lines.len()
        invariant
            k <= lines@.len(),
            text == texts(lines@),
            trench(text, k as int) == Some(squares(path@)),
            (loc.0 as int, loc.1 as int) == end_of(squares(path@)),
            forall|i: int| 0 <= i < path@.len() ==> (#[trigger] path@[i]).flooded,
        decreases lines@.len() - k,
    {
        assert(text[k as int] == lines@[k as int]@);
        let (dir, dist) = match read_order(lines[k].as_str()) {
            Some(order) => order,
            None => {
                proof {
                    lemma_no_trench(text, k + 1, lines@.len() as int);
                }
                return None;
            },
        };
        let delta = dir_delta(dir);
        let ghost before = squares(path@);
        let ghost from = (loc.0 as int, loc.1 as int);
        let mut i: i64 = 0;
        while i < dist
            invariant
                0 <= i,
                i <= dist || (dist < 0 && i == 0),
                k < lines@.len(),
                text == texts(lines@),
                trench(text, k as int) == Some(before),
                order_of(text[k as int]) == Some((dir, dist)),
                from == end_of(before),
                delta.0 == delta_of(dir).0,
                delta.1 == delta_of(dir).1,
                squares(path@) == before + stretch(from, dir, i as int),
                (loc.0 as int, loc.1 as int) == (from.0 + i * delta_of(dir).0, from.1 + i
                    * delta_of(dir).1),
                forall|j: int| 0 <= j < path@.len() ==> (#[trigger] path@[j]).flooded,
            decreases dist - i,
        {
            let next = match (loc.0.checked_add(delta.0), loc.1.checked_add(delta.1)) {
                (Some(r), Some(c)) => (r, c),
                _ => {
                    proof {
                        let whole = before + stretch(from, dir, dist as int);
                        lemma_stretch_at(from, dir, dist as int, i as int);
                        let at = before.len() + i;
                        assert(whole[at] == stretch(from, dir, dist as int)[i as int]);
                        assert((i + 1) * delta_of(dir).0 == i * delta_of(dir).0 + delta_of(dir).0)
                            by (nonlinear_arith);
                        assert((i + 1) * delta_of(dir).1 == i * delta_of(dir).1 + delta_of(dir).1)
                            by (nonlinear_arith);
                        lemma_trench_grows(text, k + 1, lines@.len() as int);
                        let t = trench(text, lines@.len() as int);
                        if t is Some {
                            assert(t->Some_0[at] == whole[at]);
                        }
                    }
                    return None;
                },
            };
            let ghost so_far = squares(path@);
            loc = next;
            path.push(Block { rel_location: loc, flooded: true });
            proof {
                assert((i + 1) * delta_of(dir).0 == i * delta_of(dir).0 + delta_of(dir).0)
                    by (nonlinear_arith);
                assert((i + 1) * delta_of(dir).1 == i * delta_of(dir).1 + delta_of(dir).1)
                    by (nonlinear_arith);
                assert(squares(path@) =~= so_far.push((loc.0 as int, loc.1 as int)));
                assert(before + stretch(from, dir, i + 1) =~= (before + stretch(
                    from,
                    dir,
                    i as int,
                )).push((loc.0 as int, loc.1 as int)));
            }
            i += 1;
        }
        proof {
            lemma_stretch_len(from, dir, dist as int);
            lemma_stretch_len(from, dir, 0);
            if dist <= 0 {
                assert(stretch(from, dir, dist as int) =~= stretch(from, dir, 0));
            }
            let whole = before + stretch(from, dir, dist as int);
            assert(squares(path@) == whole);
            if whole.len() > before.len() {
                lemma_stretch_at(from, dir, dist as int, dist - 1);
            } else if stretch(from, dir, dist as int).len() == 0 {
                assert(whole =~= before);
            }
            lemma_stretch_len(from, dir, dist as int);
        }
        k += 1;
    }
    Some(path)
}

/// A stretch of `count` steps digs `count` squares, the `i`th of them `i + 1`
/// steps from where it starts.
pub proof fn lemma_stretch_at(from: (int, int), dir: char, count: int, i: int)
    requires
        0 <= i < count,
    ensures
        stretch(from, dir, count).len() == count,
        stretch(from, dir, count)[i] == (from.0 + (i + 1) * delta_of(dir).0, from.1 + (i + 1)
            * delta_of(dir).1),
    decreases count,
{
    lemma_stretch_len(from, dir, count);
    if i < count - 1 {
        lemma_stretch_at(from, dir, count - 1, i);
    }
}

pub proof fn lemma_stretch_len(from: (int, int), dir: char, count: int)
    ensures
        stretch(from, dir, count).len() == if count > 0 {
            count
        } else {
            0
        },
    decreases count,
{
    if count > 0 {
        lemma_stretch_len(from, dir, count - 1);
    }
}

/// The trench of more lines begins with the trench of fewer.
pub proof fn lemma_trench_grows(lines: Seq<Seq<char>>, k: int, n: int)
    requires
        0 <= k <= n <= lines.len(),
    ensures
        trench(lines, n) matches Some(t) ==> trench(lines, k) matches Some(s) && s.len() <= t.len()
            && t.take(s.len() as int) == s,
    decreases n - k,
{
    if k < n {
        lemma_trench_grows(lines, k, n - 1);
        if trench(lines, n) is Some {
            let t = trench(lines, n)->Some_0;
            let m = trench(lines, n - 1)->Some_0;
            let s = trench(lines, k)->Some_0;
            assert(t.take(s.len() as int) =~= m.take(s.len() as int));
        }
    } else if trench(lines, n) is Some {
        let t = trench(lines, n)->Some_0;
        assert(t.take(t.len() as int) =~= t);
    }
}

/// The least row and the least column among the first `upto` squares.
pub open spec fn low(path: Seq<(int, int)>, upto: int) -> (int, int)
    decreases upto,
{
    if upto <= 1 {
        path[0]
    } else {
        let l = low(path, upto - 1);
        (smaller(l.0, path[upto - 1].0), smaller(l.1, path[upto - 1].1))
    }
}

/// The greatest row and the greatest column among the first `upto` squares.
pub open spec fn high(path: Seq<(int, int)>, upto: int) -> (int, int)
    decreases upto,
{
    if upto <= 1 {
        path[0]
    } else {
        let h = high(path, upto - 1);
        (larger(h.0, path[upto - 1].0), larger(h.1, path[upto - 1].1))
    }
}

/// The site of a trench: the smallest box of squares that holds it, row by
/// row, each square marked where the trench passes.
pub open spec fn site_of(path: Seq<(int, int)>) -> Seq<Seq<bool>> {
    let lo = low(path, path.len() as int);
    let hi = high(path, path.len() as int);
    Seq::new(
        (hi.0 - lo.0 + 1) as nat,
        |r: int|
            Seq::new((hi.1 - lo.1 + 1) as nat, |c: int| path.contains((r + lo.0, c + lo.1))),
    )
}

/// The squares of a site that water reaches from `start`.
pub open spec fn flooded_from(site: Seq<Seq<bool>>, start: (int, int)) -> Set<(int, int)> {
    Set::new(|c: (int, int)| reachable(site, start, c))
}

/// Whether every square of a trench has a row and a column of 64 bits.
pub open spec fn narrow(path: Seq<(int, int)>) -> bool {
    forall|i: int|
        0 <= i < path.len() ==> i64::MIN <= (#[trigger] path[i]).0 <= i64::MAX && i64::MIN
            <= path[i].1 <= i64::MAX
}

/// What a dig plan holds once the trench is dug and flooded from the square
/// `start` of its site: the squares that the water reaches and one for each
/// step of the trench. There is none where a line says nothing, where
/// nothing is dug, or where the trench, its site or the sum is too large for
/// the machine.
pub open spec fn lagoon_of(lines: Seq<Seq<char>>, start: (int, int)) -> Option<int> {
    match trench(lines, lines.len() as int) {
        Some(path) => {
            let lo = low(path, path.len() as int);
            let hi = high(path, path.len() as int);
            let held = flooded_from(site_of(path), start).len() + path.len();
            if path.len() > 0 && narrow(path) && hi.0 - lo.0 < usize::MAX && hi.1 - lo.1
                < usize::MAX && held <= u128::MAX {
                Some(held as int)
            } else {
                None
            }
        },
        None => None,
    }
}

/// A row of `width` squares that nothing has passed.
fn clear_row(width: usize) -> (row: Vec<Block>)
    ensures
        row@.len() == width,
        forall|c: int| 0 <= c < width ==> !(#[trigger] row@[c]).flooded,
{
    let mut row: Vec<Block> = Vec::new();
    let mut c: usize = 0;
    while c < width
        invariant
            c <= width,
            row@.len() == c,
            forall|j: int| 0 <= j < c ==> !(#[trigger] row@[j]).flooded,
        decreases width - c,
    {
        row.push(Block { rel_location: (0, 0), flooded: false });
        c += 1;
    }
    row
}

/// The corners of the smallest box that holds a trench.
fn corners(path: &Vec<Block>) -> (box_of: ((i64, i64), (i64, i64)))
    requires
        path@.len() > 0,
    ensures
        (box_of.0.0 as int, box_of.0.1 as int) == low(squares(path@), path@.len() as int),
        (box_of.1.0 as int, box_of.1.1 as int) == high(squares(path@), path@.len() as int),
        forall|j: int|
            0 <= j < path@.len() ==> box_of.0.0 <= (#[trigger] path@[j]).rel_location.0
                <= box_of.1.0 && box_of.0.1 <= path@[j].rel_location.1 <= box_of.1.1,
{
    let mut lo: (i64, i64) = path[0].rel_location;
    let mut hi: (i64, i64) = path[0].rel_location;
    let mut i: usize = 1;
    while i < path.len()
        invariant
            1 <= i <= path@.len(),
            (lo.0 as int, lo.1 as int) == low(squares(path@), i as int),
            (hi.0 as int, hi.1 as int) == high(squares(path@), i as int),
            forall|j: int|
                0 <= j < i ==> lo.0 <= (#[trigger] path@[j]).rel_location.0 <= hi.0 && lo.1
                    <= path@[j].rel_location.1 <= hi.1,
        decreases path@.len() - i,
    {
        let at = path[i].rel_location;
        if at.0 < lo.0 {
            lo = (at.0, lo.1);
        }
        if at.1 < lo.1 {
            lo = (lo.0, at.1);
        }
        if at.0 > hi.0 {
            hi = (at.0, hi.1);
        }
        if at.1 > hi.1 {
            hi = (hi.0, at.1);
        }
        i += 1;
    }
    (lo, hi)
}

/// Digs the trench of a dig plan, lays it out on its site and floods the
/// site from the square `(start_x, start_y)`.
pub fn lagoon(lines: &Vec<String>, start_x: i64, start_y: i64) -> (held: Option<u128>)
    ensures
        match held {
            Some(v) => lagoon_of(texts(lines@), (start_x as int, start_y as int)) == Some(
                v as int,
            ),
            None => lagoon_of(texts(lines@), (start_x as int, start_y as int)) is None,
        },
{
    let path = match dig(lines) {
        Some(p) => p,
        None => {
            return None;
        },
    };
    if path.len() == 0 {
        return None;
    }
    let ghost sq = squares(path@);
    let (lo, hi) = corners(&path);
    let tall: i128 = hi.0 as i128 - lo.0 as i128;
    let wide: i128 = hi.1 as i128 - lo.1 as i128;
    if tall >= usize::MAX as i128 || wide >= usize::MAX as i128 {
        return None;
    }
    let rows: usize = (tall + 1) as usize;
    let columns: usize = (wide + 1) as usize;
    let mut grid: Vec<Vec<Block>> = Vec::new();
    let mut r: usize = 0;
    while r < rows
        invariant
            r <= rows,
            grid@.len() == r,
            forall|x: int| 0 <= x < r ==> (#[trigger] grid@[x])@.len() == columns,
            forall|x: int, y: int|
                0 <= x < r && 0 <= y < columns ==> !(#[trigger] grid@[x]@[y]).flooded,
        decreases rows - r,
    {
        let row = clear_row(columns);
        grid.push(row);
        r += 1;
    }
    let mut i: usize = 0;
    while i < path.len()
        invariant
            i <= path@.len(),
            sq == squares(path@),
            grid@.len() == rows,
            rows == hi.0 - lo.0 + 1,
            columns == hi.1 - lo.1 + 1,
            forall|x: int| 0 <= x < rows ==> (#[trigger] grid@[x])@.len() == columns,
            forall|j: int|
                0 <= j < path@.len() ==> lo.0 <= (#[trigger] path@[j]).rel_location.0 <= hi.0
                    && lo.1 <= path@[j].rel_location.1 <= hi.1,
            forall|j: int| 0 <= j < path@.len() ==> (#[trigger] path@[j]).flooded,
            forall|x: int, y: int|
                0 <= x < rows && 0 <= y < columns ==> ((#[trigger] grid@[x]@[y]).flooded
                    <==> sq.take(i as int).contains((x + lo.0, y + lo.1))),
        decreases path@.len() - i,
    {
        let block = path[i];
        let x: usize = (block.rel_location.0 as i128 - lo.0 as i128) as usize;
        let y: usize = (block.rel_location.1 as i128 - lo.1 as i128) as usize;
        let ghost before = grid@;
        grid[x].set(y, block);
        proof {
            assert(sq[i as int] == (x + lo.0, y + lo.1));
            assert(sq.take(i + 1) =~= sq.take(i as int).push(sq[i as int]));
            assert forall|a: int, b: int| 0 <= a < rows && 0 <= b < columns implies ((
            #[trigger] grid@[a]@[b]).flooded <==> sq.take(i + 1).contains(
                (a + lo.0, b + lo.1),
            )) by {
                let c = (a + lo.0, b + lo.1);
                let short = sq.take(i as int);
                let grown = sq.take(i + 1);
                if a == x && b == y {
                    assert(grown[i as int] == c);
                } else {
                    assert(grid@[a]@[b] == before[a]@[b]);
                    if short.contains(c) {
                        let j = choose|j: int| 0 <= j < short.len() && short[j] == c;
                        assert(grown[j] == c);
                    }
                    if grown.contains(c) {
                        let j = choose|j: int| 0 <= j < grown.len() && grown[j] == c;
                        assert(j < i);
                        assert(short[j] == c);
                    }
                }
            }
        }
        i += 1;
    }
    proof {
        assert(sq.take(path@.len() as int) =~= sq);
        assert(flags(grid@) =~= site_of(sq)) by {
            assert forall|a: int| 0 <= a < rows implies #[trigger] flags(grid@)[a] =~= site_of(
                sq,
            )[a] by {
                assert forall|b: int| 0 <= b < columns implies flags(grid@)[a][b] == site_of(
                    sq,
                )[a][b] by {
                    assert(flags(grid@)[a][b] == grid@[a]@[b].flooded);
                }
            }
        }
        assert(rectangular(flags(grid@)));
    }
    let ghost site = flags(grid@);
    let area = flood_fill(&mut grid, start_x, start_y);
    proof {
        let wet = choose|wet: Set<(int, int)>|
            {
                &&& wet.finite()
                &&& #[trigger] wet.len() == area
                &&& forall|c: (int, int)|
                    wet.contains(c) <==> reachable(site, (start_x as int, start_y as int), c)
            };
        assert(wet =~= flooded_from(site, (start_x as int, start_y as int)));
    }
    area.checked_add(path.len() as u128)
}

/// The row and the column at which the water is let in.
pub const INSIDE_ROW: i64 = 246;

pub const INSIDE_COLUMN: i64 = 224;

/// What the dig plan holds when it is flooded from the square in row 246 and
/// column 224 of its site.
pub fn solve_pt1(lines: &Vec<String>) -> (held: Option<u128>)
    ensures
        match held {
            Some(v) => lagoon_of(texts(lines@), (INSIDE_ROW as int, INSIDE_COLUMN as int))
                == Some(v as int),
            None => lagoon_of(texts(lines@), (INSIDE_ROW as int, INSIDE_COLUMN as int)) is None,
        },
{
    lagoon(lines, INSIDE_ROW, INSIDE_COLUMN)
}

} // verus!
