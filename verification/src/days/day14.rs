//! A platform of rounded rocks that roll when it is tilted, and the load that
//! they put on its north side.

use std::collections::hash_map::DefaultHasher;
use std::collections::HashMap;
use std::hash::Hasher;
use vstd::prelude::*;
use vstd::std_specs::hash::{group_hash_axioms, DefaultHasherAdditionalSpecFns};
use crate::days::day11::{grid, to_grid, transpose, transposed, wide_enough};
use crate::text::texts;

verus! {

/// The row after its rounded rocks `O` have rolled towards its start as far
/// as they can: each comes to rest behind the nearest cube rock `#` before
/// it, or at the start, and behind the rounded rocks that rolled there
/// first. Only the first `width` places of the row count, and the row that is
/// returned has `width` places; what is neither rock is empty ground `.`.
pub open spec fn tilt_state(row: Seq<char>, width: int, upto: int) -> (Seq<char>, int, int)
    decreases upto,
{
    if upto <= 0 || upto > row.len() || upto > width {
        (Seq::new(width as nat, |i: int| '.'), 0, 0)
    } else {
        let (state, block, rocks) = tilt_state(row, width, upto - 1);
        if row[upto - 1] == '#' {
            (state.update(upto - 1, '#'), upto, 0)
        } else if row[upto - 1] == 'O' {
            (state.update(block + rocks, 'O'), block, rocks + 1)
        } else {
            (state, block, rocks)
        }
    }
}

/// The row after its rounded rocks have rolled towards its start.
pub open spec fn tilted_row(row: Seq<char>, width: int) -> Seq<char> {
    tilt_state(row, width, row.len() as int).0
}

/// The load of the rounded rocks among the first `upto` places of a tilted
/// row of a platform that is `length` deep: a rock at the start weighs
/// `length`, and each place further one less.
pub open spec fn row_load(row: Seq<char>, length: int, upto: int) -> int
    decreases upto,
{
    if upto <= 0 || upto > row.len() {
        0
    } else if row[upto - 1] == 'O' {
        row_load(row, length, upto - 1) + (length - (upto - 1))
    } else {
        row_load(row, length, upto - 1)
    }
}

/// The grid turned so that its columns become rows: row `i` of the result is
/// column `cols - 1 - i` of the grid read from the first row down, where
/// `cols` is the width of the first row.
pub open spec fn rotated(rows: Seq<Seq<char>>) -> Seq<Seq<char>> {
    if rows.len() == 0 {
        Seq::empty()
    } else {
        Seq::new(
            rows[0].len(),
            |i: int| Seq::new(rows.len(), |j: int| rows[j][rows[0].len() - 1 - i]),
        )
    }
}

/// The load of the rounded rocks of the first `upto` rows as they lie: a rock
/// at the start of its row weighs as much as the grid has rows, and each
/// place further one less. Of each row as many places count as the first row
/// has.
pub open spec fn lying_load(rows: Seq<Seq<char>>, upto: int) -> int
    decreases upto,
{
    if upto <= 0 || upto > rows.len() {
        0
    } else {
        lying_load(rows, upto - 1) + row_load(
            rows[upto - 1],
            rows.len() as int,
            rows[0].len() as int,
        )
    }
}

/// Tilts one row.
pub fn tilt_row(row: &Vec<char>, width: usize) -> (out: (Vec<char>, u128))
    requires
        row@.len() <= width,
    ensures
        out.0@ == tilted_row(row@, width as int),
        out.0@.len() == width,
        out.1 == row_load(out.0@, width as int, width as int),
{
    let mut new_state: Vec<char> = Vec::new();
    let mut n: usize = 0;
    while n < width
        invariant
            n <= width,
            new_state@ == Seq::new(n as nat, |i: int| '.'),
        decreases width - n,
    {
        new_state.push('.');
        assert(new_state@ =~= Seq::new((n + 1) as nat, |i: int| '.'));
        n += 1;
    }
    let mut last_block: usize = 0;
    let mut consecutive_rocks: usize = 0;
    let mut chidx: usize = 0;
    while chidx < row.len()
        invariant
            chidx <= row@.len() <= width,
            new_state@.len() == width,
            last_block + consecutive_rocks <= chidx,
            (new_state@, last_block as int, consecutive_rocks as int) == tilt_state(
                row@,
                width as int,
                chidx as int,
            ),
        decreases row@.len() - chidx,
    {
        let ch = row[chidx];
        if ch == '#' {
            new_state.set(chidx, '#');
            last_block = chidx + 1;
            consecutive_rocks = 0;
        } else if ch == 'O' {
            new_state.set(last_block + consecutive_rocks, 'O');
            consecutive_rocks += 1;
        }
        chidx += 1;
    }
    let mut weight: u128 = 0;
    let mut i: usize = 0;
    while i < width
        invariant
            i <= width,
            new_state@.len() == width,
            weight == row_load(new_state@, width as int, i as int),
            weight <= i * width,
            width <= usize::MAX,
        decreases width - i,
    {
        proof {
            assert(i * width + width <= width * width) by (nonlinear_arith)
                requires
                    i < width,
            ;
            assert((i + 1) * width == i * width + width) by (nonlinear_arith);
        }
        if new_state[i] == 'O' {
            assert(width * width <= 0xffff_ffff_ffff_ffff * 0xffff_ffff_ffff_ffff)
                by (nonlinear_arith)
                requires
                    0 <= width <= 0xffff_ffff_ffff_ffff,
            ;
            weight = weight + (width - i) as u128;
        }
        i += 1;
    }
    (new_state, weight)
}

/// The load of the first `upto` rows after each has been tilted.
pub open spec fn tilted_load(rows: Seq<Seq<char>>, upto: int) -> int
    decreases upto,
{
    if upto <= 0 || upto > rows.len() {
        0
    } else {
        tilted_load(rows, upto - 1) + row_load(
            tilted_row(rows[upto - 1], rows.len() as int),
            rows.len() as int,
            rows.len() as int,
        )
    }
}

/// No row is longer than the grid has rows.
pub open spec fn fits_square(rows: Seq<Seq<char>>) -> bool {
    forall|i: int| 0 <= i < rows.len() ==> (#[trigger] rows[i]).len() <= rows.len()
}

/// Tilts every row of the grid towards its start, and returns the load of
/// the rounded rocks with the tilted grid, whose rows are as long as the grid
/// has rows.
pub fn tilt_grid(rows: &Vec<Vec<char>>) -> (out: (u128, Vec<Vec<char>>))
    requires
        fits_square(grid(rows@)),
        rows@.len() <= 0xffff_ffff,
    ensures
        out.0 == tilted_load(grid(rows@), rows@.len() as int),
        out.1@.len() == rows@.len(),
        forall|i: int|
            0 <= i < rows@.len() ==> (#[trigger] out.1@[i])@ == tilted_row(
                rows@[i]@,
                rows@.len() as int,
            ),
{
    let ghost g = grid(rows@);
    let n = rows.len();
    let mut weight: u128 = 0;
    let mut tilted: Vec<Vec<char>> = Vec::new();
    let mut k: usize = 0;
    while k < n
        invariant
            k <= n <= 0xffff_ffff,
            n == rows@.len(),
            g == grid(rows@),
            fits_square(g),
            tilted@.len() == k,
            forall|i: int| 0 <= i < k ==> (#[trigger] tilted@[i])@ == tilted_row(rows@[i]@, n as int),
            weight == tilted_load(g, k as int),
            weight <= k * (n * n),
        decreases n - k,
    {
        assert(g[k as int] == rows@[k as int]@);
        let (state, load) = tilt_row(&rows[k], n);
        proof {
            lemma_row_load_bound(state@, n as int, n as int);
            assert((k + 1) * (n * n) == k * (n * n) + n * n) by (nonlinear_arith);
            assert(n * n <= 0xffff_ffff * 0xffff_ffff) by (nonlinear_arith)
                requires
                    0 <= n <= 0xffff_ffff,
            ;
            assert(k * (n * n) + n * n <= 0xffff_ffff * (0xffff_ffff * 0xffff_ffff))
                by (nonlinear_arith)
                requires
                    0 <= k < n,
                    n <= 0xffff_ffff,
                    0 <= n * n <= 0xffff_ffff * 0xffff_ffff,
            ;
        }
        weight = weight + load;
        tilted.push(state);
        k += 1;
    }
    (weight, tilted)
}

/// A row of `length` places at most weighs no more than `length` squared.
pub proof fn lemma_row_load_bound(row: Seq<char>, length: int, upto: int)
    requires
        0 <= upto <= row.len() <= length,
    ensures
        0 <= row_load(row, length, upto) <= upto * length,
    decreases upto,
{
    if upto > 0 {
        lemma_row_load_bound(row, length, upto - 1);
        assert((upto - 1) * length + length == upto * length) by (nonlinear_arith);
    }
}

/// The load of the tilted platform.
pub fn solve_pt1(start_grid: &Vec<Vec<char>>) -> (weight: u128)
    requires
        fits_square(grid(start_grid@)),
        start_grid@.len() <= 0xffff_ffff,
    ensures
        weight == tilted_load(grid(start_grid@), start_grid@.len() as int),
{
    let (weight, _tilted) = tilt_grid(start_grid);
    weight
}

/// The load of the rounded rocks as they lie. The first row must be no
/// longer than the grid has rows, and no row shorter than the first.
pub fn simple_weight(rows: &Vec<Vec<char>>) -> (weight: u128)
    requires
        rows@.len() <= 0xffff_ffff,
        rows@.len() > 0 ==> rows@[0]@.len() <= rows@.len(),
        forall|j: int| 0 <= j < rows@.len() ==> (#[trigger] rows@[j])@.len() >= rows@[0]@.len(),
    ensures
        weight == lying_load(grid(rows@), rows@.len() as int),
{
    let ghost g = grid(rows@);
    let n = rows.len();
    if n == 0 {
        return 0;
    }
    let width = rows[0].len();
    assert(g[0] == rows@[0]@);
    let mut weight: u128 = 0;
    let mut k: usize = 0;
    while k < n
        invariant
            k <= n <= 0xffff_ffff,
            n == rows@.len(),
            g == grid(rows@),
            width == g[0].len(),
            width <= n,
            forall|j: int| 0 <= j < rows@.len() ==> (#[trigger] rows@[j])@.len() >= width,
            weight == lying_load(g, k as int),
            weight <= k * (n * n),
        decreases n - k,
    {
        let row = &rows[k];
        assert(g[k as int] == row@);
        let mut load: u128 = 0;
        let mut i: usize = 0;
        while i < width
            invariant
                i <= width <= row@.len(),
                width <= n <= 0xffff_ffff,
                load == row_load(row@, n as int, i as int),
                load <= i * n,
            decreases width - i,
        {
            proof {
                assert((i + 1) * n == i * n + n) by (nonlinear_arith);
                assert(i * n + n <= 0xffff_ffff * 0xffff_ffff) by (nonlinear_arith)
                    requires
                        0 <= i < n,
                        n <= 0xffff_ffff,
                ;
            }
            if row[i] == 'O' {
                load = load + (n - i) as u128;
            }
            i += 1;
        }
        proof {
            assert(load <= n * n) by (nonlinear_arith)
                requires
                    load <= i * n,
                    0 <= i <= n,
            ;
            assert((k + 1) * (n * n) == k * (n * n) + n * n) by (nonlinear_arith);
            assert(n * n <= 0xffff_ffff * 0xffff_ffff) by (nonlinear_arith)
                requires
                    0 <= n <= 0xffff_ffff,
            ;
            assert(k * (n * n) + n * n <= 0xffff_ffff * (0xffff_ffff * 0xffff_ffff))
                by (nonlinear_arith)
                requires
                    0 <= k < n,
                    n <= 0xffff_ffff,
                    0 <= n * n <= 0xffff_ffff * 0xffff_ffff,
            ;
        }
        weight = weight + load;
        k += 1;
    }
    weight
}

/// Turns the grid by a quarter, so that its last column becomes the first
/// row. Every row must be at least as long as the first.
pub fn rotate_grid(rows: &Vec<Vec<char>>) -> (turned: Vec<Vec<char>>)
    requires
        forall|j: int| 0 <= j < rows@.len() ==> (#[trigger] rows@[j])@.len() >= rows@[0]@.len(),
    ensures
        grid(turned@) == rotated(grid(rows@)),
{
    let mut turned: Vec<Vec<char>> = Vec::new();
    if rows.len() == 0 {
        assert(grid(turned@) =~= rotated(grid(rows@)));
        return turned;
    }
    let cols = rows[0].len();
    let ghost g = grid(rows@);
    let mut k: usize = 0;
    while k < cols
        invariant
            k <= cols,
            rows@.len() > 0,
            cols == rows@[0]@.len(),
            g == grid(rows@),
            forall|j: int| 0 <= j < rows@.len() ==> (#[trigger] rows@[j])@.len() >= cols,
            turned@.len() == k,
            forall|c: int|
                0 <= c < k ==> (#[trigger] turned@[c])@ == Seq::new(
                    g.len(),
                    |j: int| g[j][cols - 1 - c],
                ),
        decreases cols - k,
    {
        let i = cols - 1 - k;
        let mut line: Vec<char> = Vec::new();
        let mut j: usize = 0;
        while j < rows.len()
            invariant
                j <= rows@.len(),
                i < cols,
                g == grid(rows@),
                forall|j: int| 0 <= j < rows@.len() ==> (#[trigger] rows@[j])@.len() >= cols,
                line@.len() == j,
                forall|r: int| 0 <= r < j ==> line@[r] == g[r][i as int],
            decreases rows@.len() - j,
        {
            assert(rows@[j as int]@.len() >= cols);
            line.push(rows[j][i]);
            j += 1;
        }
        assert(line@ =~= Seq::new(g.len(), |j: int| g[j][cols - 1 - k]));
        turned.push(line);
        k += 1;
    }
    assert(grid(turned@) =~= rotated(g));
    turned
}

/// The four bytes that stand for a character: its number, lowest byte
/// first.
pub open spec fn char_bytes(c: char) -> Seq<u8> {
    let n = c as u32;
    seq![(n % 256) as u8, (n / 256 % 256) as u8, (n / 65536 % 256) as u8, (n / 16777216) as u8]
}

/// The bytes that stand for a row: those of its characters, one after the
/// other.
pub open spec fn row_bytes(row: Seq<char>) -> Seq<u8>
    decreases row.len(),
{
    if row.len() == 0 {
        Seq::empty()
    } else {
        row_bytes(row.drop_last()) + char_bytes(row.last())
    }
}

/// The hash of a grid: that of the standard hasher after the bytes of each
/// row have been written to it, row by row.
pub open spec fn hash_of_grid(rows: Seq<Seq<char>>) -> u64 {
    DefaultHasher::spec_finish(rows.map_values(|row: Seq<char>| row_bytes(row)))
}

/// The hash of the grid.
pub fn grid_hash(rows: &Vec<Vec<char>>) -> (hash: u64)
    ensures
        hash == hash_of_grid(grid(rows@)),
{
    let ghost g = grid(rows@);
    let mut hasher = DefaultHasher::new();
    let mut k: usize = 0;
    while k < rows.len()
        invariant
            k <= rows@.len(),
            g == grid(rows@),
            hasher@ == g.take(k as int).map_values(|row: Seq<char>| row_bytes(row)),
        decreases rows@.len() - k,
    {
        let row = &rows[k];
        assert(g[k as int] == row@);
        let mut bytes: Vec<u8> = Vec::new();
        let mut i: usize = 0;
        assert(row@.take(0) =~= Seq::empty());
        while i < row.len()
            invariant
                i <= row@.len(),
                bytes@ == row_bytes(row@.take(i as int)),
            decreases row@.len() - i,
        {
            let n = row[i] as u32;
            assert(row@.take(i + 1).drop_last() =~= row@.take(i as int));
            let ghost before = bytes@;
            bytes.push((n % 256) as u8);
            bytes.push((n / 256 % 256) as u8);
            bytes.push((n / 65536 % 256) as u8);
            bytes.push((n / 16777216) as u8);
            assert(bytes@ =~= before + char_bytes(row@[i as int]));
            i += 1;
        }
        assert(row@.take(i as int) =~= row@);
        let ghost written = hasher@;
        hasher.write(bytes.as_slice());
        assert(hasher@ =~= g.take(k + 1).map_values(|row: Seq<char>| row_bytes(row))) by {
            assert(g.take(k + 1) =~= g.take(k as int).push(g[k as int]));
        }
        k += 1;
    }
    assert(g.take(k as int) =~= g);
    hasher.finish()
}

/// The grid after every row has been tilted and the grid turned by a
/// quarter.
pub open spec fn spun(rows: Seq<Seq<char>>) -> Seq<Seq<char>> {
    rotated(rows.map_values(|row: Seq<char>| tilted_row(row, rows.len() as int)))
}

/// The state of a run of quarter turns: the grid, the number of quarter
/// turns done or skipped, and for each hash that a grid had before a full
/// turn the number of quarter turns at that time.
pub struct Spin {
    pub rows: Seq<Seq<char>>,
    pub rot: int,
    pub memo: Map<u64, i64>,
}

/// The smaller of two numbers.
pub open spec fn lesser(a: int, b: int) -> int {
    if a <= b {
        a
    } else {
        b
    }
}

/// The number of quarter turns that may be skipped when the grid has the
/// hash that it had `gap` quarter turns ago: as many whole repetitions of
/// the full turns in between as fit before the target, and no more than the
/// target holds.
pub open spec fn skipped(target: int, rot: int, gap: int) -> int {
    let cycles = gap / 4;
    if cycles > 0 {
        lesser((4 * target - rot) / 4 / cycles, target / cycles) * cycles * 4
    } else {
        0
    }
}

/// One quarter turn of the run, with the skip that goes before it. A run that
/// has reached four times the target stays as it is.
pub open spec fn spin_step(target: int, s: Spin) -> Spin {
    if s.rot >= 4 * target {
        s
    } else {
        let hash = hash_of_grid(s.rows);
        let rot = if s.memo.contains_key(hash) {
            s.rot + skipped(target, s.rot, s.rot - s.memo[hash])
        } else {
            s.rot
        };
        let memo = if rot % 4 == 0 {
            s.memo.insert(hash, rot as i64)
        } else {
            s.memo
        };
        Spin { rows: spun(s.rows), rot: rot + 1, memo }
    }
}

/// The run after `n` steps.
pub open spec fn spin_steps(start: Seq<Seq<char>>, target: int, n: nat) -> Spin
    decreases n,
{
    if n == 0 {
        Spin { rows: start, rot: 0, memo: Map::empty() }
    } else {
        spin_step(target, spin_steps(start, target, (n - 1) as nat))
    }
}

/// A run that has reached four times the target stays as it is.
pub proof fn lemma_spin_stays(start: Seq<Seq<char>>, target: int, k: nat, n: nat)
    requires
        spin_steps(start, target, k).rot >= 4 * target,
        k <= n,
    ensures
        spin_steps(start, target, n) == spin_steps(start, target, k),
    decreases n,
{
    if n > k {
        lemma_spin_stays(start, target, k, (n - 1) as nat);
    }
}

/// The grid is square: it has as many rows as each row has places.
pub open spec fn square(rows: Seq<Seq<char>>) -> bool {
    forall|i: int| 0 <= i < rows.len() ==> (#[trigger] rows[i]).len() == rows.len()
}

/// A tilted row is as wide as it was asked to be.
pub proof fn lemma_tilt_len(row: Seq<char>, width: int, upto: int)
    requires
        0 <= width,
    ensures
        tilt_state(row, width, upto).0.len() == width,
        0 <= tilt_state(row, width, upto).1,
        0 <= tilt_state(row, width, upto).2,
        tilt_state(row, width, upto).1 + tilt_state(row, width, upto).2 <= if upto > 0 {
            upto
        } else {
            0
        },
    decreases upto,
{
    if 0 < upto <= row.len() && upto <= width {
        lemma_tilt_len(row, width, upto - 1);
    }
}

/// A copy of the grid.
pub fn copy_rows(rows: &Vec<Vec<char>>) -> (copy: Vec<Vec<char>>)
    ensures
        grid(copy@) == grid(rows@),
        copy@.len() == rows@.len(),
{
    let mut copy: Vec<Vec<char>> = Vec::new();
    let mut i: usize = 0;
    while i < rows.len()
        invariant
            i <= rows@.len(),
            copy@.len() == i,
            forall|k: int| 0 <= k < i ==> (#[trigger] copy@[k])@ == rows@[k]@,
        decreases rows@.len() - i,
    {
        copy.push(rows[i].clone());
        i += 1;
    }
    assert(grid(copy@) =~= grid(rows@));
    copy
}

/// The load on the north side after the platform has been tilted north,
/// west, south and east in turn `target` times, found by turning the grid a
/// quarter after each tilt. When a grid has the hash of an earlier one, the
/// full turns in between are taken to repeat, and as many repetitions are
/// skipped as fit before the target.
pub fn solve_pt2(start_grid: &Vec<Vec<char>>, target: i64) -> (weight: u128)
    requires
        square(grid(start_grid@)),
        start_grid@.len() <= 0xffff_ffff,
        0 <= target <= 0x0fff_ffff_ffff_ffff,
    ensures
        weight == lying_load(
            spin_steps(grid(start_grid@), target as int, (4 * target) as nat).rows,
            start_grid@.len() as int,
        ),
{
    broadcast use group_hash_axioms;

    let ghost start = grid(start_grid@);
    let n = start_grid.len();
    let mut rows = copy_rows(start_grid);
    let mut rot: i64 = 0;
    let mut memo: HashMap<u64, i64> = HashMap::new();
    let ghost mut steps: nat = 0;
    while rot < 4 * target
        invariant
            0 <= target <= 0x0fff_ffff_ffff_ffff,
            n == start_grid@.len(),
            n <= 0xffff_ffff,
            rows@.len() == n,
            square(grid(rows@)),
            steps <= rot <= 4 * target + 1,
            steps <= 4 * target,
            forall|h: u64| memo@.contains_key(h) ==> 0 <= (#[trigger] memo@[h]) <= rot,
            spin_steps(start, target as int, steps) == (Spin {
                rows: grid(rows@),
                rot: rot as int,
                memo: memo@,
            }),
        decreases 4 * target + 1 - rot,
    {
        let ghost before = spin_steps(start, target as int, steps);
        let ghost turns = rot;
        let hash = grid_hash(&rows);
        match memo.get(&hash) {
            Some(previous_rotation) => {
                let previous_rotation = *previous_rotation;
                assert(memo@.contains_key(hash) && memo@[hash] == previous_rotation);
                let rotation_gap = rot - previous_rotation;
                let cycles = rotation_gap / 4;
                if cycles > 0 {
                    let remaining_full_cycles = (4 * target - rot) / 4;
                    let a = remaining_full_cycles / cycles;
                    let b = target / cycles;
                    let skip_cycles = if a <= b {
                        a
                    } else {
                        b
                    };
                    proof {
                        lemma_skip(target as int, rot as int, cycles as int);
                        assert(0 <= skip_cycles * cycles <= 4 * target) by (nonlinear_arith)
                            requires
                                0 <= skip_cycles * cycles * 4 <= 4 * target,
                        ;
                    }
                    rot = rot + skip_cycles * cycles * 4;
                }
            },
            None => {},
        }
        assert(turns <= rot <= 4 * target);
        if rot % 4 == 0 {
            memo.insert(hash, rot);
        }
        assert(fits_square(grid(rows@)));
        let ghost g = grid(rows@);
        let (_tilted_weight, grid_state) = tilt_grid(&rows);
        proof {
            assert forall|i: int| 0 <= i < grid_state@.len() implies (#[trigger] grid_state@[i])@.len()
                == n by {
                lemma_tilt_len(rows@[i]@, n as int, rows@[i]@.len() as int);
            }
            assert(grid(grid_state@) =~= g.map_values(|row: Seq<char>| tilted_row(row, g.len() as int))) by {
                assert forall|i: int| 0 <= i < g.len() implies grid(grid_state@)[i] == tilted_row(
                    g[i],
                    g.len() as int,
                ) by {
                    assert(g[i] == rows@[i]@);
                }
            }
        }
        rows = rotate_grid(&grid_state);
        proof {
            assert(grid(rows@) == spun(g));
            if n > 0 {
                assert(grid(grid_state@)[0].len() == n);
            }
            assert(square(grid(rows@)));
        }
        rot = rot + 1;
        proof {
            steps = steps + 1;
            assert(spin_steps(start, target as int, steps) == spin_step(target as int, before));
        }
    }
    proof {
        lemma_spin_stays(start, target as int, steps, (4 * target) as nat);
    }
    assert(wide_enough(grid(rows@))) by {
        assert forall|i: int| 0 <= i < grid(rows@).len() implies (#[trigger] grid(rows@)[i]).len()
            >= grid(rows@)[0].len() by {}
    }
    assert forall|j: int| 0 <= j < rows@.len() implies (#[trigger] rows@[j])@.len() >= rows@[0]@.len() by {
        assert(grid(rows@)[j] == rows@[j]@);
        assert(grid(rows@)[0] == rows@[0]@);
    }
    assert(rows@.len() > 0 ==> rows@[0]@.len() <= rows@.len()) by {
        if rows@.len() > 0 {
            assert(grid(rows@)[0] == rows@[0]@);
        }
    }
    simple_weight(&rows)
}

/// The quarter turns that are skipped lead no further than the target.
proof fn lemma_skip(target: int, rot: int, cycles: int)
    requires
        0 <= rot < 4 * target,
        cycles > 0,
    ensures
        0 <= lesser((4 * target - rot) / 4 / cycles, target / cycles) * cycles * 4 <= 4 * target
            - rot,
{
    let a = (4 * target - rot) / 4;
    let q = a / cycles;
    let m = lesser(q, target / cycles);
    assert(0 <= a && a * 4 <= 4 * target - rot);
    assert(0 <= q && q * cycles <= a) by (nonlinear_arith)
        requires
            q == a / cycles,
            cycles > 0,
            a >= 0,
    ;
    assert(0 <= target / cycles) by (nonlinear_arith)
        requires
            target >= 0,
            cycles > 0,
    ;
    assert(0 <= m * cycles <= q * cycles) by (nonlinear_arith)
        requires
            0 <= m <= q,
            cycles > 0,
    ;
    assert(m * cycles * 4 == (m * cycles) * 4) by (nonlinear_arith);
}

/// The load of the tilted platform, and the load after a thousand million
/// full turns of tilting. The lines draw the platform, its north side up.
/// There is no answer for a platform that is not square, or one of `2^32`
/// rows or more.
pub fn solve(lines: &Vec<String>) -> (answers: Option<(u128, u128)>)
    ensures
        match answers {
            Some((one, two)) => {
                &&& square(texts(lines@))
                &&& one == tilted_load(transposed(texts(lines@)), lines@.len() as int)
                &&& two == lying_load(
                    spin_steps(transposed(texts(lines@)), 1000000000, 4000000000).rows,
                    lines@.len() as int,
                )
            },
            None => !square(texts(lines@)) || lines@.len() > 0xffff_ffff,
        },
{
    let rows = to_grid(lines);
    let n = rows.len();
    assert(grid(rows@).len() == n && texts(lines@).len() == lines@.len());
    if n > 0xffff_ffff {
        return None;
    }
    let mut j: usize = 0;
    while j < n
        invariant
            j <= n,
            n == rows@.len(),
            grid(rows@) == texts(lines@),
            forall|i: int| 0 <= i < j ==> (#[trigger] rows@[i])@.len() == n,
        decreases n - j,
    {
        if rows[j].len() != n {
            assert(grid(rows@)[j as int].len() != grid(rows@).len());
            assert(!square(texts(lines@)));
            return None;
        }
        j += 1;
    }
    assert(square(grid(rows@))) by {
        assert forall|i: int| 0 <= i < grid(rows@).len() implies (#[trigger] grid(rows@)[i]).len()
            == grid(rows@).len() by {
            assert(rows@[i]@.len() == n);
        }
    }
    let columns = transpose(&rows);
    proof {
        let t = transposed(grid(rows@));
        assert(square(t)) by {
            if n > 0 {
                assert(grid(rows@)[0].len() == n);
            }
        }
        assert(fits_square(grid(columns@)));
    }
    let sol1 = solve_pt1(&columns);
    let sol2 = solve_pt2(&columns, 1000000000);
    Some((sol1, sol2))
}

} // verus!
