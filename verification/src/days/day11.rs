//! Galaxies in an expanding universe: the sum of the distances between every
//! two of them, when each empty row and column counts many times over.

use vstd::prelude::*;
use crate::combine::{choices, combinations, lemma_choices, lists};
use crate::text::{texts, to_chars};

verus! {

/// The contents of a grid.
pub open spec fn grid(rows: Seq<Vec<char>>) -> Seq<Seq<char>> {
    rows.map_values(|r: Vec<char>| r@)
}

/// Every character of the row is a dot.
pub open spec fn is_empty_row(row: Seq<char>) -> bool {
    forall|i: int| 0 <= i < row.len() ==> #[trigger] row[i] == '.'
}

/// The rows that hold nothing but dots, by their indices in ascending order.
pub open spec fn empty_rows(rows: Seq<Seq<char>>) -> Seq<usize> {
    Seq::new(rows.len(), |i: int| i as usize).filter(|i: usize| is_empty_row(rows[i as int]))
}

/// The grid with rows and columns exchanged: as many rows as the first row
/// of the grid is wide.
pub open spec fn transposed(rows: Seq<Seq<char>>) -> Seq<Seq<char>> {
    if rows.len() == 0 {
        Seq::empty()
    } else {
        Seq::new(rows[0].len(), |i: int| Seq::new(rows.len(), |j: int| rows[j][i]))
    }
}

/// The places of the galaxies, row by row: each `#` of the grid.
pub open spec fn galaxies_upto(rows: Seq<Seq<char>>, row: int, col: int) -> Seq<(usize, usize)>
    decreases row, col,
{
    if row < 0 || row >= rows.len() || col < 0 || col > rows[row].len() {
        Seq::empty()
    } else if col == 0 {
        if row == 0 {
            Seq::empty()
        } else {
            galaxies_upto(rows, row - 1, rows[row - 1].len() as int)
        }
    } else if rows[row][col - 1] == '#' {
        galaxies_upto(rows, row, col - 1).push((row as usize, (col - 1) as usize))
    } else {
        galaxies_upto(rows, row, col - 1)
    }
}

/// The places of all galaxies of the grid.
pub open spec fn galaxies_of(rows: Seq<Seq<char>>) -> Seq<(usize, usize)> {
    if rows.len() == 0 {
        Seq::empty()
    } else {
        galaxies_upto(rows, rows.len() - 1, rows.last().len() as int)
    }
}

/// How many of the indices lie strictly between `a` and `b`.
pub open spec fn between(empties: Seq<usize>, a: usize, b: usize) -> nat {
    empties.filter(|e: usize| (a < e && e < b) || (b < e && e < a)).len()
}

/// The distance between two numbers.
pub open spec fn gap(a: usize, b: usize) -> nat {
    if a <= b {
        (b - a) as nat
    } else {
        (a - b) as nat
    }
}

/// The distance between two galaxies: the steps by rows and by columns, each
/// empty row or column between the two counted `factor` times.
pub open spec fn far(
    from: (usize, usize),
    to: (usize, usize),
    empty_cols: Seq<usize>,
    empty_rows: Seq<usize>,
    factor: nat,
) -> nat {
    (gap(from.0, to.0) + gap(from.1, to.1) + (factor - 1) * (between(empty_rows, from.0, to.0)
        + between(empty_cols, from.1, to.1))) as nat
}

/// The sum of the distances of the pairs, each pair given by the indices of
/// its two galaxies.
pub open spec fn pair_sum(
    pairs: Seq<Seq<usize>>,
    galaxies: Seq<(usize, usize)>,
    empty_cols: Seq<usize>,
    empty_rows: Seq<usize>,
    factor: nat,
) -> nat
    decreases pairs.len(),
{
    if pairs.len() == 0 {
        0
    } else {
        let p = pairs.last();
        pair_sum(pairs.drop_last(), galaxies, empty_cols, empty_rows, factor) + far(
            galaxies[p[0] as int],
            galaxies[p[1] as int],
            empty_cols,
            empty_rows,
            factor,
        )
    }
}

/// The sum of the distances between every two of the galaxies.
pub open spec fn total_distance(
    galaxies: Seq<(usize, usize)>,
    empty_cols: Seq<usize>,
    empty_rows: Seq<usize>,
    factor: nat,
) -> nat {
    pair_sum(
        choices(Seq::new(galaxies.len(), |i: int| i as usize), 2),
        galaxies,
        empty_cols,
        empty_rows,
        factor,
    )
}

/// More pairs are no less far apart in all.
pub proof fn lemma_pair_sum_grows(
    pairs: Seq<Seq<usize>>,
    k: int,
    galaxies: Seq<(usize, usize)>,
    empty_cols: Seq<usize>,
    empty_rows: Seq<usize>,
    factor: nat,
)
    requires
        0 <= k <= pairs.len(),
    ensures
        pair_sum(pairs.take(k), galaxies, empty_cols, empty_rows, factor) <= pair_sum(
            pairs,
            galaxies,
            empty_cols,
            empty_rows,
            factor,
        ),
    decreases pairs.len() - k,
{
    if k < pairs.len() {
        assert(pairs.take(k + 1).drop_last() =~= pairs.take(k));
        lemma_pair_sum_grows(pairs, k + 1, galaxies, empty_cols, empty_rows, factor);
    } else {
        assert(pairs.take(k) =~= pairs);
    }
}

/// The rows of the grid that hold nothing but dots.
pub fn empty_lines(source: &Vec<Vec<char>>) -> (empties: Vec<usize>)
    ensures
        empties@ == empty_rows(grid(source@)),
{
    let ghost rows = grid(source@);
    let ghost all = Seq::new(rows.len(), |i: int| i as usize);
    let ghost empty = |i: usize| is_empty_row(rows[i as int]);
    let mut empties: Vec<usize> = Vec::new();
    let mut k: usize = 0;
    assert(all.take(0) =~= Seq::empty());
    while k < source.len()
        invariant
            k <= source@.len(),
            rows == grid(source@),
            all == Seq::new(rows.len(), |i: int| i as usize),
            empty == |i: usize| is_empty_row(rows[i as int]),
            empties@ == all.take(k as int).filter(empty),
        decreases source@.len() - k,
    {
        let row = &source[k];
        let mut dots = true;
        let mut i: usize = 0;
        while i < row.len()
            invariant
                i <= row@.len(),
                dots <==> forall|j: int| 0 <= j < i ==> #[trigger] row@[j] == '.',
            decreases row@.len() - i,
        {
            if row[i] != '.' {
                dots = false;
            }
            i += 1;
        }
        proof {
            assert(rows[k as int] == row@);
            assert(all.take(k + 1) =~= all.take(k as int).push(k));
            all.take(k as int).lemma_filter_push(k, empty);
        }
        if dots {
            empties.push(k);
        }
        k += 1;
    }
    assert(all.take(k as int) =~= all);
    empties
}

/// The grid with rows and columns exchanged. Every row must be at least as
/// long as the first.
pub fn transpose(vec: &Vec<Vec<char>>) -> (turned: Vec<Vec<char>>)
    requires
        forall|j: int| 0 <= j < vec@.len() ==> (#[trigger] vec@[j])@.len() >= vec@[0]@.len(),
    ensures
        grid(turned@) == transposed(grid(vec@)),
{
    let mut turned: Vec<Vec<char>> = Vec::new();
    if vec.len() == 0 {
        assert(grid(turned@) =~= transposed(grid(vec@)));
        return turned;
    }
    let width = vec[0].len();
    let ghost rows = grid(vec@);
    let mut i: usize = 0;
    while i < width
        invariant
            i <= width,
            vec@.len() > 0,
            width == vec@[0]@.len(),
            rows == grid(vec@),
            forall|j: int| 0 <= j < vec@.len() ==> (#[trigger] vec@[j])@.len() >= width,
            turned@.len() == i,
            forall|c: int|
                0 <= c < i ==> (#[trigger] turned@[c])@ == Seq::new(
                    rows.len(),
                    |j: int| rows[j][c],
                ),
        decreases width - i,
    {
        let mut column: Vec<char> = Vec::new();
        let mut j: usize = 0;
        while j < vec.len()
            invariant
                j <= vec@.len(),
                i < width,
                rows == grid(vec@),
                forall|j: int| 0 <= j < vec@.len() ==> (#[trigger] vec@[j])@.len() >= width,
                column@.len() == j,
                forall|r: int| 0 <= r < j ==> column@[r] == rows[r][i as int],
            decreases vec@.len() - j,
        {
            assert(vec@[j as int]@.len() >= width);
            column.push(vec[j][i]);
            j += 1;
        }
        assert(column@ =~= Seq::new(rows.len(), |j: int| rows[j][i as int]));
        turned.push(column);
        i += 1;
    }
    assert(grid(turned@) =~= transposed(rows));
    turned
}

/// The places of the galaxies of the grid.
pub fn find_galaxies(lines: &Vec<Vec<char>>) -> (galaxies: Vec<(usize, usize)>)
    ensures
        galaxies@ == galaxies_of(grid(lines@)),
{
    let ghost rows = grid(lines@);
    let mut galaxies: Vec<(usize, usize)> = Vec::new();
    let mut idx: usize = 0;
    while idx < lines.len()
        invariant
            idx <= lines@.len(),
            rows == grid(lines@),
            galaxies@ == if idx == 0 {
                Seq::<(usize, usize)>::empty()
            } else {
                galaxies_upto(rows, idx - 1, rows[idx - 1].len() as int)
            },
        decreases lines@.len() - idx,
    {
        let row = &lines[idx];
        assert(rows[idx as int] == row@);
        let mut idy: usize = 0;
        while idy < row.len()
            invariant
                idy <= row@.len(),
                idx < lines@.len(),
                rows == grid(lines@),
                rows[idx as int] == row@,
                galaxies@ == galaxies_upto(rows, idx as int, idy as int),
            decreases row@.len() - idy,
        {
            if row[idy] == '#' {
                galaxies.push((idx, idy));
            }
            idy += 1;
        }
        idx += 1;
    }
    galaxies
}

/// How many of the indices lie strictly between `a` and `b`.
pub fn count_between(empties: &Vec<usize>, a: usize, b: usize) -> (count: usize)
    ensures
        count == between(empties@, a, b),
{
    let ghost inside = |e: usize| (a < e && e < b) || (b < e && e < a);
    let mut count: usize = 0;
    let mut i: usize = 0;
    assert(empties@.take(0) =~= Seq::empty());
    while i < empties.len()
        invariant
            i <= empties@.len(),
            inside == |e: usize| (a < e && e < b) || (b < e && e < a),
            count == empties@.take(i as int).filter(inside).len(),
            count <= i,
        decreases empties@.len() - i,
    {
        proof {
            assert(empties@.take(i + 1) =~= empties@.take(i as int).push(empties@[i as int]));
            empties@.take(i as int).lemma_filter_push(empties@[i as int], inside);
        }
        let e = empties[i];
        if (a < e && e < b) || (b < e && e < a) {
            count += 1;
        }
        i += 1;
    }
    assert(empties@.take(i as int) =~= empties@);
    count
}

/// The distance between two galaxies, or `None` where it does not fit in 128
/// bits.
pub fn pair_distance(
    from: (usize, usize),
    to: (usize, usize),
    empty_cols: &Vec<usize>,
    empty_rows: &Vec<usize>,
    explosion_factor: u64,
) -> (d: Option<u128>)
    requires
        explosion_factor >= 1,
    ensures
        match d {
            Some(d) => d == far(from, to, empty_cols@, empty_rows@, explosion_factor as nat),
            None => far(from, to, empty_cols@, empty_rows@, explosion_factor as nat) > u128::MAX,
        },
{
    let rows = if from.0 <= to.0 {
        to.0 - from.0
    } else {
        from.0 - to.0
    };
    let cols = if from.1 <= to.1 {
        to.1 - from.1
    } else {
        from.1 - to.1
    };
    let empty = count_between(empty_rows, from.0, to.0) as u128 + count_between(
        empty_cols,
        from.1,
        to.1,
    ) as u128;
    let steps = rows as u128 + cols as u128;
    match ((explosion_factor - 1) as u128).checked_mul(empty) {
        Some(extra) => steps.checked_add(extra),
        None => None,
    }
}

/// The sum of the distances between every two of the galaxies, each empty row
/// or column between two of them counted `explosion_factor` times; `None`
/// where it does not fit in 128 bits.
pub fn distance(
    galaxies: &Vec<(usize, usize)>,
    empty_cols: &Vec<usize>,
    empty_rows: &Vec<usize>,
    explosion_factor: u64,
) -> (sum: Option<u128>)
    requires
        explosion_factor >= 1,
    ensures
        match sum {
            Some(s) => s == total_distance(
                galaxies@,
                empty_cols@,
                empty_rows@,
                explosion_factor as nat,
            ),
            None => total_distance(galaxies@, empty_cols@, empty_rows@, explosion_factor as nat)
                > u128::MAX,
        },
{
    let mut indices: Vec<usize> = Vec::new();
    let mut i: usize = 0;
    while i < galaxies.len()
        invariant
            i <= galaxies@.len(),
            indices@ == Seq::new(i as nat, |i: int| i as usize),
        decreases galaxies@.len() - i,
    {
        indices.push(i);
        assert(indices@ =~= Seq::new((i + 1) as nat, |i: int| i as usize));
        i += 1;
    }
    if galaxies.len() < 2 {
        assert(choices(indices@, 2) =~= Seq::empty()) by {
            if indices@.len() == 1 {
                assert(choices(indices@.skip(1), 1) =~= Seq::empty());
                assert(choices(indices@.skip(1), 2) =~= Seq::empty());
            }
        }
        return Some(0);
    }
    let pairs = combinations(&indices, 2);
    let ghost all = lists(pairs@);
    proof {
        lemma_choices(indices@, 2);
    }
    let mut sum: u128 = 0;
    let mut k: usize = 0;
    assert(all.take(0) =~= Seq::empty());
    while k < pairs.len()
        invariant
            k <= pairs@.len(),
            explosion_factor >= 1,
            all == lists(pairs@),
            all == choices(indices@, 2),
            indices@ == Seq::new(galaxies@.len(), |i: int| i as usize),
            forall|j: int|
                0 <= j < all.len() ==> {
                    &&& (#[trigger] all[j]).len() == 2
                    &&& forall|i: int| 0 <= i < 2 ==> indices@.contains(#[trigger] all[j][i])
                },
            sum == pair_sum(
                all.take(k as int),
                galaxies@,
                empty_cols@,
                empty_rows@,
                explosion_factor as nat,
            ),
        decreases pairs@.len() - k,
    {
        let pair = &pairs[k];
        proof {
            assert(all[k as int] == pair@);
            assert(all.take(k + 1).drop_last() =~= all.take(k as int));
            assert(all.take(k + 1).last() == pair@);
            assert(indices@.contains(pair@[0]) && indices@.contains(pair@[1]));
            lemma_pair_sum_grows(
                all,
                k + 1,
                galaxies@,
                empty_cols@,
                empty_rows@,
                explosion_factor as nat,
            );
        }
        let d = match pair_distance(
            galaxies[pair[0]],
            galaxies[pair[1]],
            empty_cols,
            empty_rows,
            explosion_factor,
        ) {
            Some(d) => d,
            None => {
                return None;
            },
        };
        sum = match sum.checked_add(d) {
            Some(s) => s,
            None => {
                return None;
            },
        };
        k += 1;
    }
    assert(all.take(k as int) =~= all);
    Some(sum)
}

/// The characters of each line.
pub fn to_grid(lines: &Vec<String>) -> (rows: Vec<Vec<char>>)
    ensures
        grid(rows@) == texts(lines@),
{
    let mut rows: Vec<Vec<char>> = Vec::new();
    let mut k: usize = 0;
    while k < lines.len()
        invariant
            k <= lines@.len(),
            rows@.len() == k,
            forall|i: int| 0 <= i < k ==> (#[trigger] rows@[i])@ == lines@[i]@,
        decreases lines@.len() - k,
    {
        rows.push(to_chars(lines[k].as_str()));
        k += 1;
    }
    assert(grid(rows@) =~= texts(lines@));
    rows
}

/// No row of the grid is shorter than the first.
pub open spec fn wide_enough(rows: Seq<Seq<char>>) -> bool {
    forall|j: int| 0 <= j < rows.len() ==> (#[trigger] rows[j]).len() >= rows[0].len()
}

/// The sum of the distances between every two galaxies of the grid, each
/// empty row or column counted `factor` times.
pub open spec fn universe(rows: Seq<Seq<char>>, factor: nat) -> nat {
    total_distance(galaxies_of(rows), empty_rows(transposed(rows)), empty_rows(rows), factor)
}

/// The sum of the distances between every two galaxies, with every empty row
/// and column counted twice, and with each counted a million times. A sum is
/// `None` where it does not fit in 128 bits; there is no answer for a grid of
/// which a row is shorter than the first.
pub fn solve(lines: &Vec<String>) -> (answers: Option<(Option<u128>, Option<u128>)>)
    ensures
        match answers {
            Some((twice, million)) => {
                &&& wide_enough(texts(lines@))
                &&& match twice {
                    Some(d) => d == universe(texts(lines@), 2),
                    None => universe(texts(lines@), 2) > u128::MAX,
                }
                &&& match million {
                    Some(d) => d == universe(texts(lines@), 1000000),
                    None => universe(texts(lines@), 1000000) > u128::MAX,
                }
            },
            None => !wide_enough(texts(lines@)),
        },
{
    let rows = to_grid(lines);
    let mut j: usize = 0;
    while j < rows.len()
        invariant
            j <= rows@.len(),
            grid(rows@) == texts(lines@),
            forall|i: int| 0 <= i < j ==> (#[trigger] rows@[i])@.len() >= rows@[0]@.len(),
        decreases rows@.len() - j,
    {
        if rows[j].len() < rows[0].len() {
            assert(grid(rows@)[j as int].len() < grid(rows@)[0].len());
            return None;
        }
        j += 1;
    }
    assert(wide_enough(grid(rows@))) by {
        assert forall|i: int| 0 <= i < grid(rows@).len() implies (#[trigger] grid(rows@)[i]).len()
            >= grid(rows@)[0].len() by {
            assert(rows@[i]@.len() >= rows@[0]@.len());
        }
    }
    let empty_r = empty_lines(&rows);
    let turned = transpose(&rows);
    let empty_c = empty_lines(&turned);
    let galaxies = find_galaxies(&rows);
    let sol1 = distance(&galaxies, &empty_c, &empty_r, 2);
    let sol2 = distance(&galaxies, &empty_c, &empty_r, 1000000);
    Some((sol1, sol2))
}

} // verus!
