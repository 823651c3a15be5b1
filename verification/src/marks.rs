//! Marks on the squares of a grid, and the count of the squares that are
//! not marked yet, by which a search that marks a square at each step comes
//! to an end.
use vstd::prelude::*;

verus! {

/// What is marked, row by row. A square that is not marked is called dry.
pub open spec fn flags_of(seen: Seq<Vec<bool>>) -> Seq<Seq<bool>> {
    seen.map_values(|row: Vec<bool>| row@)
}

/// The square lies on the site and is dry.
pub open spec fn dry(site: Seq<Seq<bool>>, c: (int, int)) -> bool {
    0 <= c.0 < site.len() && 0 <= c.1 < site[c.0].len() && !site[c.0][c.1]
}

/// Every row of the site is as long as the first.
pub open spec fn rectangular(site: Seq<Seq<bool>>) -> bool {
    forall|i: int| 0 <= i < site.len() ==> (#[trigger] site[i]).len() == site[0].len()
}

/// The number of dry squares among the first `upto` of a row.
pub open spec fn dry_in_row(row: Seq<bool>, upto: int) -> int
    decreases upto,
{
    if upto <= 0 || upto > row.len() {
        0
    } else {
        dry_in_row(row, upto - 1) + if row[upto - 1] {
            0int
        } else {
            1int
        }
    }
}

/// The number of dry squares in the first `upto` rows.
pub open spec fn dry_squares(site: Seq<Seq<bool>>, upto: int) -> int
    decreases upto,
{
    if upto <= 0 || upto > site.len() {
        0
    } else {
        dry_squares(site, upto - 1) + dry_in_row(site[upto - 1], site[upto - 1].len() as int)
    }
}

/// A mark on a dry square of a row leaves one dry square fewer.
pub proof fn lemma_dry_in_row_flood(row: Seq<bool>, y: int, upto: int)
    requires
        0 <= y < row.len(),
        !row[y],
        0 <= upto <= row.len(),
    ensures
        dry_in_row(row.update(y, true), upto) == dry_in_row(row, upto) - if y < upto {
            1int
        } else {
            0int
        },
        dry_in_row(row, upto) >= if y < upto {
            1int
        } else {
            0int
        },
    decreases upto,
{
    if upto > 0 {
        lemma_dry_in_row_flood(row, y, upto - 1);
    }
}

/// A mark on a dry square of a site leaves one dry square fewer.
pub proof fn lemma_dry_squares_flood(site: Seq<Seq<bool>>, x: int, y: int, upto: int)
    requires
        dry(site, (x, y)),
        0 <= upto <= site.len(),
    ensures
        dry_squares(site.update(x, site[x].update(y, true)), upto) == dry_squares(site, upto)
            - if x < upto {
            1int
        } else {
            0int
        },
        dry_squares(site, upto) >= if x < upto {
            1int
        } else {
            0int
        },
    decreases upto,
{
    if upto > 0 {
        lemma_dry_squares_flood(site, x, y, upto - 1);
        lemma_dry_squares_nonnegative(site, upto - 1);
        if x == upto - 1 {
            lemma_dry_in_row_flood(site[x], y, site[x].len() as int);
        } else {
            lemma_dry_in_row_nonnegative(site[upto - 1], site[upto - 1].len() as int);
        }
    }
}

/// A row has no fewer dry squares than none.
pub proof fn lemma_dry_in_row_nonnegative(row: Seq<bool>, upto: int)
    ensures
        dry_in_row(row, upto) >= 0,
    decreases upto,
{
    if 0 < upto <= row.len() {
        lemma_dry_in_row_nonnegative(row, upto - 1);
    }
}

/// A site has no fewer dry squares than none.
pub proof fn lemma_dry_squares_nonnegative(site: Seq<Seq<bool>>, upto: int)
    ensures
        dry_squares(site, upto) >= 0,
    decreases upto,
{
    if 0 < upto <= site.len() {
        lemma_dry_squares_nonnegative(site, upto - 1);
        lemma_dry_in_row_nonnegative(site[upto - 1], site[upto - 1].len() as int);
    }
}

/// A site has no more dry squares than squares.
pub proof fn lemma_dry_squares_bound(site: Seq<Seq<bool>>, upto: int)
    requires
        rectangular(site),
        0 <= upto <= site.len(),
    ensures
        upto > 0 ==> dry_squares(site, upto) <= upto * site[0].len(),
        upto == 0 ==> dry_squares(site, upto) == 0,
    decreases upto,
{
    if upto > 0 {
        lemma_dry_squares_bound(site, upto - 1);
        lemma_dry_in_row_bound(site[upto - 1], site[upto - 1].len() as int);
        assert((upto - 1) * site[0].len() + site[0].len() == upto * site[0].len())
            by (nonlinear_arith);
    }
}

/// A row has no more dry squares than squares.
pub proof fn lemma_dry_in_row_bound(row: Seq<bool>, upto: int)
    requires
        0 <= upto <= row.len(),
    ensures
        dry_in_row(row, upto) <= upto,
    decreases upto,
{
    if upto > 0 {
        lemma_dry_in_row_bound(row, upto - 1);
    }
}

} // verus!
