//! A garden of plots and rocks: which plots a walk of so many steps can end
//! on, and how many there are when the garden repeats without end.
use std::collections::HashMap;
use vstd::prelude::*;
use crate::text::{texts, to_chars};
use vstd::std_specs::hash::group_hash_axioms;

verus! {

/// The length of a row of the garden. The garden is kept as one run of
/// squares, row after row.
pub const GRID_LEN: usize = 131;

/// Whether square `p` lies in the garden and holds no rock.
pub open spec fn open_at(grid: Seq<char>, p: int) -> bool {
    0 <= p < grid.len() && grid[p] != '#'
}

/// Whether one step leads from square `p` to square `q`: a row down or up,
/// or one square on or back in the run.
pub open spec fn beside(p: int, q: int) -> bool {
    q == p + GRID_LEN || q == p - GRID_LEN || q == p + 1 || q == p - 1
}

/// Whether `n` steps or fewer lead from `start` to `p` over plots.
pub open spec fn within(grid: Seq<char>, start: int, p: int, n: int) -> bool
    decreases n,
{
    if n < 0 {
        false
    } else if n == 0 {
        p == start && open_at(grid, start)
    } else {
        within(grid, start, p, n - 1) || (open_at(grid, p) && exists|d: int|
            within(grid, start, d, n - 1) && #[trigger] beside(d, p))
    }
}

/// The least number of steps, among those up to `n`, that leads to `p`.
pub open spec fn first(grid: Seq<char>, start: int, p: int, n: int) -> Option<int>
    decreases n + 1,
{
    if n < 0 {
        None
    } else {
        match first(grid, start, p, n - 1) {
            Some(k) => Some(k),
            None => if within(grid, start, p, n) {
                Some(n)
            } else {
                None
            },
        }
    }
}

/// What is noted of square `p` for a walk of `steps` steps: nothing where
/// the walk cannot reach it, else whether an even number of steps is left
/// when the walk first comes to it, so that it can end there.
pub open spec fn noted(grid: Seq<char>, start: int, p: int, steps: int) -> Option<bool> {
    match first(grid, start, p, steps) {
        Some(k) => Some((steps - k) % 2 == 0),
        None => None,
    }
}

/// The garden with `O`, written as the digit `0`, on each plot on which the
/// walk can end.
pub open spec fn painted(grid: Seq<char>, start: int, steps: int) -> Seq<char> {
    Seq::new(
        grid.len(),
        |p: int|
            if noted(grid, start, p, steps) == Some(true) {
                '0'
            } else {
                grid[p]
            },
    )
}

/// How many of the first `upto` squares the walk can end on.
pub open spec fn ends(grid: Seq<char>, start: int, steps: int, upto: int) -> int
    decreases upto,
{
    if upto <= 0 {
        0
    } else {
        ends(grid, start, steps, upto - 1) + if noted(grid, start, upto - 1, steps) == Some(
            true,
        ) {
            1int
        } else {
            0int
        }
    }
}

/// The full rows of a run of squares.
pub open spec fn chunks(flat: Seq<char>) -> Seq<Seq<char>> {
    Seq::new(
        flat.len() / GRID_LEN as nat,
        |r: int| flat.subrange(r * GRID_LEN, (r + 1) * GRID_LEN),
    )
}

/// The characters of each row.
pub open spec fn rows_of(rows: Seq<Vec<char>>) -> Seq<Seq<char>> {
    rows.map_values(|r: Vec<char>| r@)
}

/// Whether something is noted of square `p`.
pub open spec fn known(memo: Map<usize, bool>, p: int) -> bool {
    0 <= p <= usize::MAX && memo.contains_key(p as usize)
}

/// What more steps reach, fewer steps reach too, once a step has found
/// nothing new.
pub proof fn lemma_stalled(grid: Seq<char>, start: int, k: int, j: int)
    requires
        0 <= k <= j,
        forall|p: int| within(grid, start, p, k) ==> within(grid, start, p, k - 1),
    ensures
        forall|p: int| within(grid, start, p, j) ==> within(grid, start, p, k - 1),
    decreases j - k,
{
    if k < j {
        lemma_stalled(grid, start, k, j - 1);
        assert forall|p: int| within(grid, start, p, j) implies within(grid, start, p, k - 1) by {
            if !within(grid, start, p, j - 1) {
                let d = choose|d: int| within(grid, start, d, j - 1) && #[trigger] beside(d, p);
                assert(within(grid, start, d, k - 1));
                if k == 0 {
                } else {
                    assert(within(grid, start, p, k));
                }
            }
        }
    }
}

/// What fewer steps reach, more steps reach.
pub proof fn lemma_within_grows(grid: Seq<char>, start: int, p: int, k: int, j: int)
    requires
        k <= j,
        within(grid, start, p, k),
    ensures
        within(grid, start, p, j),
    decreases j - k,
{
    if k < j {
        lemma_within_grows(grid, start, p, k, j - 1);
    }
}

/// The least number of steps to a square is the same whatever the bound,
/// from the first bound that reaches it.
pub proof fn lemma_first(grid: Seq<char>, start: int, p: int, n: int)
    ensures
        first(grid, start, p, n) is Some <==> within(grid, start, p, n),
        first(grid, start, p, n) matches Some(k) ==> 0 <= k <= n && within(grid, start, p, k)
            && !within(grid, start, p, k - 1),
        first(grid, start, p, n - 1) is Some ==> first(grid, start, p, n) == first(
            grid,
            start,
            p,
            n - 1,
        ),
    decreases n + 1,
{
    if n >= 0 {
        lemma_first(grid, start, p, n - 1);
        if n >= 1 && within(grid, start, p, n - 1) {
            lemma_within_grows(grid, start, p, n - 1, n);
        }
    }
}

/// The same for two bounds that are further apart.
pub proof fn lemma_first_stays(grid: Seq<char>, start: int, p: int, k: int, j: int)
    requires
        k <= j,
        within(grid, start, p, k),
    ensures
        first(grid, start, p, j) == first(grid, start, p, k),
    decreases j - k,
{
    if k < j {
        lemma_first_stays(grid, start, p, k, j - 1);
        lemma_first(grid, start, p, j);
        lemma_first(grid, start, p, j - 1);
        lemma_within_grows(grid, start, p, k, j - 1);
    }
}

/// Whether `memo` holds what a walk has found that has taken all its steps
/// up to `k` and some of the next: every square within `k` steps, none
/// beyond `k + 1`, and for each what is to be noted of it.
pub open spec fn gathering(
    memo: Map<usize, bool>,
    grid: Seq<char>,
    start: int,
    steps: int,
    k: int,
) -> bool {
    &&& forall|p: int| within(grid, start, p, k) ==> #[trigger] known(memo, p)
    &&& forall|p: usize| #[trigger]
        memo.contains_key(p) ==> within(grid, start, p as int, k + 1) && Some(memo[p]) == noted(
            grid,
            start,
            p as int,
            steps,
        )
}

/// Whether `squares` are, each once or more, the squares that `k` steps
/// reach and fewer do not.
pub open spec fn at_level(squares: Seq<usize>, grid: Seq<char>, start: int, k: int) -> bool {
    &&& forall|i: int|
        0 <= i < squares.len() ==> within(grid, start, #[trigger] squares[i] as int, k) && !within(
            grid,
            start,
            squares[i] as int,
            k - 1,
        )
    &&& forall|p: int|
        within(grid, start, p, k) && !within(grid, start, p, k - 1) ==> exists|i: int|
            0 <= i < squares.len() && #[trigger] squares[i] == p
}

/// Takes one step from a square that `k` steps reach to the square `q`:
/// where `q` is a plot of which nothing is noted yet, it is noted and joins
/// the squares from which the next step is taken.
fn step_to(
    grid: &[char],
    memo: &mut HashMap<usize, bool>,
    next: &mut Vec<usize>,
    q: usize,
    even: bool,
    Ghost(start): Ghost<int>,
    Ghost(steps): Ghost<int>,
    Ghost(k): Ghost<int>,
)
    requires
        0 <= k < steps,
        q < grid@.len(),
        even == ((steps - (k + 1)) % 2 == 0),
        gathering(old(memo)@, grid@, start, steps, k),
        exists|d: int| within(grid@, start, d, k) && #[trigger] beside(d, q as int),
        forall|i: int|
            0 <= i < old(next)@.len() ==> within(grid@, start, #[trigger] old(next)@[i] as int, k + 1)
                && !within(grid@, start, old(next)@[i] as int, k),
        forall|p: usize| #[trigger]
            old(memo)@.contains_key(p) && !within(grid@, start, p as int, k) ==> exists|i: int|
                0 <= i < old(next)@.len() && #[trigger] old(next)@[i] == p,
    ensures
        gathering(final(memo)@, grid@, start, steps, k),
        forall|p: usize| old(memo)@.contains_key(p) ==> final(memo)@.contains_key(p),
        open_at(grid@, q as int) ==> final(memo)@.contains_key(q),
        forall|i: int|
            0 <= i < final(next)@.len() ==> within(
                grid@,
                start,
                #[trigger] final(next)@[i] as int,
                k + 1,
            ) && !within(grid@, start, final(next)@[i] as int, k),
        forall|p: usize| #[trigger]
            final(memo)@.contains_key(p) && !within(grid@, start, p as int, k) ==> exists|i: int|
                0 <= i < final(next)@.len() && #[trigger] final(next)@[i] == p,
{
    broadcast use group_hash_axioms;

    if grid[q] == '#' {
        return ;
    }
    if memo.contains_key(&q) {
        return ;
    }
    let ghost before = memo@;
    let ghost queued = next@;
    memo.insert(q, even);
    next.push(q);
    proof {
        assert(within(grid@, start, q as int, k + 1));
        if within(grid@, start, q as int, k) {
            assert(known(before, q as int));
        }
        lemma_first(grid@, start, q as int, k + 1);
        lemma_first(grid@, start, q as int, k);
        lemma_first_stays(grid@, start, q as int, k + 1, steps);
        assert forall|p: int| within(grid@, start, p, k) implies #[trigger] known(memo@, p) by {
            assert(known(before, p));
        }
        assert forall|i: int| 0 <= i < next@.len() implies within(
            grid@,
            start,
            #[trigger] next@[i] as int,
            k + 1,
        ) && !within(grid@, start, next@[i] as int, k) by {
            if i < queued.len() {
                assert(next@[i] == queued[i]);
            }
        }
        assert forall|p: usize| #[trigger]
            memo@.contains_key(p) && !within(grid@, start, p as int, k) implies exists|i: int|
            0 <= i < next@.len() && #[trigger] next@[i] == p by {
            if p == q {
                assert(next@[queued.len() as int] == p);
            } else {
                assert(before.contains_key(p));
                let i = choose|i: int| 0 <= i < queued.len() && #[trigger] queued[i] == p;
                assert(next@[i] == p);
            }
        }
    }
}

/// Takes the four steps that lead on from the square `p`.
fn spread(
    grid: &[char],
    memo: &mut HashMap<usize, bool>,
    next: &mut Vec<usize>,
    p: usize,
    even: bool,
    Ghost(start): Ghost<int>,
    Ghost(steps): Ghost<int>,
    Ghost(k): Ghost<int>,
)
    requires
        0 <= k < steps,
        p < grid@.len(),
        within(grid@, start, p as int, k),
        even == ((steps - (k + 1)) % 2 == 0),
        gathering(old(memo)@, grid@, start, steps, k),
        forall|i: int|
            0 <= i < old(next)@.len() ==> within(grid@, start, #[trigger] old(next)@[i] as int, k + 1)
                && !within(grid@, start, old(next)@[i] as int, k),
        forall|p: usize| #[trigger]
            old(memo)@.contains_key(p) && !within(grid@, start, p as int, k) ==> exists|i: int|
                0 <= i < old(next)@.len() && #[trigger] old(next)@[i] == p,
    ensures
        gathering(final(memo)@, grid@, start, steps, k),
        forall|q: usize| old(memo)@.contains_key(q) ==> final(memo)@.contains_key(q),
        forall|q: int| #[trigger] beside(p as int, q) && open_at(grid@, q) ==> known(final(memo)@, q),
        forall|i: int|
            0 <= i < final(next)@.len() ==> within(
                grid@,
                start,
                #[trigger] final(next)@[i] as int,
                k + 1,
            ) && !within(grid@, start, final(next)@[i] as int, k),
        forall|p: usize| #[trigger]
            final(memo)@.contains_key(p) && !within(grid@, start, p as int, k) ==> exists|i: int|
                0 <= i < final(next)@.len() && #[trigger] final(next)@[i] == p,
{
    let n = grid.len();
    if n >= GRID_LEN && p < n - GRID_LEN {
        assert(beside(p as int, p + GRID_LEN));
        step_to(grid, memo, next, p + GRID_LEN, even, Ghost(start), Ghost(steps), Ghost(k));
    }
    let ghost m1 = memo@;
    if p >= GRID_LEN {
        assert(beside(p as int, p - GRID_LEN));
        step_to(grid, memo, next, p - GRID_LEN, even, Ghost(start), Ghost(steps), Ghost(k));
    }
    let ghost m2 = memo@;
    if p + 1 < n {
        assert(beside(p as int, p + 1));
        step_to(grid, memo, next, p + 1, even, Ghost(start), Ghost(steps), Ghost(k));
    }
    let ghost m3 = memo@;
    if p >= 1 {
        assert(beside(p as int, p - 1));
        step_to(grid, memo, next, (p - 1) as usize, even, Ghost(start), Ghost(steps), Ghost(k));
    }
    proof {
        assert forall|q: int| #[trigger] beside(p as int, q) && open_at(grid@, q) implies known(
            memo@,
            q,
        ) by {
            if q == p + GRID_LEN {
                assert(m1.contains_key(q as usize));
                assert(m2.contains_key(q as usize));
                assert(m3.contains_key(q as usize));
            } else if q == p - GRID_LEN {
                assert(m2.contains_key(q as usize));
                assert(m3.contains_key(q as usize));
            } else if q == p + 1 {
                assert(m3.contains_key(q as usize));
            } else {
                assert(memo@.contains_key(q as usize));
            }
        }
        assert forall|q: usize| old(memo)@.contains_key(q) implies memo@.contains_key(q) by {
            assert(m1.contains_key(q));
            assert(m2.contains_key(q));
            assert(m3.contains_key(q));
        }
    }
}

/// Walks `steps` steps from `start_point` over the plots of the garden.
/// Returns the number of plots on which the walk can end, and the garden
/// in rows with those plots painted.
pub fn solve_iterative(grid: &[char], start_point: i32, steps: i32) -> (found: (u64, Vec<Vec<char>>))
    ensures
        found.0 == ends(grid@, start_point as int, steps as int, grid@.len() as int),
        rows_of(found.1@) == chunks(painted(grid@, start_point as int, steps as int)),
{
    broadcast use group_hash_axioms;

    let ghost start = start_point as int;
    let n = grid.len();
    let mut memo: HashMap<usize, bool> = HashMap::new();
    let mut frontier: Vec<usize> = Vec::new();
    if steps >= 0 && start_point >= 0 && (start_point as usize) < n && grid[start_point as usize]
        != '#' {
        frontier.push(start_point as usize);
        memo.insert(start_point as usize, steps % 2 == 0);
        proof {
            lemma_first(grid@, start, start, 0);
            lemma_first_stays(grid@, start, start, 0, steps as int);
            assert(frontier@[0] == start);
        }
    }
    let mut k: i32 = if steps < 0 {
        steps
    } else {
        0
    };
    proof {
        assert forall|p: usize| #[trigger] memo@.contains_key(p) implies within(
            grid@,
            start,
            p as int,
            k as int,
        ) && within(grid@, start, p as int, k + 1) by {}
        assert forall|p: int| within(grid@, start, p, k as int) implies #[trigger] known(
            memo@,
            p,
        ) by {}
    }
    while frontier.len() > 0 && k < steps
        invariant
            n == grid@.len(),
            start == start_point as int,
            k <= steps,
            steps >= 0 ==> k >= 0,
            steps < 0 ==> k == steps,
            gathering(memo@, grid@, start, steps as int, k as int),
            forall|p: usize| #[trigger] memo@.contains_key(p) ==> within(grid@, start, p as int, k as int),
            at_level(frontier@, grid@, start, k as int),
        decreases steps - k,
    {
        let mut next: Vec<usize> = Vec::new();
        let even = (steps - (k + 1)) % 2 == 0;
        let mut i: usize = 0;
        while i < frontier.len()
            invariant
                n == grid@.len(),
                0 <= k < steps,
                i <= frontier@.len(),
                even == ((steps - (k + 1)) % 2 == 0),
                gathering(memo@, grid@, start, steps as int, k as int),
                at_level(frontier@, grid@, start, k as int),
                forall|j: int, q: int|
                    0 <= j < i && #[trigger] beside(frontier@[j] as int, q) && open_at(grid@, q)
                        ==> #[trigger] known(memo@, q),
                forall|j: int|
                    0 <= j < next@.len() ==> within(grid@, start, #[trigger] next@[j] as int, k + 1)
                        && !within(grid@, start, next@[j] as int, k as int),
                forall|p: usize| #[trigger]
                    memo@.contains_key(p) && !within(grid@, start, p as int, k as int)
                        ==> exists|j: int| 0 <= j < next@.len() && #[trigger] next@[j] == p,
            decreases frontier@.len() - i,
        {
            let p = frontier[i];
            assert(within(grid@, start, p as int, k as int));
            assert(open_at(grid@, p as int)) by {
                lemma_within_open(grid@, start, p as int, k as int);
            }
            let ghost before = memo@;
            spread(grid, &mut memo, &mut next, p, even, Ghost(start), Ghost(steps as int), Ghost(k as int));
            proof {
                assert forall|j: int, q: int|
                    0 <= j < i + 1 && #[trigger] beside(frontier@[j] as int, q) && open_at(
                        grid@,
                        q,
                    ) implies #[trigger] known(memo@, q) by {
                    if j < i {
                        assert(known(before, q));
                    }
                }
            }
            i += 1;
        }
        proof {
            assert forall|p: int| within(grid@, start, p, k + 1) implies #[trigger] known(
                memo@,
                p,
            ) by {
                if within(grid@, start, p, k as int) {
                } else {
                    let d = choose|d: int| within(grid@, start, d, k as int) && #[trigger] beside(d, p);
                    if within(grid@, start, d, k - 1) {
                        if k == 0 {
                        } else {
                            assert(within(grid@, start, p, k as int));
                        }
                    } else {
                        let j = choose|j: int|
                            0 <= j < frontier@.len() && #[trigger] frontier@[j] == d;
                        assert(beside(frontier@[j] as int, p));
                    }
                }
            }
            assert(at_level(next@, grid@, start, k + 1)) by {
                assert forall|p: int|
                    within(grid@, start, p, k + 1) && !within(grid@, start, p, k as int) implies exists|
                    j: int,
                | 0 <= j < next@.len() && #[trigger] next@[j] == p by {
                    assert(known(memo@, p));
                    assert(memo@.contains_key(p as usize));
                }
            }
            assert forall|p: usize| #[trigger] memo@.contains_key(p) implies within(
                grid@,
                start,
                p as int,
                k + 2,
            ) by {
                lemma_within_grows(grid@, start, p as int, k + 1, k + 2);
            }
        }
        frontier = next;
        k += 1;
    }
    proof {
        assert forall|p: int| within(grid@, start, p, steps as int) implies #[trigger] known(
            memo@,
            p,
        ) by {
            if k < steps {
                assert(frontier@.len() == 0);
                assert forall|q: int| within(grid@, start, q, k as int) implies within(
                    grid@,
                    start,
                    q,
                    k - 1,
                ) by {
                    if !within(grid@, start, q, k - 1) {
                        let j = choose|j: int| 0 <= j < frontier@.len() && #[trigger] frontier@[j] == q;
                    }
                }
                lemma_stalled(grid@, start, k as int, steps as int);
                assert(within(grid@, start, p, k - 1));
                lemma_within_grows(grid@, start, p, k - 1, k as int);
            }
        }
    }
    let mut rows: Vec<Vec<char>> = Vec::new();
    let mut vec: Vec<char> = Vec::new();
    let mut count: u64 = 0;
    let mut idc: usize = 0;
    let ghost paint = painted(grid@, start, steps as int);
    while idc < n
        invariant
            n == grid@.len(),
            idc <= n,
            start == start_point as int,
            paint == painted(grid@, start, steps as int),
            forall|p: int| within(grid@, start, p, steps as int) ==> #[trigger] known(memo@, p),
            forall|p: usize| #[trigger]
                memo@.contains_key(p) ==> Some(memo@[p]) == noted(grid@, start, p as int, steps as int),
            count == ends(grid@, start, steps as int, idc as int),
            count <= idc,
            idc == rows@.len() * GRID_LEN + vec@.len(),
            vec@.len() < GRID_LEN,
            vec@ == paint.subrange(rows@.len() * GRID_LEN, idc as int),
            forall|r: int|
                0 <= r < rows@.len() ==> (#[trigger] rows@[r])@ == paint.subrange(
                    r * GRID_LEN,
                    (r + 1) * GRID_LEN,
                ),
        decreases n - idc,
    {
        let ghost before = vec@;
        proof {
            lemma_first(grid@, start, idc as int, steps as int);
            if noted(grid@, start, idc as int, steps as int) is Some {
                assert(known(memo@, idc as int));
            }
        }
        let hit = match memo.get(&idc) {
            Some(r) => *r,
            None => false,
        };
        if hit {
            vec.push('0');
            count += 1;
        } else {
            vec.push(grid[idc]);
        }
        assert(vec@ =~= paint.subrange(rows@.len() * GRID_LEN, idc + 1));
        if vec.len() == GRID_LEN {
            rows.push(vec);
            vec = Vec::new();
            assert(vec@ =~= paint.subrange(rows@.len() * GRID_LEN, idc + 1));
        }
        idc += 1;
    }
    proof {
        assert(rows_of(rows@) =~= chunks(paint)) by {
            assert(rows@.len() == n / GRID_LEN);
        }
    }
    (count, rows)
}

/// A square that the walk reaches is a plot.
pub proof fn lemma_within_open(grid: Seq<char>, start: int, p: int, n: int)
    requires
        within(grid, start, p, n),
    ensures
        open_at(grid, p),
    decreases n,
{
    if n > 0 && within(grid, start, p, n - 1) {
        lemma_within_open(grid, start, p, n - 1);
    }
}

/// How many of the squares of a row from column `from` up to column `to`
/// are painted.
pub open spec fn zeros(row: Seq<char>, from: int, to: int) -> int
    decreases to - from,
{
    if to <= from {
        0
    } else {
        zeros(row, from, to - 1) + if row[to - 1] == '0' {
            1int
        } else {
            0int
        }
    }
}

/// A stretch of a row holds as many painted squares as the row up to its
/// end less the row up to its start, and no more than it has squares.
pub proof fn lemma_zeros(row: Seq<char>, from: int, to: int)
    requires
        0 <= from <= to,
    ensures
        zeros(row, from, to) == zeros(row, 0, to) - zeros(row, 0, from),
        0 <= zeros(row, from, to) <= to - from,
    decreases to - from,
{
    if from < to {
        lemma_zeros(row, from, to - 1);
    }
}

/// Whether a garden has `GRID_LEN` rows of `GRID_LEN` squares, or more.
pub open spec fn usable(grid: Seq<Seq<char>>) -> bool {
    grid.len() >= GRID_LEN && forall|r: int| 0 <= r < GRID_LEN ==> (#[trigger] grid[r]).len() >= GRID_LEN
}

/// For two painted gardens, the number of painted squares in each row up to
/// each column, so that a stretch of a row is counted at once.
pub struct HitsMemo {
    even: Vec<Vec<u32>>,
    odd: Vec<Vec<u32>>,
}

/// Whether `table` holds, for each of the first `GRID_LEN` rows of the
/// garden and each column up to `GRID_LEN`, the painted squares before it.
pub open spec fn tabled(table: Seq<Vec<u32>>, grid: Seq<Seq<char>>) -> bool {
    &&& table.len() == GRID_LEN
    &&& forall|r: int| 0 <= r < GRID_LEN ==> (#[trigger] table[r])@.len() == GRID_LEN + 1
    &&& forall|r: int, c: int|
        0 <= r < GRID_LEN && 0 <= c <= GRID_LEN ==> (#[trigger] table[r]@[c]) == zeros(
            grid[r],
            0,
            c,
        )
}

/// The table of one garden.
fn table_of(grid: &Vec<Vec<char>>) -> (table: Vec<Vec<u32>>)
    requires
        usable(rows_of(grid@)),
    ensures
        tabled(table@, rows_of(grid@)),
{
    let ghost g = rows_of(grid@);
    let mut table: Vec<Vec<u32>> = Vec::new();
    let mut r: usize = 0;
    while r < GRID_LEN
        invariant
            r <= GRID_LEN,
            g == rows_of(grid@),
            usable(g),
            table@.len() == r,
            forall|i: int| 0 <= i < r ==> (#[trigger] table@[i])@.len() == GRID_LEN + 1,
            forall|i: int, c: int|
                0 <= i < r && 0 <= c <= GRID_LEN ==> (#[trigger] table@[i]@[c]) == zeros(g[i], 0, c),
        decreases GRID_LEN - r,
    {
        assert(g[r as int] == grid@[r as int]@);
        assert(g[r as int].len() >= GRID_LEN);
        let row = &grid[r];
        let mut counts: Vec<u32> = Vec::new();
        counts.push(0);
        let mut c: usize = 0;
        while c < GRID_LEN
            invariant
                c <= GRID_LEN,
                row@.len() >= GRID_LEN,
                counts@.len() == c + 1,
                forall|j: int| 0 <= j <= c ==> (#[trigger] counts@[j]) == zeros(row@, 0, j),
                counts@[c as int] <= c,
            decreases GRID_LEN - c,
        {
            let so_far = counts[c];
            if row[c] == '0' {
                counts.push(so_far + 1);
            } else {
                counts.push(so_far);
            }
            c += 1;
        }
        table.push(counts);
        r += 1;
    }
    table
}

impl HitsMemo {
    /// Whether the tables are those of the two gardens.
    pub closed spec fn remembers(&self, even: Seq<Seq<char>>, odd: Seq<Seq<char>>) -> bool {
        tabled(self.even@, even) && tabled(self.odd@, odd)
    }

    /// Counts the painted squares of two gardens.
    pub fn new(grid_even: &Vec<Vec<char>>, grid_odd: &Vec<Vec<char>>) -> (memo: HitsMemo)
        requires
            usable(rows_of(grid_even@)),
            usable(rows_of(grid_odd@)),
        ensures
            memo.remembers(rows_of(grid_even@), rows_of(grid_odd@)),
    {
        HitsMemo { even: table_of(grid_even), odd: table_of(grid_odd) }
    }
}

/// The painted squares of row `row` from column `row_from` up to column
/// `row_to`, in the one garden or in the other.
pub open spec fn hits(
    grid_even: Seq<Seq<char>>,
    grid_odd: Seq<Seq<char>>,
    even: bool,
    row: int,
    row_from: int,
    row_to: int,
) -> int {
    zeros(
        if even {
            grid_even[row]
        } else {
            grid_odd[row]
        },
        row_from,
        row_to,
    )
}

/// Looks the painted squares of a stretch of a row up.
pub fn get_hits_memo(
    grid_even: &Vec<Vec<char>>,
    grid_odd: &Vec<Vec<char>>,
    even: bool,
    row: i32,
    row_from: i32,
    row_to: i32,
    memo: &HitsMemo,
) -> (count: i64)
    requires
        memo.remembers(rows_of(grid_even@), rows_of(grid_odd@)),
        0 <= row < GRID_LEN,
        0 <= row_from <= row_to <= GRID_LEN,
    ensures
        count == hits(
            rows_of(grid_even@),
            rows_of(grid_odd@),
            even,
            row as int,
            row_from as int,
            row_to as int,
        ),
        0 <= count <= row_to - row_from,
{
    let table = if even {
        &memo.even
    } else {
        &memo.odd
    };
    let ghost line = if even {
        rows_of(grid_even@)[row as int]
    } else {
        rows_of(grid_odd@)[row as int]
    };
    proof {
        lemma_zeros(line, row_from as int, row_to as int);
    }
    let counts = &table[row as usize];
    let upto = counts[row_to as usize];
    let before = counts[row_from as usize];
    (upto - before) as i64
}

/// The plots of `num_lengths` whole gardens to either side of a row: the
/// lesser half of them to each side is painted as the garden of the start
/// is, with `full` plots in this row, the others the other way, with
/// `full_other`.
pub open spec fn whole_gardens(num_lengths: int, full: int, full_other: int) -> int {
    (num_lengths / 2) * 2 * full + (num_lengths - num_lengths / 2) * 2 * full_other
}

/// The plots of one row of the endless garden that the walk can end on:
/// row `i` counted from the row of the start, `row_mid`. The row is cut
/// into the stretch beside the start, the whole gardens to either side of
/// it, which are painted in turn the one way and the other, and what is
/// left of a garden at either end.
pub open spec fn row_plots(
    row_mid: int,
    steps: int,
    i: int,
    odd: Seq<Seq<char>>,
    even: Seq<Seq<char>>,
) -> int {
    let len = GRID_LEN as int;
    let away = if i < 0 {
        -i
    } else {
        i
    };
    let synth_row = (row_mid + i) % len;
    let flipped = ((row_mid + away) / len) % 2 == 0;
    let offset = steps - away;
    let reach = row_mid + offset;
    let right_to = if reach <= len - 1 {
        reach + 1
    } else {
        len
    };
    let left_from = if row_mid - offset < 0 {
        0
    } else {
        row_mid - offset
    };
    let over = reach - right_to;
    let num_lengths = if over < 0 {
        0
    } else {
        over / len
    };
    let rem = 1 + if over < 0 {
        (-over) % len
    } else {
        over % len
    };
    let use_even_grid = (num_lengths % 2 == 0) != flipped;
    let whole = whole_gardens(
        num_lengths,
        hits(even, odd, flipped, synth_row, 0, len),
        hits(even, odd, !flipped, synth_row, 0, len),
    );
    let beside_start = hits(even, odd, flipped, synth_row, row_mid, right_to) + hits(
        even,
        odd,
        flipped,
        synth_row,
        left_from,
        row_mid,
    );
    let ends = if reach >= len {
        hits(even, odd, use_even_grid, synth_row, 0, rem) + hits(
            even,
            odd,
            use_even_grid,
            synth_row,
            len - rem,
            len,
        )
    } else {
        0
    };
    beside_start + ends + whole
}

/// The plots of the first `n` rows, from the furthest row above the start.
pub open spec fn rows_plots(
    row_mid: int,
    steps: int,
    odd: Seq<Seq<char>>,
    even: Seq<Seq<char>>,
    n: int,
) -> int
    decreases n,
{
    if n <= 0 {
        0
    } else {
        rows_plots(row_mid, steps, odd, even, n - 1) + row_plots(
            row_mid,
            steps,
            n - 1 - steps,
            odd,
            even,
        )
    }
}

/// The plots of the endless garden that a walk of `steps` steps can end on,
/// counted from two painted gardens. A walk of fewer than no steps ends
/// nowhere. There is no count where a garden is not usable, where the start
/// lies below row `GRID_LEN`, or where the walk leaves 32 bits.
pub open spec fn plots(
    row_mid: int,
    steps: int,
    odd: Seq<Seq<char>>,
    even: Seq<Seq<char>>,
) -> Option<int> {
    if steps == i32::MIN {
        None
    } else if steps < 0 {
        Some(0)
    } else if usable(odd) && usable(even) && row_mid <= GRID_LEN && row_mid + steps <= i32::MAX {
        Some(rows_plots(row_mid, steps, odd, even, 2 * steps + 1))
    } else {
        None
    }
}

/// Whether a garden is usable.
pub fn is_usable(grid: &Vec<Vec<char>>) -> (yes: bool)
    ensures
        yes == usable(rows_of(grid@)),
{
    if grid.len() < GRID_LEN {
        return false;
    }
    let mut r: usize = 0;
    while r < GRID_LEN
        invariant
            r <= GRID_LEN <= grid@.len(),
            forall|i: int| 0 <= i < r ==> (#[trigger] rows_of(grid@)[i]).len() >= GRID_LEN,
        decreases GRID_LEN - r,
    {
        assert(rows_of(grid@)[r as int] == grid@[r as int]@);
        if grid[r].len() < GRID_LEN {
            return false;
        }
        r += 1;
    }
    true
}

/// The row of the garden that row `c - far` from the start falls on.
fn wrapped_row(row_mid: u64, far: u64, c: u64) -> (row: u64)
    requires
        row_mid <= GRID_LEN,
        far <= 0x7fff_ffff,
        c <= 2 * far,
    ensures
        row == (row_mid + c - far) % (GRID_LEN as int),
        row < GRID_LEN,
{
    let len: u64 = GRID_LEN as u64;
    if c >= far {
        (row_mid + (c - far)) % len
    } else if far - c <= row_mid {
        (row_mid - (far - c)) % len
    } else {
        let m = (far - c - row_mid) % len;
        if m == 0 {
            0
        } else {
            len - m
        }
    }
}

/// Counts the plots of whole gardens.
fn whole_count(num_lengths: u64, full: i64, full_other: i64) -> (whole: u64)
    requires
        num_lengths <= 0x200_0000,
        0 <= full <= GRID_LEN,
        0 <= full_other <= GRID_LEN,
    ensures
        whole == whole_gardens(num_lengths as int, full as int, full_other as int),
        whole <= 0x2_1000_0000,
{
    let use_current: u64 = num_lengths / 2;
    let use_inverse: u64 = num_lengths - use_current;
    assert(0 <= use_current * 2 * full <= 0x200_0000 * 131) by (nonlinear_arith)
        requires
            0 <= use_current * 2 <= 0x200_0000,
            0 <= full <= 131,
    ;
    assert(0 <= use_inverse * 2 * full_other <= 0x200_0002 * 131) by (nonlinear_arith)
        requires
            0 <= use_inverse * 2 <= 0x200_0002,
            0 <= full_other <= 131,
    ;
    use_current * 2 * (full as u64) + use_inverse * 2 * (full_other as u64)
}

/// Counts the plots of the row that is `c - far` rows from the start.
fn row_count(
    row_mid: u64,
    far: u64,
    c: u64,
    odd: &Vec<Vec<char>>,
    even: &Vec<Vec<char>>,
    memo: &HitsMemo,
) -> (count: u64)
    requires
        row_mid <= GRID_LEN,
        row_mid + far <= 0x7fff_ffff,
        c <= 2 * far,
        memo.remembers(rows_of(even@), rows_of(odd@)),
    ensures
        count == row_plots(row_mid as int, far as int, c - far, rows_of(odd@), rows_of(even@)),
        count <= 0x3_0000_0000,
{
    let ghost o = rows_of(odd@);
    let ghost e = rows_of(even@);
    let len: u64 = GRID_LEN as u64;
    let away: u64 = if c < far {
        far - c
    } else {
        c - far
    };
    let row = wrapped_row(row_mid, far, c) as i32;
    let flipped = ((row_mid + away) / len) % 2 == 0;
    let offset: u64 = far - away;
    let reach: u64 = row_mid + offset;
    let left_from: u64 = if offset > row_mid {
        0
    } else {
        row_mid - offset
    };
    let left_hits = get_hits_memo(even, odd, flipped, row, left_from as i32, row_mid as i32, memo);
    if reach <= len - 1 {
        let right_hits = get_hits_memo(
            even,
            odd,
            flipped,
            row,
            row_mid as i32,
            (reach + 1) as i32,
            memo,
        );
        assert(whole_gardens(
            0,
            hits(e, o, flipped, row as int, 0, GRID_LEN as int),
            hits(e, o, !flipped, row as int, 0, GRID_LEN as int),
        ) == 0) by (nonlinear_arith);
        (right_hits + left_hits) as u64
    } else {
        let right_hits = get_hits_memo(even, odd, flipped, row, row_mid as i32, len as i32, memo);
        let over: u64 = reach - len;
        let num_lengths: u64 = over / len;
        let rem: u64 = 1 + over % len;
        let use_even_grid = (num_lengths % 2 == 0) != flipped;
        let full = get_hits_memo(even, odd, flipped, row, 0, len as i32, memo);
        let full_other = get_hits_memo(even, odd, !flipped, row, 0, len as i32, memo);
        let whole = whole_count(num_lengths, full, full_other);
        let remainder_right = get_hits_memo(even, odd, use_even_grid, row, 0, rem as i32, memo);
        let remainder_left = get_hits_memo(
            even,
            odd,
            use_even_grid,
            row,
            (len - rem) as i32,
            len as i32,
            memo,
        );
        whole + (right_hits + remainder_right + left_hits + remainder_left) as u64
    }
}

/// Counts the plots of the endless garden row by row.
pub fn solve_pt2(
    start_point: (usize, usize),
    steps: i32,
    odd: &Vec<Vec<char>>,
    even: &Vec<Vec<char>>,
) -> (count: Option<u128>)
    ensures
        match count {
            Some(v) => plots(start_point.0 as int, steps as int, rows_of(odd@), rows_of(even@))
                == Some(v as int),
            None => plots(start_point.0 as int, steps as int, rows_of(odd@), rows_of(even@))
                is None,
        },
{
    if steps == i32::MIN {
        return None;
    }
    if steps < 0 {
        return Some(0);
    }
    if !is_usable(odd) || !is_usable(even) || start_point.0 > GRID_LEN || start_point.0 as u64
        + steps as u64 > 0x7fff_ffff {
        return None;
    }
    let ghost o = rows_of(odd@);
    let ghost e = rows_of(even@);
    let memo = HitsMemo::new(even, odd);
    let row_mid: u64 = start_point.0 as u64;
    let far: u64 = steps as u64;
    let mut count: u128 = 0;
    let mut c: u64 = 0;
    while c <= 2 * far
        invariant
            c <= 2 * far + 1,
            far == steps,
            row_mid == start_point.0,
            row_mid <= GRID_LEN,
            row_mid + far <= 0x7fff_ffff,
            o == rows_of(odd@),
            e == rows_of(even@),
            memo.remembers(e, o),
            count == rows_plots(row_mid as int, steps as int, o, e, c as int),
            count <= c * 0x3_0000_0000,
        decreases 2 * far + 1 - c,
    {
        let here = row_count(row_mid, far, c, odd, even, &memo);
        count += here as u128;
        c += 1;
    }
    Some(count)
}

/// The squares of the first `upto` rows, as one run.
pub open spec fn flat(rows: Seq<Seq<char>>, upto: int) -> Seq<char>
    decreases upto,
{
    if upto <= 0 {
        Seq::empty()
    } else {
        flat(rows, upto - 1) + rows[upto - 1]
    }
}

/// The first square at or after `from` that is marked `S`.
pub open spec fn start_of(squares: Seq<char>, from: int) -> Option<int>
    decreases squares.len() - from,
{
    if from < 0 || from >= squares.len() {
        None
    } else if squares[from] == 'S' {
        Some(from)
    } else {
        start_of(squares, from + 1)
    }
}

/// The first row at or after `from` that holds a square marked `S`; row 0
/// where there is none.
pub open spec fn start_row(rows: Seq<Seq<char>>, from: int) -> int
    decreases rows.len() - from,
{
    if from < 0 || from >= rows.len() {
        0
    } else if start_of(rows[from], 0) is Some {
        from
    } else {
        start_row(rows, from + 1)
    }
}

/// The steps of the short walk.
pub const SHORT_WALK: i32 = 64;

/// The steps after which the whole garden is painted.
pub const FILL_WALK: i32 = 130;

/// The steps of the long walk.
pub const LONG_WALK: i32 = 26501365;

/// Both answers for a garden: the plots that the short walk can end on,
/// and those of the endless garden that the long walk can end on, counted
/// from the garden painted from its start and painted from the square
/// before it. There are none unless the garden has `GRID_LEN` times
/// `GRID_LEN` squares, one of them marked `S`.
pub open spec fn answers(lines: Seq<Seq<char>>) -> Option<(int, int)> {
    let garden = flat(lines, lines.len() as int);
    match start_of(garden, 0) {
        Some(start) => if garden.len() == GRID_LEN * GRID_LEN {
            match plots(
                start_row(lines, 0),
                LONG_WALK as int,
                chunks(painted(garden, start, FILL_WALK as int)),
                chunks(painted(garden, start - 1, FILL_WALK as int)),
            ) {
                Some(far) => Some(
                    (ends(garden, start, SHORT_WALK as int, garden.len() as int), far),
                ),
                None => None,
            }
        } else {
            None
        },
        None => None,
    }
}

/// Finds the first square marked `S`.
pub fn find_start(squares: &Vec<char>) -> (at: Option<usize>)
    ensures
        match at {
            Some(i) => start_of(squares@, 0) == Some(i as int) && i < squares@.len(),
            None => start_of(squares@, 0) is None,
        },
{
    let mut i: usize = 0;
    while i < squares.len()
        invariant
            i <= squares@.len(),
            start_of(squares@, 0) == start_of(squares@, i as int),
        decreases squares@.len() - i,
    {
        if squares[i] == 'S' {
            return Some(i);
        }
        i += 1;
    }
    None
}

/// Both answers for the lines of a garden.
pub fn solve(lines: &Vec<String>) -> (found: Option<(u64, u128)>)
    ensures
        match found {
            Some(f) => answers(texts(lines@)) == Some((f.0 as int, f.1 as int)),
            None => answers(texts(lines@)) is None,
        },
{
    let ghost text = texts(lines@);
    let mut garden: Vec<char> = Vec::new();
    let mut row_of_start: Option<usize> = None;
    let mut r: usize = 0;
    while r < lines.len()
        invariant
            r <= lines@.len(),
            text == texts(lines@),
            garden@ == flat(text, r as int),
            match row_of_start {
                Some(i) => i < r && start_row(text, 0) == i,
                None => start_row(text, 0) == start_row(text, r as int),
            },
        decreases lines@.len() - r,
    {
        assert(text[r as int] == lines@[r as int]@);
        let row = to_chars(lines[r].as_str());
        if row_of_start.is_none() && find_start(&row).is_some() {
            row_of_start = Some(r);
        }
        let mut c: usize = 0;
        let ghost before = garden@;
        while c < row.len()
            invariant
                c <= row@.len(),
                garden@ == before + row@.take(c as int),
            decreases row@.len() - c,
        {
            garden.push(row[c]);
            assert(row@.take(c + 1) =~= row@.take(c as int).push(row@[c as int]));
            c += 1;
        }
        assert(row@.take(row@.len() as int) =~= row@);
        r += 1;
    }
    let start_point: (usize, usize) = match row_of_start {
        Some(i) => (i, 0),
        None => (0, 0),
    };
    if garden.len() != GRID_LEN * GRID_LEN {
        return None;
    }
    let start: i32 = match find_start(&garden) {
        Some(i) => i as i32,
        None => {
            return None;
        },
    };
    let sol1 = solve_iterative(garden.as_slice(), start, SHORT_WALK);
    let even = solve_iterative(garden.as_slice(), start, FILL_WALK);
    let odd = solve_iterative(garden.as_slice(), start - 1, FILL_WALK);
    match solve_pt2(start_point, LONG_WALK, &even.1, &odd.1) {
        Some(sol2) => Some((sol1.0, sol2)),
        None => None,
    }
}

} // verus!
