//! A crucible that is pushed over city blocks: the least heat that it
//! loses on its way to the far corner.
use crate::marks::{
    dry, dry_squares, flags_of, lemma_dry_squares_flood, lemma_dry_squares_nonnegative,
};
use vstd::arithmetic::div_mod::lemma_fundamental_div_mod_converse;
use vstd::prelude::*;
use crate::text::{digit_value, is_digit, texts, to_chars};

verus! {

/// Where the crucible stands, which way it came, and how many blocks it has
/// come that way without a turn.
pub ghost struct Place {
    pub r: int,
    pub c: int,
    pub dr: int,
    pub dc: int,
    pub cont: int,
}

/// The crucible before its first move: in the first corner, with no way
/// that it came.
pub open spec fn origin() -> Place {
    Place { r: 0, c: 0, dr: 0, dc: 0, cont: 0 }
}

/// The blocks of each row.
pub open spec fn city(blocks: Seq<Vec<u32>>) -> Seq<Seq<u32>> {
    blocks.map_values(|row: Vec<u32>| row@)
}

/// Whether the city has a block in row `r` and column `c`.
pub open spec fn in_grid(blocks: Seq<Seq<u32>>, r: int, c: int) -> bool {
    0 <= r < blocks.len() && 0 <= c < blocks[r].len()
}

/// Whether a way is one block down, up, right or left.
pub open spec fn unit(dr: int, dc: int) -> bool {
    (dr == 1 && dc == 0) || (dr == -1 && dc == 0) || (dr == 0 && dc == 1) || (dr == 0 && dc == -1)
}

/// Whether the crucible has a way that it came and may go on that way.
pub open spec fn may_go_on(max: int, a: Place) -> bool {
    a.cont < max && !(a.dr == 0 && a.dc == 0)
}

/// One block further the same way.
pub open spec fn straight(max: int, a: Place, b: Place) -> bool {
    may_go_on(max, a) && b == (Place {
        r: a.r + a.dr,
        c: a.c + a.dc,
        dr: a.dr,
        dc: a.dc,
        cont: a.cont + 1,
    })
}

/// One block another way, neither on nor back. A crucible that may go on
/// turns only when it has come `min` blocks its way.
pub open spec fn turn(min: int, max: int, a: Place, b: Place) -> bool {
    &&& !(may_go_on(max, a) && a.cont < min)
    &&& unit(b.dr, b.dc)
    &&& !(b.dr == a.dr && b.dc == a.dc)
    &&& !(b.dr == -a.dr && b.dc == -a.dc)
    &&& b.r == a.r + b.dr
    &&& b.c == a.c + b.dc
    &&& b.cont == 1
}

/// One move of the crucible, onto a block of the city.
pub open spec fn step(blocks: Seq<Seq<u32>>, min: int, max: int, a: Place, b: Place) -> bool {
    in_grid(blocks, b.r, b.c) && (straight(max, a, b) || turn(min, max, a, b))
}

/// Whether the places are the way of a crucible from the origin, move by
/// move.
pub open spec fn walk(blocks: Seq<Seq<u32>>, min: int, max: int, w: Seq<Place>) -> bool {
    &&& w.len() >= 1
    &&& w[0] == origin()
    &&& forall|i: int| 0 <= i < w.len() - 1 ==> step(blocks, min, max, #[trigger] w[i], w[i + 1])
}

/// The heat that is lost on a block.
pub open spec fn weight(blocks: Seq<Seq<u32>>, p: Place) -> int {
    blocks[p.r][p.c] as int
}

/// The heat that is lost on a way: that of every block that is entered.
pub open spec fn cost(blocks: Seq<Seq<u32>>, w: Seq<Place>) -> int
    decreases w.len(),
{
    if w.len() <= 1 {
        0
    } else {
        cost(blocks, w.drop_last()) + weight(blocks, w.last())
    }
}

/// Whether the place is the far corner: the last row, and the last column
/// of the first row.
pub open spec fn at_target(blocks: Seq<Seq<u32>>, p: Place) -> bool {
    p.r == blocks.len() - 1 && p.c == blocks[0].len() - 1
}

/// Whether some way leads to the place with this loss.
pub open spec fn reached(blocks: Seq<Seq<u32>>, min: int, max: int, p: Place, c: int) -> bool {
    exists|w: Seq<Place>| #[trigger] walk(blocks, min, max, w) && w.last() == p && cost(blocks, w) == c
}

/// Whether no way leads to the place with less than this loss.
pub open spec fn least(blocks: Seq<Seq<u32>>, min: int, max: int, p: Place, c: int) -> bool {
    forall|w: Seq<Place>| #[trigger] walk(blocks, min, max, w) && w.last() == p ==> cost(blocks, w) >= c
}

/// The least heat that the crucible loses on a way to the far corner, and 0
/// where no way leads there.
pub open spec fn least_loss(blocks: Seq<Seq<u32>>, min: int, max: int, loss: int) -> bool {
    ||| exists|t: Place| #[trigger]
        at_target(blocks, t) && reached(blocks, min, max, t, loss) && forall|u: Place| #[trigger]
            at_target(blocks, u) ==> least(blocks, min, max, u, loss)
    ||| loss == 0 && forall|t: Place, w: Seq<Place>| #[trigger]
        at_target(blocks, t) && #[trigger] walk(blocks, min, max, w) ==> w.last() != t
}

/// The widest row.
pub open spec fn widest(blocks: Seq<Seq<u32>>, upto: int) -> int
    decreases upto,
{
    if upto <= 0 || upto > blocks.len() {
        1
    } else if blocks[upto - 1].len() > widest(blocks, upto - 1) {
        blocks[upto - 1].len() as int
    } else {
        widest(blocks, upto - 1)
    }
}

/// Whether a place lies in the box of `rows` by `cols` blocks and has come
/// its way from a block of the box.
pub open spec fn sound(p: Place, rows: int, cols: int) -> bool {
    &&& 0 <= p.r < rows
    &&& 0 <= p.c < cols
    &&& 0 <= p.cont
    &&& (unit(p.dr, p.dc) || (p.dr == 0 && p.dc == 0 && p.cont == 0))
    &&& (p.dr == 1 ==> p.cont <= p.r)
    &&& (p.dr == -1 ==> p.r + p.cont < rows)
    &&& (p.dc == 1 ==> p.cont <= p.c)
    &&& (p.dc == -1 ==> p.c + p.cont < cols)
}

/// No row is wider than the widest.
pub proof fn lemma_widest(blocks: Seq<Seq<u32>>, upto: int, r: int)
    requires
        0 <= r < upto <= blocks.len(),
    ensures
        blocks[r].len() <= widest(blocks, upto),
        widest(blocks, upto) >= 1,
    decreases upto,
{
    if r < upto - 1 {
        lemma_widest(blocks, upto - 1, r);
    } else {
        lemma_widest_positive(blocks, upto - 1);
    }
}

pub proof fn lemma_widest_positive(blocks: Seq<Seq<u32>>, upto: int)
    ensures
        widest(blocks, upto) >= 1,
    decreases upto,
{
    if 0 < upto <= blocks.len() {
        lemma_widest_positive(blocks, upto - 1);
    }
}

/// A way without its last move is a way, and loses no more heat.
pub proof fn lemma_shorter(blocks: Seq<Seq<u32>>, min: int, max: int, w: Seq<Place>)
    requires
        walk(blocks, min, max, w),
        w.len() >= 2,
    ensures
        walk(blocks, min, max, w.drop_last()),
        step(blocks, min, max, w.drop_last().last(), w.last()),
        cost(blocks, w) == cost(blocks, w.drop_last()) + weight(blocks, w.last()),
        cost(blocks, w) >= cost(blocks, w.drop_last()),
{
    let pre = w.drop_last();
    assert forall|i: int| 0 <= i < pre.len() - 1 implies step(
        blocks,
        min,
        max,
        #[trigger] pre[i],
        pre[i + 1],
    ) by {
        assert(pre[i] == w[i] && pre[i + 1] == w[i + 1]);
    }
    assert(step(blocks, min, max, w[w.len() - 2], w[w.len() - 2 + 1]));
}

/// A way with one more move is a way.
pub proof fn lemma_longer(blocks: Seq<Seq<u32>>, min: int, max: int, w: Seq<Place>, b: Place)
    requires
        walk(blocks, min, max, w),
        step(blocks, min, max, w.last(), b),
    ensures
        walk(blocks, min, max, w.push(b)),
        cost(blocks, w.push(b)) == cost(blocks, w) + weight(blocks, b),
{
    let longer = w.push(b);
    assert(longer.drop_last() =~= w);
    assert forall|i: int| 0 <= i < longer.len() - 1 implies step(
        blocks,
        min,
        max,
        #[trigger] longer[i],
        longer[i + 1],
    ) by {
        if i < w.len() - 1 {
            assert(longer[i] == w[i] && longer[i + 1] == w[i + 1]);
        }
    }
}

/// Every place of a way lies in the box of the city.
pub proof fn lemma_walk_sound(blocks: Seq<Seq<u32>>, min: int, max: int, w: Seq<Place>)
    requires
        walk(blocks, min, max, w),
        blocks.len() >= 1,
    ensures
        sound(w.last(), blocks.len() as int, widest(blocks, blocks.len() as int)),
    decreases w.len(),
{
    let rows = blocks.len() as int;
    lemma_widest_positive(blocks, rows);
    if w.len() >= 2 {
        lemma_shorter(blocks, min, max, w);
        lemma_walk_sound(blocks, min, max, w.drop_last());
        lemma_widest(blocks, rows, w.last().r);
    }
}

/// A crucible on its way, and the heat that it has lost.
#[derive(Clone, Copy, Debug, PartialEq, Eq)]
pub struct PathState {
    pub location: (usize, usize),
    pub direction: (i64, i64),
    pub cont_moves: usize,
    pub heat_loss: u128,
}

/// Where the crucible of a state stands.
pub open spec fn place(s: PathState) -> Place {
    Place {
        r: s.location.0 as int,
        c: s.location.1 as int,
        dr: s.direction.0 as int,
        dc: s.direction.1 as int,
        cont: s.cont_moves as int,
    }
}

/// Whether the queue holds the place with no more than this loss.
#[verifier::opaque]
pub open spec fn queued(queue: Seq<PathState>, p: Place, bound: int) -> bool {
    exists|i: int| 0 <= i < queue.len() && place(#[trigger] queue[i]) == p && queue[i].heat_loss <= bound
}

/// What holds while the search goes on. Each state of the queue has a way
/// with its loss. Each settled place lies short of the far corner and is
/// settled with its least loss. Each move from a settled place, but for
/// the place that is `open`, leads to a settled place or to one that is
/// queued with no more than the loss of that move. And the origin is
/// settled or queued.
#[verifier::opaque]
pub open spec fn searching(
    blocks: Seq<Seq<u32>>,
    min: int,
    max: int,
    queue: Seq<PathState>,
    settled: Map<Place, int>,
    open: Option<Place>,
) -> bool {
    &&& forall|i: int|
        0 <= i < queue.len() ==> reached(
            blocks,
            min,
            max,
            place(#[trigger] queue[i]),
            queue[i].heat_loss as int,
        )
    &&& forall|p: Place| #[trigger]
        settled.contains_key(p) ==> !at_target(blocks, p) && least(blocks, min, max, p, settled[p])
            && reached(blocks, min, max, p, settled[p])
    &&& forall|p: Place, q: Place|
        settled.contains_key(p) && Some(p) != open && #[trigger] step(blocks, min, max, p, q)
            ==> settled.contains_key(q) || queued(queue, q, settled[p] + weight(blocks, q))
    &&& settled.contains_key(origin()) || queued(queue, origin(), 0)
}

/// No way to a place that is not settled loses less heat than the least
/// loss in the queue.
pub proof fn lemma_floor(
    blocks: Seq<Seq<u32>>,
    min: int,
    max: int,
    queue: Seq<PathState>,
    settled: Map<Place, int>,
    m: int,
    w: Seq<Place>,
)
    requires
        searching(blocks, min, max, queue, settled, None),
        forall|i: int| 0 <= i < queue.len() ==> (#[trigger] queue[i]).heat_loss >= m,
        walk(blocks, min, max, w),
        !settled.contains_key(w.last()),
    ensures
        cost(blocks, w) >= m,
        queue.len() > 0,
    decreases w.len(),
{
    reveal(searching);
    reveal(queued);
    if w.len() == 1 {
        assert(w.last() == origin());
        let i = choose|i: int|
            0 <= i < queue.len() && place(#[trigger] queue[i]) == origin() && queue[i].heat_loss <= 0;
    } else {
        lemma_shorter(blocks, min, max, w);
        let pre = w.drop_last();
        let u = pre.last();
        if settled.contains_key(u) {
            assert(step(blocks, min, max, u, w.last()));
            let bound = settled[u] + weight(blocks, w.last());
            assert(queued(queue, w.last(), bound));
            let i = choose|i: int|
                0 <= i < queue.len() && place(#[trigger] queue[i]) == w.last() && queue[i].heat_loss
                    <= bound;
            assert(least(blocks, min, max, u, settled[u]));
            assert(cost(blocks, pre) >= settled[u]);
        } else {
            lemma_floor(blocks, min, max, queue, settled, m, pre);
        }
    }
}

/// A state that leaves the queue leaves the others queued.
pub proof fn lemma_unqueue(queue: Seq<PathState>, idx: int, p: Place, bound: int)
    requires
        0 <= idx < queue.len(),
        queued(queue, p, bound),
        place(queue[idx]) != p,
    ensures
        queued(queue.remove(idx), p, bound),
{
    reveal(queued);
    let i = choose|i: int|
        0 <= i < queue.len() && place(#[trigger] queue[i]) == p && queue[i].heat_loss <= bound;
    let after = queue.remove(idx);
    if i < idx {
        assert(after[i] == queue[i]);
    } else {
        assert(after[i - 1] == queue[i]);
    }
}

/// A state that joins the queue leaves the others queued.
pub proof fn lemma_enqueue(queue: Seq<PathState>, e: PathState, p: Place, bound: int)
    requires
        queued(queue, p, bound),
    ensures
        queued(queue.push(e), p, bound),
{
    reveal(queued);
    let i = choose|i: int|
        0 <= i < queue.len() && place(#[trigger] queue[i]) == p && queue[i].heat_loss <= bound;
    assert(queue.push(e)[i] == queue[i]);
}

/// The search goes on when a state leaves the queue whose place is settled.
pub proof fn lemma_skip(
    blocks: Seq<Seq<u32>>,
    min: int,
    max: int,
    queue: Seq<PathState>,
    settled: Map<Place, int>,
    idx: int,
)
    requires
        searching(blocks, min, max, queue, settled, None),
        0 <= idx < queue.len(),
        settled.contains_key(place(queue[idx])),
    ensures
        searching(blocks, min, max, queue.remove(idx), settled, None),
{
    reveal(searching);
    reveal(queued);
    let after = queue.remove(idx);
    assert forall|i: int| 0 <= i < after.len() implies reached(
        blocks,
        min,
        max,
        place(#[trigger] after[i]),
        after[i].heat_loss as int,
    ) by {
        if i < idx {
            assert(after[i] == queue[i]);
        } else {
            assert(after[i] == queue[i + 1]);
        }
    }
    assert forall|p: Place, q: Place|
        settled.contains_key(p) && #[trigger] step(blocks, min, max, p, q) implies settled.contains_key(
        q,
    ) || queued(after, q, settled[p] + weight(blocks, q)) by {
        if !settled.contains_key(q) {
            lemma_unqueue(queue, idx, q, settled[p] + weight(blocks, q));
        }
    }
    if !settled.contains_key(origin()) {
        lemma_unqueue(queue, idx, origin(), 0);
    }
}

/// The search goes on, with the place open, when the state of least loss
/// leaves the queue and its place is settled with that loss.
pub proof fn lemma_settle(
    blocks: Seq<Seq<u32>>,
    min: int,
    max: int,
    queue: Seq<PathState>,
    settled: Map<Place, int>,
    idx: int,
)
    requires
        searching(blocks, min, max, queue, settled, None),
        0 <= idx < queue.len(),
        forall|i: int| 0 <= i < queue.len() ==> (#[trigger] queue[i]).heat_loss >= queue[idx].heat_loss,
        !settled.contains_key(place(queue[idx])),
        !at_target(blocks, place(queue[idx])),
    ensures
        searching(
            blocks,
            min,
            max,
            queue.remove(idx),
            settled.insert(place(queue[idx]), queue[idx].heat_loss as int),
            Some(place(queue[idx])),
        ),
{
    reveal(searching);
    reveal(queued);
    let s = place(queue[idx]);
    let m = queue[idx].heat_loss as int;
    let after = queue.remove(idx);
    let more = settled.insert(s, m);
    assert forall|i: int| 0 <= i < after.len() implies reached(
        blocks,
        min,
        max,
        place(#[trigger] after[i]),
        after[i].heat_loss as int,
    ) by {
        if i < idx {
            assert(after[i] == queue[i]);
        } else {
            assert(after[i] == queue[i + 1]);
        }
    }
    assert(least(blocks, min, max, s, m)) by {
        assert forall|w: Seq<Place>| #[trigger] walk(blocks, min, max, w) && w.last() == s implies cost(
            blocks,
            w,
        ) >= m by {
            lemma_floor(blocks, min, max, queue, settled, m, w);
        }
    }
    assert forall|p: Place| #[trigger] more.contains_key(p) implies !at_target(blocks, p) && least(
        blocks,
        min,
        max,
        p,
        more[p],
    ) && reached(blocks, min, max, p, more[p]) by {
        if p != s {
            assert(settled.contains_key(p));
        }
    }
    assert forall|p: Place, q: Place|
        more.contains_key(p) && Some(p) != Some(s) && #[trigger] step(
            blocks,
            min,
            max,
            p,
            q,
        ) implies more.contains_key(q) || queued(after, q, more[p] + weight(blocks, q)) by {
        assert(settled.contains_key(p));
        if q != s && !settled.contains_key(q) {
            lemma_unqueue(queue, idx, q, settled[p] + weight(blocks, q));
        }
    }
    if !settled.contains_key(origin()) && origin() != s {
        lemma_unqueue(queue, idx, origin(), 0);
    }
}

/// The search goes on when a state with a way joins the queue.
pub proof fn lemma_push(
    blocks: Seq<Seq<u32>>,
    min: int,
    max: int,
    queue: Seq<PathState>,
    settled: Map<Place, int>,
    open: Option<Place>,
    e: PathState,
)
    requires
        searching(blocks, min, max, queue, settled, open),
        reached(blocks, min, max, place(e), e.heat_loss as int),
    ensures
        searching(blocks, min, max, queue.push(e), settled, open),
{
    reveal(searching);
    reveal(queued);
    let after = queue.push(e);
    assert forall|i: int| 0 <= i < after.len() implies reached(
        blocks,
        min,
        max,
        place(#[trigger] after[i]),
        after[i].heat_loss as int,
    ) by {
        if i < queue.len() {
            assert(after[i] == queue[i]);
        }
    }
    assert forall|p: Place, q: Place|
        settled.contains_key(p) && Some(p) != open && #[trigger] step(
            blocks,
            min,
            max,
            p,
            q,
        ) implies settled.contains_key(q) || queued(after, q, settled[p] + weight(blocks, q)) by {
        if !settled.contains_key(q) {
            lemma_enqueue(queue, e, q, settled[p] + weight(blocks, q));
        }
    }
    if !settled.contains_key(origin()) {
        lemma_enqueue(queue, e, origin(), 0);
    }
}

/// Each state of the queue has a way with its loss.
pub proof fn lemma_entry(
    blocks: Seq<Seq<u32>>,
    min: int,
    max: int,
    queue: Seq<PathState>,
    settled: Map<Place, int>,
    open: Option<Place>,
    idx: int,
)
    requires
        searching(blocks, min, max, queue, settled, open),
        0 <= idx < queue.len(),
    ensures
        reached(blocks, min, max, place(queue[idx]), queue[idx].heat_loss as int),
{
    reveal(searching);
}

/// A settled place lies short of the far corner and is settled with its
/// least loss.
pub proof fn lemma_settled(
    blocks: Seq<Seq<u32>>,
    min: int,
    max: int,
    queue: Seq<PathState>,
    settled: Map<Place, int>,
    open: Option<Place>,
    p: Place,
)
    requires
        searching(blocks, min, max, queue, settled, open),
        settled.contains_key(p),
    ensures
        !at_target(blocks, p),
        least(blocks, min, max, p, settled[p]),
        reached(blocks, min, max, p, settled[p]),
{
    reveal(searching);
}

/// The state that joined the queue last is queued.
pub proof fn lemma_queued_last(queue: Seq<PathState>, e: PathState)
    ensures
        queued(queue.push(e), place(e), e.heat_loss as int),
{
    reveal(queued);
    assert(queue.push(e)[queue.len() as int] == e);
}

/// The search goes on with no place open once each move from the open
/// place leads to a queued place.
pub proof fn lemma_close(
    blocks: Seq<Seq<u32>>,
    min: int,
    max: int,
    queue: Seq<PathState>,
    settled: Map<Place, int>,
    s: Place,
)
    requires
        searching(blocks, min, max, queue, settled, Some(s)),
        settled.contains_key(s),
        forall|q: Place| #[trigger]
            step(blocks, min, max, s, q) ==> queued(queue, q, settled[s] + weight(blocks, q)),
    ensures
        searching(blocks, min, max, queue, settled, None),
{
    reveal(searching);
}

/// The search starts with the origin queued.
pub proof fn lemma_start(blocks: Seq<Seq<u32>>, min: int, max: int, first: PathState)
    requires
        place(first) == origin(),
        first.heat_loss == 0,
    ensures
        searching(blocks, min, max, seq![first], Map::empty(), None),
{
    reveal(searching);
    reveal(queued);
    let w = seq![origin()];
    assert(walk(blocks, min, max, w));
    assert(w.last() == origin() && cost(blocks, w) == 0);
    assert(reached(blocks, min, max, origin(), 0));
    assert(seq![first][0] == first);
}

/// With nothing queued, every way ends at a settled place.
pub proof fn lemma_exhausted(
    blocks: Seq<Seq<u32>>,
    min: int,
    max: int,
    settled: Map<Place, int>,
    w: Seq<Place>,
)
    requires
        searching(blocks, min, max, Seq::empty(), settled, None),
        walk(blocks, min, max, w),
    ensures
        settled.contains_key(w.last()),
        !at_target(blocks, w.last()),
{
    if !settled.contains_key(w.last()) {
        lemma_floor(blocks, min, max, Seq::empty(), settled, 0, w);
    }
    lemma_settled(blocks, min, max, Seq::empty(), settled, None, w.last());
}

/// The number of a way: down, up, right, left, and 4 for none.
pub open spec fn dir_index(dr: int, dc: int) -> int {
    if dr == 1 && dc == 0 {
        0
    } else if dr == -1 && dc == 0 {
        1
    } else if dr == 0 && dc == 1 {
        2
    } else if dr == 0 && dc == -1 {
        3
    } else {
        4
    }
}

/// The slot of a place among those of its row, where no place has come
/// `width` blocks its way.
pub open spec fn slot(p: Place, width: int) -> int {
    (p.c * 5 + dir_index(p.dr, p.dc)) * width + p.cont
}

/// The slot of a sound place lies in its row.
pub proof fn lemma_slot_bound(p: Place, rows: int, cols: int, width: int)
    requires
        sound(p, rows, cols),
        width > rows,
        width > cols,
    ensures
        0 <= p.cont < width,
        0 <= p.c * 5 + dir_index(p.dr, p.dc) < cols * 5,
        0 <= slot(p, width) < cols * 5 * width,
{
    let a = p.c * 5 + dir_index(p.dr, p.dc);
    assert(0 <= a * width && a * width + width <= cols * 5 * width) by (nonlinear_arith)
        requires
            0 <= a < cols * 5,
            width > 0,
    ;
}

/// Two sound places of one row and one slot are one place.
pub proof fn lemma_slot_one(p: Place, q: Place, rows: int, cols: int, width: int)
    requires
        sound(p, rows, cols),
        sound(q, rows, cols),
        width > rows,
        width > cols,
        p.r == q.r,
        slot(p, width) == slot(q, width),
    ensures
        p == q,
{
    lemma_slot_bound(p, rows, cols, width);
    lemma_slot_bound(q, rows, cols, width);
    let a = p.c * 5 + dir_index(p.dr, p.dc);
    let b = q.c * 5 + dir_index(q.dr, q.dc);
    let x = slot(p, width);
    lemma_fundamental_div_mod_converse(x, width, a, p.cont);
    lemma_fundamental_div_mod_converse(x, width, b, q.cont);
}

/// The way of a number.
pub fn direction(k: usize) -> (d: (i64, i64))
    requires
        k < 4,
    ensures
        unit(d.0 as int, d.1 as int),
        dir_index(d.0 as int, d.1 as int) == k,
{
    if k == 0 {
        (1, 0)
    } else if k == 1 {
        (-1, 0)
    } else if k == 2 {
        (0, 1)
    } else {
        (0, -1)
    }
}

/// The number of a way.
fn number_of(d: (i64, i64)) -> (k: usize)
    ensures
        k == dir_index(d.0 as int, d.1 as int),
{
    if d.0 == 1 && d.1 == 0 {
        0
    } else if d.0 == -1 && d.1 == 0 {
        1
    } else if d.0 == 0 && d.1 == 1 {
        2
    } else if d.0 == 0 && d.1 == -1 {
        3
    } else {
        4
    }
}

/// The length of the widest row, and 1 where every row is empty.
pub fn widest_row(blocks: &Vec<Vec<u32>>) -> (cols: usize)
    ensures
        cols == widest(city(blocks@), blocks@.len() as int),
{
    let mut cols: usize = 1;
    let mut r: usize = 0;
    while r < blocks.len()
        invariant
            r <= blocks@.len(),
            cols == widest(city(blocks@), r as int),
        decreases blocks@.len() - r,
    {
        assert(city(blocks@)[r as int] == blocks@[r as int]@);
        if blocks[r].len() > cols {
            cols = blocks[r].len();
        }
        r += 1;
    }
    cols
}

/// Finds a state of least loss in the queue.
fn least_index(queue: &Vec<PathState>) -> (idx: usize)
    requires
        queue@.len() > 0,
    ensures
        idx < queue@.len(),
        forall|i: int| 0 <= i < queue@.len() ==> (#[trigger] queue@[i]).heat_loss >= queue@[idx as int].heat_loss,
{
    let mut idx: usize = 0;
    let mut i: usize = 1;
    while i < queue.len()
        invariant
            1 <= i <= queue@.len(),
            idx < i,
            forall|j: int| 0 <= j < i ==> (#[trigger] queue@[j]).heat_loss >= queue@[idx as int].heat_loss,
        decreases queue@.len() - i,
    {
        if queue[i].heat_loss < queue[idx].heat_loss {
            idx = i;
        }
        i += 1;
    }
    idx
}

/// Rows of marks, none set.
fn unseen(rows: usize, len: usize) -> (seen: Vec<Vec<bool>>)
    ensures
        seen@.len() == rows,
        forall|r: int| 0 <= r < rows ==> (#[trigger] seen@[r])@.len() == len,
        forall|r: int, j: int| 0 <= r < rows && 0 <= j < len ==> !(#[trigger] seen@[r]@[j]),
{
    let mut seen: Vec<Vec<bool>> = Vec::new();
    let mut r: usize = 0;
    while r < rows
        invariant
            r <= rows,
            seen@.len() == r,
            forall|i: int| 0 <= i < r ==> (#[trigger] seen@[i])@.len() == len,
            forall|i: int, j: int| 0 <= i < r && 0 <= j < len ==> !(#[trigger] seen@[i]@[j]),
        decreases rows - r,
    {
        let mut row: Vec<bool> = Vec::new();
        let mut j: usize = 0;
        while j < len
            invariant
                j <= len,
                row@.len() == j,
                forall|i: int| 0 <= i < j ==> !(#[trigger] row@[i]),
            decreases len - j,
        {
            row.push(false);
            j += 1;
        }
        seen.push(row);
        r += 1;
    }
    seen
}

/// Whether the marks cannot be laid out: the widest row times five times
/// one more than the longer side of the city does not fit the machine.
pub open spec fn too_large(blocks: Seq<Seq<u32>>) -> bool {
    let cols = widest(blocks, blocks.len() as int);
    let side = if blocks.len() > cols {
        blocks.len() as int
    } else {
        cols
    };
    cols * 5 * (side + 1) > usize::MAX
}

/// Whether a way of least loss to some place, with one more move, loses
/// more heat than 128 bits hold.
pub open spec fn overflows(blocks: Seq<Seq<u32>>, min: int, max: int) -> bool {
    exists|p: Place, q: Place, c: int|
        #[trigger] reached(blocks, min, max, p, c) && least(blocks, min, max, p, c) && #[trigger] step(
            blocks,
            min,
            max,
            p,
            q,
        ) && c + weight(blocks, q) > u128::MAX
}

/// Whether the marks say which places are settled.
#[verifier::opaque]
pub open spec fn marked(
    seen: Seq<Seq<bool>>,
    settled: Map<Place, int>,
    rows: int,
    cols: int,
    width: int,
) -> bool {
    forall|p: Place|
        sound(p, rows, cols) ==> (#[trigger] settled.contains_key(p) <==> seen[p.r][slot(p, width)])
}

/// One mark more says that one place more is settled.
pub proof fn lemma_marked(
    seen: Seq<Seq<bool>>,
    settled: Map<Place, int>,
    rows: int,
    cols: int,
    width: int,
    s: Place,
    m: int,
)
    requires
        marked(seen, settled, rows, cols, width),
        sound(s, rows, cols),
        width > rows,
        width > cols,
        seen.len() == rows,
        forall|r: int| 0 <= r < rows ==> (#[trigger] seen[r]).len() == cols * 5 * width,
    ensures
        marked(
            seen.update(s.r, seen[s.r].update(slot(s, width), true)),
            settled.insert(s, m),
            rows,
            cols,
            width,
        ),
{
    reveal(marked);
    let after = seen.update(s.r, seen[s.r].update(slot(s, width), true));
    lemma_slot_bound(s, rows, cols, width);
    assert forall|p: Place| sound(p, rows, cols) implies (#[trigger] settled.insert(
        s,
        m,
    ).contains_key(p) <==> after[p.r][slot(p, width)]) by {
        lemma_slot_bound(p, rows, cols, width);
        assert(settled.contains_key(p) <==> seen[p.r][slot(p, width)]);
        if p != s && p.r == s.r && slot(p, width) == slot(s, width) {
            lemma_slot_one(p, s, rows, cols, width);
        }
    }
}

/// With no mark set, no place is settled.
pub proof fn lemma_unmarked(seen: Seq<Seq<bool>>, rows: int, cols: int, width: int)
    requires
        width > rows,
        width > cols,
        seen.len() == rows,
        forall|r: int| 0 <= r < rows ==> (#[trigger] seen[r]).len() == cols * 5 * width,
        forall|r: int, j: int| 0 <= r < rows && 0 <= j < cols * 5 * width ==> !(#[trigger] seen[r][j]),
    ensures
        marked(seen, Map::empty(), rows, cols, width),
{
    reveal(marked);
    assert forall|p: Place| sound(p, rows, cols) implies (#[trigger] Map::<Place, int>::empty().contains_key(
        p,
    ) <==> seen[p.r][slot(p, width)]) by {
        lemma_slot_bound(p, rows, cols, width);
    }
}

/// A sound place is settled where its mark is set.
pub proof fn lemma_mark_of(
    seen: Seq<Seq<bool>>,
    settled: Map<Place, int>,
    rows: int,
    cols: int,
    width: int,
    p: Place,
)
    requires
        marked(seen, settled, rows, cols, width),
        sound(p, rows, cols),
    ensures
        settled.contains_key(p) <==> seen[p.r][slot(p, width)],
{
    reveal(marked);
}

/// The slot of a state in its row of marks.
fn slot_of(st: PathState, cols: usize, width: usize, Ghost(rows): Ghost<int>) -> (j: usize)
    requires
        sound(place(st), rows, cols as int),
        width > rows,
        width > cols,
        cols * 5 * width <= usize::MAX,
    ensures
        j == slot(place(st), width as int),
        j < cols * 5 * width,
{
    proof {
        lemma_slot_bound(place(st), rows, cols as int, width as int);
        let a = place(st).c * 5 + dir_index(place(st).dr, place(st).dc);
        assert(0 <= a * width && a * width + width <= cols * 5 * width) by (nonlinear_arith)
            requires
                0 <= a < cols * 5,
                width > 0,
        ;
    }
    assert(cols * 5 <= cols * 5 * width) by (nonlinear_arith)
        requires
            cols >= 0,
            width >= 1,
    ;
    let a: usize = st.location.1 * 5 + number_of(st.direction);
    a * width + st.cont_moves
}

/// A state of the queue is sound, and settled where its mark is set.
pub proof fn lemma_popped(
    blocks: Seq<Seq<u32>>,
    min: int,
    max: int,
    queue: Seq<PathState>,
    settled: Map<Place, int>,
    seen: Seq<Seq<bool>>,
    width: int,
    idx: int,
)
    requires
        blocks.len() >= 1,
        searching(blocks, min, max, queue, settled, None),
        marked(seen, settled, blocks.len() as int, widest(blocks, blocks.len() as int), width),
        0 <= idx < queue.len(),
    ensures
        sound(place(queue[idx]), blocks.len() as int, widest(blocks, blocks.len() as int)),
        settled.contains_key(place(queue[idx])) <==> seen[place(queue[idx]).r][slot(
            place(queue[idx]),
            width,
        )],
{
    let s = place(queue[idx]);
    let m = queue[idx].heat_loss as int;
    lemma_entry(blocks, min, max, queue, settled, None, idx);
    let w = choose|w: Seq<Place>| #[trigger] walk(blocks, min, max, w) && w.last() == s && cost(
        blocks,
        w,
    ) == m;
    lemma_walk_sound(blocks, min, max, w);
    lemma_mark_of(seen, settled, blocks.len() as int, widest(blocks, blocks.len() as int), width, s);
}

/// Sets one mark.
fn set_mark(seen: &mut Vec<Vec<bool>>, r: usize, j: usize)
    requires
        r < old(seen)@.len(),
        j < old(seen)@[r as int]@.len(),
    ensures
        final(seen)@.len() == old(seen)@.len(),
        forall|i: int|
            0 <= i < old(seen)@.len() ==> (#[trigger] final(seen)@[i])@.len() == old(seen)@[i]@.len(),
        flags_of(final(seen)@) == flags_of(old(seen)@).update(
            r as int,
            flags_of(old(seen)@)[r as int].update(j as int, true),
        ),
{
    let ghost before = flags_of(seen@);
    seen[r].set(j, true);
    proof {
        assert(flags_of(seen@) =~= before.update(r as int, before[r as int].update(j as int, true)))
            by {
            assert forall|i: int| 0 <= i < seen@.len() implies #[trigger] flags_of(seen@)[i]
                =~= before.update(r as int, before[r as int].update(j as int, true))[i] by {
                assert(flags_of(seen@)[i] == seen@[i]@);
            }
        }
    }
}

/// Offers the crucible one move onward: where it may move the way of number
/// `k` and a block lies there, the state after the move joins the queue.
/// Returns whether the loss of the move fits.
fn offer(
    blocks: &Vec<Vec<u32>>,
    queue: &mut Vec<PathState>,
    st: PathState,
    k: usize,
    min: i32,
    max: i32,
    Ghost(settled): Ghost<Map<Place, int>>,
) -> (fits: bool)
    requires
        k < 4,
        st.cont_moves < usize::MAX,
        unit(st.direction.0 as int, st.direction.1 as int) || (st.direction.0 == 0
            && st.direction.1 == 0),
        settled.contains_key(place(st)),
        settled[place(st)] == st.heat_loss,
        searching(city(blocks@), min as int, max as int, old(queue)@, settled, Some(place(st))),
    ensures
        fits ==> searching(
            city(blocks@),
            min as int,
            max as int,
            final(queue)@,
            settled,
            Some(place(st)),
        ),
        fits ==> forall|q: Place, bound: int|
            queued(old(queue)@, q, bound) ==> #[trigger] queued(final(queue)@, q, bound),
        fits ==> forall|q: Place| #[trigger]
            step(city(blocks@), min as int, max as int, place(st), q) && dir_index(q.dr, q.dc) == k
                ==> queued(final(queue)@, q, st.heat_loss + weight(city(blocks@), q)),
        !fits ==> overflows(city(blocks@), min as int, max as int),
{
    let ghost g = city(blocks@);
    let ghost s = place(st);
    let ghost m = st.heat_loss as int;
    let rows = blocks.len();
    let go_on = (st.cont_moves as i128) < max as i128 && !(st.direction.0 == 0 && st.direction.1
        == 0);
    let dir = direction(k);
    let same = dir.0 == st.direction.0 && dir.1 == st.direction.1;
    let back = dir.0 == -st.direction.0 && dir.1 == -st.direction.1;
    let allowed = if same {
        go_on
    } else if back {
        false
    } else {
        !(go_on && (st.cont_moves as i128) < min as i128)
    };
    let cont: usize = if same {
        st.cont_moves + 1
    } else {
        1
    };
    let row: i128 = st.location.0 as i128 + dir.0 as i128;
    let column: i128 = st.location.1 as i128 + dir.1 as i128;
    let ghost b = Place { r: row as int, c: column as int, dr: dir.0 as int, dc: dir.1 as int, cont: cont as int };
    let ghost queue_before = queue@;
    let mut inside = false;
    let mut next_loc: (usize, usize) = (0, 0);
    if allowed && 0 <= row && row < rows as i128 {
        let nr = row as usize;
        assert(g[nr as int] == blocks@[nr as int]@);
        if 0 <= column && column < blocks[nr].len() as i128 {
            inside = true;
            next_loc = (nr, column as usize);
        }
    }
    assert(go_on == may_go_on(max as int, s));
    assert(inside == (allowed && in_grid(g, b.r, b.c))) by {
        if 0 <= b.r < rows {
            assert(g[b.r] == blocks@[b.r]@);
        }
    }
    assert(allowed == (straight(max as int, s, b) || turn(min as int, max as int, s, b)));
    assert(inside <==> step(g, min as int, max as int, s, b));
    proof {
        lemma_settled(g, min as int, max as int, queue@, settled, Some(s), s);
    }
    if inside {
        let hl = blocks[next_loc.0][next_loc.1];
        assert(weight(g, b) == hl);
        let heat_loss = match st.heat_loss.checked_add(hl as u128) {
            Some(v) => v,
            None => {
                assert(reached(g, min as int, max as int, s, m) && least(
                    g,
                    min as int,
                    max as int,
                    s,
                    m,
                ) && step(g, min as int, max as int, s, b) && m + weight(g, b) > u128::MAX);
                return false;
            },
        };
        let e = PathState { location: next_loc, direction: dir, cont_moves: cont, heat_loss };
        proof {
            let w = choose|w: Seq<Place>| #[trigger]
                walk(g, min as int, max as int, w) && w.last() == s && cost(g, w) == m;
            lemma_longer(g, min as int, max as int, w, b);
            assert(w.push(b).last() == b);
            assert(reached(g, min as int, max as int, place(e), heat_loss as int));
            lemma_push(g, min as int, max as int, queue@, settled, Some(s), e);
        }
        queue.push(e);
        proof {
            lemma_queued_last(queue_before, e);
            assert forall|q: Place, bound: int| queued(queue_before, q, bound) implies #[trigger] queued(
                queue@,
                q,
                bound,
            ) by {
                lemma_enqueue(queue_before, e, q, bound);
            }
        }
    }
    proof {
        assert forall|q: Place| #[trigger]
            step(g, min as int, max as int, s, q) && dir_index(q.dr, q.dc) == k implies queued(
            queue@,
            q,
            m + weight(g, q),
        ) by {
            assert(q.dr == dir.0 && q.dc == dir.1);
            assert(q == b);
        }
    }
    true
}

/// Offers the crucible its moves onward, one for each way.
fn offer_all(
    blocks: &Vec<Vec<u32>>,
    queue: &mut Vec<PathState>,
    st: PathState,
    min: i32,
    max: i32,
    Ghost(settled): Ghost<Map<Place, int>>,
) -> (fits: bool)
    requires
        st.cont_moves < usize::MAX,
        unit(st.direction.0 as int, st.direction.1 as int) || (st.direction.0 == 0
            && st.direction.1 == 0),
        settled.contains_key(place(st)),
        settled[place(st)] == st.heat_loss,
        searching(city(blocks@), min as int, max as int, old(queue)@, settled, Some(place(st))),
    ensures
        fits ==> searching(city(blocks@), min as int, max as int, final(queue)@, settled, None),
        !fits ==> overflows(city(blocks@), min as int, max as int),
{
    let ghost g = city(blocks@);
    let ghost s = place(st);
    let ghost m = st.heat_loss as int;
    let mut k: usize = 0;
    while k < 4
        invariant
            k <= 4,
            g == city(blocks@),
            s == place(st),
            m == st.heat_loss,
            st.cont_moves < usize::MAX,
            unit(st.direction.0 as int, st.direction.1 as int) || (st.direction.0 == 0
                && st.direction.1 == 0),
            settled.contains_key(s),
            settled[s] == m,
            searching(g, min as int, max as int, queue@, settled, Some(s)),
            forall|q: Place| #[trigger]
                step(g, min as int, max as int, s, q) && dir_index(q.dr, q.dc) < k ==> queued(
                    queue@,
                    q,
                    m + weight(g, q),
                ),
        decreases 4 - k,
    {
        let ghost queue_before = queue@;
        if !offer(blocks, queue, st, k, min, max, Ghost(settled)) {
            return false;
        }
        proof {
            assert forall|q: Place| #[trigger]
                step(g, min as int, max as int, s, q) && dir_index(q.dr, q.dc) < k + 1 implies queued(
                queue@,
                q,
                m + weight(g, q),
            ) by {
                if dir_index(q.dr, q.dc) < k {
                    assert(queued(queue_before, q, m + weight(g, q)));
                }
            }
        }
        k += 1;
    }
    proof {
        assert forall|q: Place| #[trigger] step(g, min as int, max as int, s, q) implies queued(
            queue@,
            q,
            settled[s] + weight(g, q),
        ) by {
            assert(dir_index(q.dr, q.dc) < 4);
        }
        lemma_close(g, min as int, max as int, queue@, settled, s);
    }
    true
}

/// The least heat that the crucible loses from the first corner to the far
/// corner, when it goes at least `min` blocks before it turns and at most
/// `max` blocks one way. 0 where no way leads there. `None` for a city
/// without rows, one that is too large, or a loss that overflows.
pub fn min_loss_djikstra(blocks: &Vec<Vec<u32>>, min: i32, max: i32) -> (loss: Option<u128>)
    ensures
        match loss {
            Some(v) => blocks@.len() > 0 && least_loss(city(blocks@), min as int, max as int, v as int),
            None => blocks@.len() == 0 || too_large(city(blocks@)) || overflows(
                city(blocks@),
                min as int,
                max as int,
            ),
        },
{
    let ghost g = city(blocks@);
    let rows = blocks.len();
    if rows == 0 {
        return None;
    }
    let cols = widest_row(blocks);
    proof {
        lemma_widest_positive(g, rows as int);
    }
    let side = if rows > cols {
        rows
    } else {
        cols
    };
    let width = match side.checked_add(1) {
        Some(w) => w,
        None => {
            assert(cols * 5 * (side + 1) > usize::MAX) by (nonlinear_arith)
                requires
                    cols >= 1,
                    side + 1 > usize::MAX,
            ;
            return None;
        },
    };
    let len = match cols.checked_mul(5) {
        Some(c5) => match c5.checked_mul(width) {
            Some(len) => len,
            None => {
                return None;
            },
        },
        None => {
            assert(cols * 5 * (side + 1) > usize::MAX) by (nonlinear_arith)
                requires
                    cols * 5 > usize::MAX,
                    side + 1 >= 1,
            ;
            return None;
        },
    };
    let mut seen = unseen(rows, len);
    let mut queue: Vec<PathState> = Vec::new();
    queue.push(PathState { location: (0, 0), direction: (0, 0), cont_moves: 0, heat_loss: 0 });
    let ghost mut settled: Map<Place, int> = Map::empty();
    proof {
        lemma_start(g, min as int, max as int, queue@[0]);
        assert(queue@ =~= seq![queue@[0]]);
        lemma_dry_squares_nonnegative(flags_of(seen@), rows as int);
        assert forall|r: int| 0 <= r < rows implies (#[trigger] flags_of(seen@)[r]).len() == cols
            * 5 * width by {
            assert(flags_of(seen@)[r] == seen@[r]@);
        }
        assert forall|r: int, j: int| 0 <= r < rows && 0 <= j < cols * 5 * width implies !(
        #[trigger] flags_of(seen@)[r][j]) by {
            assert(flags_of(seen@)[r] == seen@[r]@);
        }
        lemma_unmarked(flags_of(seen@), rows as int, cols as int, width as int);
    }
    while queue.len() > 0
        invariant
            g == city(blocks@),
            rows == blocks@.len(),
            rows >= 1,
            cols == widest(g, rows as int),
            width > rows,
            width > cols,
            len == cols * 5 * width,
            seen@.len() == rows,
            forall|r: int| 0 <= r < rows ==> (#[trigger] seen@[r])@.len() == len,
            searching(g, min as int, max as int, queue@, settled, None),
            marked(flags_of(seen@), settled, rows as int, cols as int, width as int),
            dry_squares(flags_of(seen@), rows as int) >= 0,
        decreases dry_squares(flags_of(seen@), rows as int), queue@.len(),
    {
        let idx = least_index(&queue);
        let st = queue[idx];
        let ghost s = place(st);
        let ghost m = st.heat_loss as int;
        let ghost before = flags_of(seen@);
        proof {
            lemma_popped(g, min as int, max as int, queue@, settled, before, width as int, idx as int);
            assert(g[0] == blocks@[0]@);
            assert(before[s.r] == seen@[s.r]@);
        }
        if st.location.0 == rows - 1 && st.location.1 as i128 == blocks[0].len() as i128 - 1 {
            proof {
                lemma_found(g, min as int, max as int, queue@, settled, idx as int);
            }
            return Some(st.heat_loss);
        }
        let r = st.location.0;
        let j = slot_of(st, cols, width, Ghost(rows as int));
        if seen[r][j] {
            proof {
                lemma_skip(g, min as int, max as int, queue@, settled, idx as int);
            }
            queue.remove(idx);
            continue ;
        }
        set_mark(&mut seen, r, j);
        proof {
            lemma_settle(g, min as int, max as int, queue@, settled, idx as int);
            assert(dry(before, (r as int, j as int)));
            lemma_dry_squares_flood(before, r as int, j as int, rows as int);
            lemma_dry_squares_nonnegative(flags_of(seen@), rows as int);
            assert forall|i: int| 0 <= i < rows implies (#[trigger] before[i]).len() == cols * 5
                * width by {}
            lemma_marked(before, settled, rows as int, cols as int, width as int, s, m);
            settled = settled.insert(s, m);
        }
        queue.remove(idx);
        if !offer_all(blocks, &mut queue, st, min, max, Ghost(settled)) {
            return None;
        }
    }
    proof {
        assert(queue@ =~= Seq::empty());
        assert forall|t: Place, w: Seq<Place>| #[trigger]
            at_target(g, t) && #[trigger] walk(g, min as int, max as int, w) implies w.last()
            != t by {
            lemma_exhausted(g, min as int, max as int, settled, w);
        }
    }
    Some(0)
}

/// The state of least loss in the queue, at the far corner, has the least
/// loss of all ways there.
pub proof fn lemma_found(
    blocks: Seq<Seq<u32>>,
    min: int,
    max: int,
    queue: Seq<PathState>,
    settled: Map<Place, int>,
    idx: int,
)
    requires
        searching(blocks, min, max, queue, settled, None),
        0 <= idx < queue.len(),
        forall|i: int| 0 <= i < queue.len() ==> (#[trigger] queue[i]).heat_loss >= queue[idx].heat_loss,
        at_target(blocks, place(queue[idx])),
    ensures
        least_loss(blocks, min, max, queue[idx].heat_loss as int),
{
    reveal(searching);
    reveal(queued);
    let m = queue[idx].heat_loss as int;
    let s = place(queue[idx]);
    assert(reached(blocks, min, max, s, m));
    assert forall|u: Place| #[trigger] at_target(blocks, u) implies least(blocks, min, max, u, m) by {
        assert forall|w: Seq<Place>| #[trigger] walk(blocks, min, max, w) && w.last() == u implies cost(
            blocks,
            w,
        ) >= m by {
            lemma_floor(blocks, min, max, queue, settled, m, w);
        }
    }
    assert(at_target(blocks, s) && reached(blocks, min, max, s, m));
}

/// The blocks that the first `upto` characters of a line describe: one for
/// each digit.
pub open spec fn digits_of(line: Seq<char>, upto: int) -> Seq<u32>
    decreases upto,
{
    if upto <= 0 || upto > line.len() {
        Seq::empty()
    } else if is_digit(line[upto - 1]) {
        digits_of(line, upto - 1).push(digit_value(line[upto - 1]) as u32)
    } else {
        digits_of(line, upto - 1)
    }
}

/// The city that the lines describe.
pub open spec fn city_of(lines: Seq<Seq<char>>) -> Seq<Seq<u32>> {
    lines.map_values(|line: Seq<char>| digits_of(line, line.len() as int))
}

/// Reads the city.
pub fn read_blocks(lines: &Vec<String>) -> (blocks: Vec<Vec<u32>>)
    ensures
        city(blocks@) == city_of(texts(lines@)),
{
    let mut blocks: Vec<Vec<u32>> = Vec::new();
    let mut i: usize = 0;
    while i < lines.len()
        invariant
            i <= lines@.len(),
            blocks@.len() == i,
            forall|k: int|
                0 <= k < i ==> (#[trigger] blocks@[k])@ == digits_of(lines@[k]@, lines@[k]@.len() as int),
        decreases lines@.len() - i,
    {
        let chars = to_chars(lines[i].as_str());
        let mut row: Vec<u32> = Vec::new();
        let mut j: usize = 0;
        while j < chars.len()
            invariant
                j <= chars@.len(),
                row@ == digits_of(chars@, j as int),
            decreases chars@.len() - j,
        {
            let n = chars[j] as u32;
            if 48 <= n && n <= 57 {
                row.push(n - 48);
            }
            j += 1;
        }
        blocks.push(row);
        i += 1;
    }
    proof {
        assert(city(blocks@) =~= city_of(texts(lines@))) by {
            assert forall|k: int| 0 <= k < blocks@.len() implies #[trigger] city(blocks@)[k]
                == city_of(texts(lines@))[k] by {
                assert(texts(lines@)[k] == lines@[k]@);
            }
        }
    }
    blocks
}

/// Both answers for the lines of a city: the least loss of a crucible that
/// goes at most 3 blocks one way, and of one that goes at least 4 and at
/// most 10.
pub fn solve(lines: &Vec<String>) -> (found: Option<(u128, u128)>)
    ensures
        match found {
            Some(f) => lines@.len() > 0 && least_loss(city_of(texts(lines@)), 0, 3, f.0 as int)
                && least_loss(city_of(texts(lines@)), 4, 10, f.1 as int),
            None => lines@.len() == 0 || too_large(city_of(texts(lines@))) || overflows(
                city_of(texts(lines@)),
                0,
                3,
            ) || overflows(city_of(texts(lines@)), 4, 10),
        },
{
    let blocks = read_blocks(lines);
    let sol1 = match min_loss_djikstra(&blocks, 0, 3) {
        Some(v) => v,
        None => {
            return None;
        },
    };
    match min_loss_djikstra(&blocks, 4, 10) {
        Some(sol2) => Some((sol1, sol2)),
        None => None,
    }
}

} // verus!
