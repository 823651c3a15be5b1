//! Bricks of sand that fall onto a pile: which of them bear the others, and
//! how many fall when one is taken away.
use crate::text::{number_i64, parse_i64, split, split_within, texts, to_chars};
use vstd::prelude::*;

verus! {

/// A brick: the least and the greatest of its coordinates along each axis,
/// and the place of its line.
#[derive(Debug, Eq, PartialEq, Hash, Copy, Clone)]
pub struct Brick {
    pub x: (i32, i32),
    pub y: (i32, i32),
    pub z: (i32, i32),
    pub id: usize,
}

/// Whether two bricks would meet if one fell onto the other: they share a
/// square seen from above.
pub open spec fn overlap(a: Brick, b: Brick) -> bool {
    a.x.1 >= b.x.0 && a.x.0 <= b.x.1 && a.y.1 >= b.y.0 && a.y.0 <= b.y.1
}

impl Brick {
    /// Whether the brick would meet another if it fell onto it.
    pub fn collides_with(&self, other_brick: &Brick) -> (hit: bool)
        ensures
            hit == overlap(*self, *other_brick),
    {
        let (x_start, x_end) = self.x;
        let (other_x_start, other_x_end) = other_brick.x;
        if x_end < other_x_start || x_start > other_x_end {
            return false;
        }
        let (y_start, y_end) = self.y;
        let (other_y_start, other_y_end) = other_brick.y;
        y_end >= other_y_start && y_start <= other_y_end
    }
}

/// The height at which a falling brick comes to rest on a pile: the
/// greatest top, none below 0, among the bricks that it would meet.
pub open spec fn rest_height(falling: Brick, pile: Seq<Brick>) -> int
    decreases pile.len(),
{
    if pile.len() == 0 {
        0
    } else {
        let below = rest_height(falling, pile.drop_last());
        if overlap(falling, pile.last()) && pile.last().z.1 > below {
            pile.last().z.1 as int
        } else {
            below
        }
    }
}

/// Whether brick `b` of the pile holds the falling brick up.
pub open spec fn holds_up(falling: Brick, pile: Seq<Brick>, b: Brick) -> bool {
    overlap(falling, b) && b.z.1 == rest_height(falling, pile)
}

/// The bricks of the pile that hold the falling brick up, in the order of
/// the pile.
pub open spec fn holders(falling: Brick, pile: Seq<Brick>) -> Seq<Brick> {
    pile.filter(|b: Brick| holds_up(falling, pile, b))
}

/// The rest height is the top of no brick that the falling brick would meet
/// and that lies higher.
pub proof fn lemma_rest_height(falling: Brick, pile: Seq<Brick>)
    ensures
        0 <= rest_height(falling, pile) <= i32::MAX,
        forall|i: int|
            0 <= i < pile.len() && overlap(falling, #[trigger] pile[i]) ==> pile[i].z.1
                <= rest_height(falling, pile),
        rest_height(falling, pile) == 0 || exists|i: int|
            0 <= i < pile.len() && overlap(falling, #[trigger] pile[i]) && pile[i].z.1
                == rest_height(falling, pile),
    decreases pile.len(),
{
    if pile.len() > 0 {
        let rest = pile.drop_last();
        lemma_rest_height(falling, rest);
        assert forall|i: int| 0 <= i < pile.len() && overlap(falling, #[trigger] pile[i]) implies pile[i].z.1
            <= rest_height(falling, pile) by {
            if i < rest.len() {
                assert(rest[i] == pile[i]);
            }
        }
        if rest_height(falling, pile) != 0 {
            if overlap(falling, pile.last()) && pile.last().z.1 > rest_height(falling, rest) {
                assert(pile[pile.len() - 1] == pile.last());
            } else {
                let i = choose|i: int|
                    0 <= i < rest.len() && overlap(falling, #[trigger] rest[i]) && rest[i].z.1
                        == rest_height(falling, rest);
                assert(pile[i] == rest[i]);
            }
        }
    }
}

/// Finds where a falling brick comes to rest on the pile, and the bricks
/// that hold it up.
pub fn collision_points(falling_brick: Brick, pile: &Vec<Brick>) -> (found: (i32, Vec<Brick>))
    ensures
        found.0 == rest_height(falling_brick, pile@),
        found.1@ == holders(falling_brick, pile@),
{
    let mut z: i32 = 0;
    let mut i: usize = 0;
    assert(pile@.take(0) =~= Seq::empty());
    while i < pile.len()
        invariant
            i <= pile@.len(),
            z == rest_height(falling_brick, pile@.take(i as int)),
        decreases pile@.len() - i,
    {
        assert(pile@.take(i + 1).drop_last() =~= pile@.take(i as int));
        if falling_brick.collides_with(&pile[i]) && pile[i].z.1 > z {
            z = pile[i].z.1;
        }
        i += 1;
    }
    assert(pile@.take(pile@.len() as int) =~= pile@);
    let mut collisions: Vec<Brick> = Vec::new();
    let ghost holding = |b: Brick| holds_up(falling_brick, pile@, b);
    let mut i: usize = 0;
    assert(pile@.take(0).filter(holding) =~= Seq::empty()) by {
        assert(pile@.take(0) =~= Seq::empty());
    }
    while i < pile.len()
        invariant
            i <= pile@.len(),
            z == rest_height(falling_brick, pile@),
            holding == (|b: Brick| holds_up(falling_brick, pile@, b)),
            collisions@ == pile@.take(i as int).filter(holding),
        decreases pile@.len() - i,
    {
        proof {
            assert(pile@.take(i + 1) =~= pile@.take(i as int).push(pile@[i as int]));
            pile@.take(i as int).lemma_filter_push(pile@[i as int], holding);
        }
        if falling_brick.collides_with(&pile[i]) && pile[i].z.1 == z {
            collisions.push(pile[i]);
        }
        i += 1;
    }
    assert(pile@.take(pile@.len() as int) =~= pile@);
    (z, collisions)
}

/// Whether the pile holds a brick with this top and this place.
pub open spec fn piled(pile: Seq<Brick>, top: int, id: usize) -> bool {
    exists|i: int| 0 <= i < pile.len() && (#[trigger] pile[i]).z.1 == top && pile[i].id == id
}

/// The brick at rest on the pile: as high as it was, one above the rest
/// height.
pub open spec fn rested(falling: Brick, pile: Seq<Brick>) -> Brick {
    let new_z = rest_height(falling, pile) + 1;
    Brick {
        x: falling.x,
        y: falling.y,
        z: (new_z as i32, (new_z + (falling.z.1 - falling.z.0)) as i32),
        id: falling.id,
    }
}

/// Whether the brick at rest has coordinates of 32 bits.
pub open spec fn rests(falling: Brick, pile: Seq<Brick>) -> bool {
    let new_z = rest_height(falling, pile) + 1;
    new_z <= i32::MAX && i32::MIN <= falling.z.1 - falling.z.0 <= i32::MAX && i32::MIN <= new_z + (
    falling.z.1 - falling.z.0) <= i32::MAX
}

/// The pile after the first `k` bricks have fallen, where each of them came
/// to rest. A brick joins the pile unless one of its top and its place lies
/// there already.
pub open spec fn pile_of(bricks: Seq<Brick>, k: int) -> Option<Seq<Brick>>
    decreases k,
{
    if k <= 0 || k > bricks.len() {
        Some(Seq::empty())
    } else {
        match pile_of(bricks, k - 1) {
            Some(pile) => {
                let b = rested(bricks[k - 1], pile);
                if !rests(bricks[k - 1], pile) {
                    None
                } else if piled(pile, b.z.1 as int, b.id) {
                    Some(pile)
                } else {
                    Some(pile.push(b))
                }
            },
            None => None,
        }
    }
}

/// Whether, when the first `k` bricks have fallen, the brick of place `a`
/// holds the brick of place `b` up.
pub open spec fn bears(bricks: Seq<Brick>, k: int, a: usize, b: usize) -> bool
    decreases k,
{
    if k <= 0 || k > bricks.len() {
        false
    } else {
        bears(bricks, k - 1, a, b) || (bricks[k - 1].id == b && match pile_of(bricks, k - 1) {
            Some(pile) => held_by(bricks[k - 1], pile, a),
            None => false,
        })
    }
}

/// Whether a brick of place `a` in the pile holds the falling brick up.
pub open spec fn held_by(falling: Brick, pile: Seq<Brick>, a: usize) -> bool {
    exists|i: int| 0 <= i < pile.len() && holds_up(falling, pile, #[trigger] pile[i]) && pile[i].id == a
}

/// Whether each brick's place is less than the number of bricks.
pub open spec fn ids_fit(bricks: Seq<Brick>) -> bool {
    forall|i: int| 0 <= i < bricks.len() ==> (#[trigger] bricks[i]).id < bricks.len()
}

/// Whether the two tables say which brick bears which once all bricks have
/// fallen: `supporting[a]` lists, each once, the bricks that `a` holds up,
/// and `sitting[b]` those that hold `b` up.
pub open spec fn graph_of(
    supporting: Seq<Vec<usize>>,
    sitting: Seq<Vec<usize>>,
    bricks: Seq<Brick>,
    k: int,
) -> bool {
    &&& supporting.len() == bricks.len()
    &&& sitting.len() == bricks.len()
    &&& forall|a: int| 0 <= a < supporting.len() ==> (#[trigger] supporting[a])@.no_duplicates()
    &&& forall|b: int| 0 <= b < sitting.len() ==> (#[trigger] sitting[b])@.no_duplicates()
    &&& forall|a: int, b: usize|
        0 <= a < supporting.len() ==> (#[trigger] supporting[a]@.contains(b) <==> bears(
            bricks,
            k,
            a as usize,
            b,
        ))
    &&& forall|b: int, a: usize|
        0 <= b < sitting.len() ==> (#[trigger] sitting[b]@.contains(a) <==> bears(
            bricks,
            k,
            a,
            b as usize,
        ))
}

/// Adds a place to a list unless the list holds it.
pub fn add_once(list: &mut Vec<usize>, v: usize)
    requires
        old(list)@.no_duplicates(),
    ensures
        final(list)@.no_duplicates(),
        forall|x: usize| final(list)@.contains(x) <==> old(list)@.contains(x) || x == v,
        final(list)@ == if old(list)@.contains(v) {
            old(list)@
        } else {
            old(list)@.push(v)
        },
{
    let mut i: usize = 0;
    while i < list.len()
        invariant
            i <= list@.len(),
            list@ == old(list)@,
            list@.no_duplicates(),
            forall|j: int| 0 <= j < i ==> list@[j] != v,
        decreases list@.len() - i,
    {
        if list[i] == v {
            assert(list@.contains(v));
            return ;
        }
        i += 1;
    }
    let ghost before = list@;
    list.push(v);
    proof {
        assert(!before.contains(v));
        assert forall|x: usize| list@.contains(x) <==> before.contains(x) || x == v by {
            if before.contains(x) {
                let j = choose|j: int| 0 <= j < before.len() && before[j] == x;
                assert(list@[j] == x);
            }
            if x == v {
                assert(list@[before.len() as int] == v);
            }
        }
    }
}

/// Whether the pile holds a brick with this top and this place.
fn in_pile(pile: &Vec<Brick>, top: i32, id: usize) -> (yes: bool)
    ensures
        yes == piled(pile@, top as int, id),
{
    let mut i: usize = 0;
    while i < pile.len()
        invariant
            i <= pile@.len(),
            forall|j: int| 0 <= j < i ==> !((#[trigger] pile@[j]).z.1 == top && pile@[j].id == id),
        decreases pile@.len() - i,
    {
        if pile[i].z.1 == top && pile[i].id == id {
            return true;
        }
        i += 1;
    }
    false
}

/// A table with an empty list for each of `n` bricks.
fn empty_table(n: usize) -> (table: Vec<Vec<usize>>)
    ensures
        table@.len() == n,
        forall|i: int| 0 <= i < n ==> (#[trigger] table@[i])@.len() == 0,
{
    let mut table: Vec<Vec<usize>> = Vec::new();
    let mut i: usize = 0;
    while i < n
        invariant
            i <= n,
            table@.len() == i,
            forall|j: int| 0 <= j < i ==> (#[trigger] table@[j])@.len() == 0,
        decreases n - i,
    {
        table.push(Vec::new());
        i += 1;
    }
    table
}

/// Whether every brick's place fits.
fn check_ids(bricks: &Vec<Brick>) -> (yes: bool)
    ensures
        yes == ids_fit(bricks@),
{
    let mut i: usize = 0;
    while i < bricks.len()
        invariant
            i <= bricks@.len(),
            forall|j: int| 0 <= j < i ==> (#[trigger] bricks@[j]).id < bricks@.len(),
        decreases bricks@.len() - i,
    {
        if bricks[i].id >= bricks.len() {
            return false;
        }
        i += 1;
    }
    true
}

/// Lets the bricks fall in their order and notes which brick comes to rest
/// on which. Returns the bricks that each brick holds up, and the bricks
/// that hold each brick up. `None` where a place does not fit or a brick
/// comes to rest beyond 32 bits.
pub fn extract_graph(bricks: Vec<Brick>) -> (graph: Option<(Vec<Vec<usize>>, Vec<Vec<usize>>)>)
    ensures
        graph is Some <==> ids_fit(bricks@) && pile_of(bricks@, bricks@.len() as int) is Some,
        graph matches Some(g) ==> graph_of(g.0@, g.1@, bricks@, bricks@.len() as int),
{
    if !check_ids(&bricks) {
        return None;
    }
    let n = bricks.len();
    let mut pile: Vec<Brick> = Vec::new();
    let mut supporting = empty_table(n);
    let mut sitting = empty_table(n);
    let mut k: usize = 0;
    proof {
        assert forall|a: int| 0 <= a < n implies (#[trigger] supporting@[a])@.no_duplicates() by {}
        assert forall|b: int| 0 <= b < n implies (#[trigger] sitting@[b])@.no_duplicates() by {}
    }
    while k < n
        invariant
            k <= n,
            n == bricks@.len(),
            ids_fit(bricks@),
            pile_of(bricks@, k as int) == Some(pile@),
            forall|i: int| 0 <= i < pile@.len() ==> (#[trigger] pile@[i]).id < n,
            graph_of(supporting@, sitting@, bricks@, k as int),
        decreases n - k,
    {
        let mut falling = bricks[k];
        let ghost fell = falling;
        let (z, collisions) = collision_points(falling, &pile);
        proof {
            lemma_rest_height(falling, pile@);
        }
        let height: i64 = falling.z.1 as i64 - falling.z.0 as i64;
        let new_z: i64 = z as i64 + 1;
        if new_z > 0x7fff_ffff || height < -0x8000_0000 || height > 0x7fff_ffff || new_z + height
            > 0x7fff_ffff || new_z + height < -0x8000_0000 {
            proof {
                lemma_no_pile(bricks@, k + 1, n as int);
            }
            return None;
        }
        falling.z = (new_z as i32, (new_z + height) as i32);
        assert(falling == rested(fell, pile@));
        let ghost below = pile@;
        if !in_pile(&pile, falling.z.1, falling.id) {
            pile.push(falling);
        }
        let mut j: usize = 0;
        proof {
            lemma_holders(fell, below, 0);
            assert forall|i: int| 0 <= i < collisions@.len() implies (#[trigger] collisions@[i]).id
                < n by {
                let m = choose|m: int| 0 <= m < below.len() && below[m] == collisions@[i];
            }
        }
        while j < collisions.len()
            invariant
                j <= collisions@.len(),
                k < n,
                n == bricks@.len(),
                fell == bricks@[k as int],
                fell.id < n,
                falling.id == fell.id,
                collisions@ == holders(fell, below),
                forall|i: int| 0 <= i < collisions@.len() ==> (#[trigger] collisions@[i]).id < n,
                supporting@.len() == n,
                sitting@.len() == n,
                forall|a: int| 0 <= a < n ==> (#[trigger] supporting@[a])@.no_duplicates(),
                forall|b: int| 0 <= b < n ==> (#[trigger] sitting@[b])@.no_duplicates(),
                forall|a: int, b: usize|
                    0 <= a < n ==> (#[trigger] supporting@[a]@.contains(b) <==> (bears(
                        bricks@,
                        k as int,
                        a as usize,
                        b,
                    ) || (b == fell.id && among(collisions@, j as int, a as usize)))),
                forall|b: int, a: usize|
                    0 <= b < n ==> (#[trigger] sitting@[b]@.contains(a) <==> (bears(
                        bricks@,
                        k as int,
                        a,
                        b as usize,
                    ) || (b == fell.id && among(collisions@, j as int, a)))),
            decreases collisions@.len() - j,
        {
            let collision_point = collisions[j];
            let ghost s1 = supporting@;
            let ghost t1 = sitting@;
            add_once(&mut supporting[collision_point.id], falling.id);
            add_once(&mut sitting[falling.id], collision_point.id);
            proof {
                let c = collision_point.id;
                assert forall|a: usize| among(collisions@, j + 1, a) <==> among(
                    collisions@,
                    j as int,
                    a,
                ) || a == c by {
                    if among(collisions@, j + 1, a) {
                        let i = choose|i: int| 0 <= i < j + 1 && (#[trigger] collisions@[i]).id == a;
                        if i < j {
                            assert(among(collisions@, j as int, a));
                        }
                    }
                    if among(collisions@, j as int, a) {
                        let i = choose|i: int| 0 <= i < j && (#[trigger] collisions@[i]).id == a;
                        assert(collisions@[i].id == a);
                    }
                    if a == c {
                        assert(collisions@[j as int].id == a);
                    }
                }
                assert forall|a: int, b: usize| 0 <= a < n implies (#[trigger] supporting@[a]@.contains(
                    b,
                ) <==> (bears(bricks@, k as int, a as usize, b) || (b == fell.id && among(
                    collisions@,
                    j + 1,
                    a as usize,
                )))) by {
                    if a != c {
                        assert(supporting@[a] == s1[a]);
                    }
                    assert(s1[a]@.contains(b) <==> (bears(bricks@, k as int, a as usize, b) || (b
                        == fell.id && among(collisions@, j as int, a as usize))));
                }
                assert forall|b: int, a: usize| 0 <= b < n implies (#[trigger] sitting@[b]@.contains(
                    a,
                ) <==> (bears(bricks@, k as int, a, b as usize) || (b == fell.id && among(
                    collisions@,
                    j + 1,
                    a,
                )))) by {
                    if b != fell.id {
                        assert(sitting@[b] == t1[b]);
                    }
                    assert(t1[b]@.contains(a) <==> (bears(bricks@, k as int, a, b as usize) || (b
                        == fell.id && among(collisions@, j as int, a))));
                }
                assert forall|a: int| 0 <= a < n implies (#[trigger] supporting@[a])@.no_duplicates() by {
                    if a != c {
                        assert(supporting@[a] == s1[a]);
                    }
                }
                assert forall|b: int| 0 <= b < n implies (#[trigger] sitting@[b])@.no_duplicates() by {
                    if b != fell.id {
                        assert(sitting@[b] == t1[b]);
                    }
                }
            }
            j += 1;
        }
        proof {
            assert forall|a: usize| among(collisions@, collisions@.len() as int, a) <==> held_by(
                fell,
                below,
                a,
            ) by {
                lemma_holders(fell, below, a);
            }
        }
        k += 1;
    }
    Some((supporting, sitting))
}

/// Whether one of the first `upto` bricks has the place `a`.
pub open spec fn among(bricks: Seq<Brick>, upto: int, a: usize) -> bool {
    exists|i: int| 0 <= i < upto && (#[trigger] bricks[i]).id == a
}

/// A brick of some place is among the holders exactly where one of that
/// place in the pile holds the falling brick up.
pub proof fn lemma_holders(falling: Brick, pile: Seq<Brick>, a: usize)
    ensures
        among(holders(falling, pile), holders(falling, pile).len() as int, a) <==> held_by(
            falling,
            pile,
            a,
        ),
        forall|i: int|
            0 <= i < holders(falling, pile).len() ==> pile.contains(
                #[trigger] holders(falling, pile)[i],
            ),
{
    let holding = |b: Brick| holds_up(falling, pile, b);
    let h = pile.filter(holding);
    pile.filter_lemma(holding);
    assert forall|i: int| 0 <= i < h.len() implies pile.contains(#[trigger] h[i]) by {
        assert(h.contains(h[i]));
        pile.lemma_filter_contains_rev(holding, h[i]);
    }
    if among(h, h.len() as int, a) {
        let i = choose|i: int| 0 <= i < h.len() && (#[trigger] h[i]).id == a;
        assert(holding(h[i]));
        assert(pile.contains(h[i]));
        let m = choose|m: int| 0 <= m < pile.len() && pile[m] == h[i];
        assert(holds_up(falling, pile, pile[m]) && pile[m].id == a);
    }
    if held_by(falling, pile, a) {
        let m = choose|m: int|
            0 <= m < pile.len() && holds_up(falling, pile, #[trigger] pile[m]) && pile[m].id == a;
        assert(holding(pile[m]));
        assert(h.contains(pile[m]));
        let i = choose|i: int| 0 <= i < h.len() && h[i] == pile[m];
        assert(h[i].id == a);
    }
}

/// Once a brick has come to rest beyond 32 bits there is no pile.
pub proof fn lemma_no_pile(bricks: Seq<Brick>, k: int, n: int)
    requires
        0 <= k <= n <= bricks.len(),
        pile_of(bricks, k) is None,
    ensures
        pile_of(bricks, n) is None,
    decreases n - k,
{
    if k < n {
        lemma_no_pile(bricks, k, n - 1);
    }
}

/// The places that are marked.
pub open spec fn marks(destroyed: Seq<bool>) -> Set<usize> {
    Set::new(|i: usize| i < destroyed.len() && destroyed[i as int])
}

/// Whether a table names only bricks that it has a list for.
pub open spec fn tidy(table: Seq<Vec<usize>>) -> bool {
    forall|a: int, j: int|
        0 <= a < table.len() && 0 <= j < table[a]@.len() ==> (#[trigger] table[a]@[j]) < table.len()
}

/// What a table lists for each brick, as sets.
pub open spec fn sets_of(table: Seq<Vec<usize>>) -> Seq<Set<usize>> {
    table.map_values(|list: Vec<usize>| list@.to_set())
}

/// The bricks that hold brick `b` up.
pub open spec fn seats(sitting: Seq<Set<usize>>, b: usize) -> Set<usize> {
    if b < sitting.len() {
        sitting[b as int]
    } else {
        Set::empty()
    }
}

/// The bricks of a layer that fall: those that only destroyed bricks hold up.
pub open spec fn collapsing(
    sitting: Seq<Set<usize>>,
    layer: Set<usize>,
    destroyed: Set<usize>,
) -> Set<usize> {
    layer.filter(|b: usize| seats(sitting, b).subset_of(destroyed))
}

/// The bricks that one of the fallen bricks holds up.
pub open spec fn carried(supporting: Seq<Set<usize>>, fallen: Set<usize>) -> Set<usize> {
    Set::new(
        |b: usize|
            exists|a: usize|
                fallen.contains(a) && a < supporting.len() && #[trigger] supporting[a as int].contains(
                    b,
                ),
    )
}

/// How many bricks fall, layer after layer, and which bricks are destroyed
/// in the end: the bricks of a layer that only destroyed bricks hold up
/// fall and are destroyed, and the bricks that they hold up are the next
/// layer. `None` where a layer is left after `fuel` further layers.
pub open spec fn reaction(
    supporting: Seq<Set<usize>>,
    sitting: Seq<Set<usize>>,
    layer: Set<usize>,
    destroyed: Set<usize>,
    fuel: nat,
) -> Option<(nat, Set<usize>)>
    decreases fuel,
{
    let fallen = collapsing(sitting, layer, destroyed);
    let next = carried(supporting, fallen);
    let wrecked = destroyed.union(fallen);
    if next == Set::<usize>::empty() {
        Some((fallen.len(), wrecked))
    } else if fuel == 0 {
        None
    } else {
        match reaction(supporting, sitting, next, wrecked, (fuel - 1) as nat) {
            Some(r) => Some((fallen.len() + r.0, r.1)),
            None => None,
        }
    }
}

/// Whether one of the first `upto` places of a list is `x`.
pub open spec fn listed(list: Seq<usize>, upto: int, x: usize) -> bool {
    exists|j: int| 0 <= j < upto && list[j] == x
}

/// One place more is listed with one more place of the list.
pub proof fn lemma_listed(list: Seq<usize>, upto: int, x: usize)
    requires
        0 <= upto < list.len(),
    ensures
        listed(list, upto + 1, x) <==> listed(list, upto, x) || list[upto] == x,
{
    if listed(list, upto + 1, x) {
        let j = choose|j: int| 0 <= j < upto + 1 && list[j] == x;
        if j < upto {
            assert(listed(list, upto, x));
        }
    }
    if listed(list, upto, x) {
        let j = choose|j: int| 0 <= j < upto && list[j] == x;
        assert(0 <= j < upto + 1 && list[j] == x);
    }
}

/// Whether every brick of the list is marked.
fn all_destroyed(seats: &Vec<usize>, destroyed: &Vec<bool>) -> (yes: bool)
    requires
        forall|j: int| 0 <= j < seats@.len() ==> seats@[j] < destroyed@.len(),
    ensures
        yes == seats@.to_set().subset_of(marks(destroyed@)),
{
    let mut j: usize = 0;
    while j < seats.len()
        invariant
            j <= seats@.len(),
            forall|i: int| 0 <= i < seats@.len() ==> seats@[i] < destroyed@.len(),
            forall|i: int| 0 <= i < j ==> marks(destroyed@).contains(#[trigger] seats@[i]),
        decreases seats@.len() - j,
    {
        if !destroyed[seats[j]] {
            assert(seats@.to_set().contains(seats@[j as int]));
            return false;
        }
        j += 1;
    }
    assert forall|a: usize| seats@.to_set().contains(a) implies marks(destroyed@).contains(a) by {
        let i = choose|i: int| 0 <= i < seats@.len() && seats@[i] == a;
    }
    true
}

/// Lets the bricks of a layer fall that nothing holds up any more, then
/// the bricks that they held up, and so on. Returns the number of bricks
/// that fell.
pub fn chain_reaction(
    brick_ids: &Vec<usize>,
    supporting: &Vec<Vec<usize>>,
    sitting: &Vec<Vec<usize>>,
    destroyed: &mut Vec<bool>,
    limit: usize,
) -> (fallen: Option<u128>)
    requires
        tidy(supporting@),
        tidy(sitting@),
        supporting@.len() == sitting@.len(),
        old(destroyed)@.len() == sitting@.len(),
        brick_ids@.no_duplicates(),
        forall|i: int| 0 <= i < brick_ids@.len() ==> brick_ids@[i] < sitting@.len(),
    ensures
        final(destroyed)@.len() == old(destroyed)@.len(),
        match fallen {
            Some(v) => reaction(
                sets_of(supporting@),
                sets_of(sitting@),
                brick_ids@.to_set(),
                marks(old(destroyed)@),
                limit as nat,
            ) == Some((v as nat, marks(final(destroyed)@))),
            None => match reaction(
                sets_of(supporting@),
                sets_of(sitting@),
                brick_ids@.to_set(),
                marks(old(destroyed)@),
                limit as nat,
            ) {
                Some(r) => r.0 > u128::MAX,
                None => true,
            },
        },
    decreases limit,
{
    let n = sitting.len();
    let ghost layer = brick_ids@.to_set();
    let ghost before = marks(destroyed@);
    let ghost falls = collapsing(sets_of(sitting@), layer, before);
    let mut collapsible: Vec<usize> = Vec::new();
    let mut i: usize = 0;
    while i < brick_ids.len()
        invariant
            i <= brick_ids@.len(),
            n == sitting@.len(),
            destroyed@.len() == n,
            destroyed@ == old(destroyed)@,
            tidy(sitting@),
            brick_ids@.no_duplicates(),
            forall|j: int| 0 <= j < brick_ids@.len() ==> brick_ids@[j] < n,
            before == marks(destroyed@),
            collapsible@.no_duplicates(),
            forall|j: int| 0 <= j < collapsible@.len() ==> #[trigger] collapsible@[j] < n,
            forall|b: usize|
                collapsible@.contains(b) <==> (exists|j: int|
                    0 <= j < i && brick_ids@[j] == b) && seats(sets_of(sitting@), b).subset_of(before),
        decreases brick_ids@.len() - i,
    {
        let b = brick_ids[i];
        let ghost so_far = collapsible@;
        assert(seats(sets_of(sitting@), b) == sitting@[b as int]@.to_set());
        if all_destroyed(&sitting[b], destroyed) {
            proof {
                if so_far.contains(b) {
                    let j = choose|j: int| 0 <= j < i && brick_ids@[j] == b;
                }
            }
            collapsible.push(b);
            assert(collapsible@.drop_last() =~= so_far);
        }
        proof {
            assert forall|x: usize|
                collapsible@.contains(x) <==> (exists|j: int| 0 <= j < i + 1 && brick_ids@[j] == x)
                    && seats(sets_of(sitting@), x).subset_of(before) by {
                if collapsible@.contains(x) {
                    let m = choose|m: int| 0 <= m < collapsible@.len() && collapsible@[m] == x;
                    if m < so_far.len() {
                        assert(so_far[m] == x);
                        assert(so_far.contains(x));
                        let j = choose|j: int| 0 <= j < i && brick_ids@[j] == x;
                        assert(brick_ids@[j] == x);
                    } else {
                        assert(brick_ids@[i as int] == x);
                    }
                }
                if (exists|j: int| 0 <= j < i + 1 && brick_ids@[j] == x) && seats(
                    sets_of(sitting@),
                    x,
                ).subset_of(before) {
                    let j = choose|j: int| 0 <= j < i + 1 && brick_ids@[j] == x;
                    if j < i {
                        assert(so_far.contains(x));
                        let m = choose|m: int| 0 <= m < so_far.len() && so_far[m] == x;
                        assert(collapsible@[m] == x);
                    } else {
                        assert(collapsible@[collapsible@.len() - 1] == x);
                    }
                }
            }
        }
        i += 1;
    }
    proof {
        assert(collapsible@.to_set() =~= falls) by {
            assert forall|x: usize| collapsible@.to_set().contains(x) <==> falls.contains(x) by {
                if falls.contains(x) {
                    let j = choose|j: int| 0 <= j < brick_ids@.len() && brick_ids@[j] == x;
                }
            }
        }
        collapsible@.unique_seq_to_set();
    }
    let destroyable = collapsible.len() as u128;
    let mut next_layer: Vec<usize> = Vec::new();
    let mut i: usize = 0;
    while i < collapsible.len()
        invariant
            i <= collapsible@.len(),
            n == sitting@.len(),
            supporting@.len() == n,
            destroyed@.len() == n,
            tidy(supporting@),
            forall|j: int| 0 <= j < collapsible@.len() ==> #[trigger] collapsible@[j] < n,
            forall|j: int| 0 <= j < next_layer@.len() ==> #[trigger] next_layer@[j] < n,
            next_layer@.no_duplicates(),
            forall|x: usize| #[trigger]
                marks(destroyed@).contains(x) <==> before.contains(x) || listed(
                    collapsible@,
                    i as int,
                    x,
                ),
            forall|x: usize|
                next_layer@.contains(x) <==> exists|j: int|
                    0 <= j < i && #[trigger] supporting@[collapsible@[j] as int]@.contains(x),
        decreases collapsible@.len() - i,
    {
        let collapsed_brick = collapsible[i];
        let ghost marked = destroyed@;
        destroyed.set(collapsed_brick, true);
        proof {
            assert forall|x: usize| #[trigger]
                marks(destroyed@).contains(x) <==> before.contains(x) || listed(
                    collapsible@,
                    i + 1,
                    x,
                ) by {
                lemma_listed(collapsible@, i as int, x);
                assert(marks(marked).contains(x) <==> before.contains(x) || listed(
                    collapsible@,
                    i as int,
                    x,
                ));
                if x != collapsed_brick {
                    assert(marks(destroyed@).contains(x) <==> marks(marked).contains(x));
                } else {
                    assert(destroyed@[x as int]);
                    assert(marks(destroyed@).contains(x));
                    assert(collapsible@[i as int] == x);
                    assert(listed(collapsible@, i + 1, x));
                }
            }
        }
        let support = &supporting[collapsed_brick];
        let mut k: usize = 0;
        while k < support.len()
            invariant
                k <= support@.len(),
                i < collapsible@.len(),
                n == supporting@.len(),
                support@ == supporting@[collapsed_brick as int]@,
                collapsed_brick == collapsible@[i as int],
                collapsed_brick < n,
                tidy(supporting@),
                destroyed@.len() == n,
                forall|x: usize| #[trigger]
                    marks(destroyed@).contains(x) <==> before.contains(x) || listed(
                        collapsible@,
                        i + 1,
                        x,
                    ),
                forall|j: int| 0 <= j < next_layer@.len() ==> #[trigger] next_layer@[j] < n,
                next_layer@.no_duplicates(),
                forall|x: usize|
                    next_layer@.contains(x) <==> (exists|j: int|
                        0 <= j < i && #[trigger] supporting@[collapsible@[j] as int]@.contains(x))
                        || exists|m: int| 0 <= m < k && support@[m] == x,
            decreases support@.len() - k,
        {
            let ghost queued = next_layer@;
            add_once(&mut next_layer, support[k]);
            proof {
                assert(support@[k as int] < n);
                assert forall|j: int| 0 <= j < next_layer@.len() implies #[trigger] next_layer@[j]
                    < n by {
                    assert(next_layer@.contains(next_layer@[j]));
                    if queued.contains(next_layer@[j]) {
                        let m = choose|m: int| 0 <= m < queued.len() && queued[m] == next_layer@[j];
                    }
                }
                assert forall|x: usize|
                    next_layer@.contains(x) <==> (exists|j: int|
                        0 <= j < i && #[trigger] supporting@[collapsible@[j] as int]@.contains(x))
                        || exists|m: int| 0 <= m < k + 1 && support@[m] == x by {
                    if exists|m: int| 0 <= m < k + 1 && support@[m] == x {
                        let m = choose|m: int| 0 <= m < k + 1 && support@[m] == x;
                        if m < k {
                            assert(queued.contains(x));
                        }
                    }
                    if exists|m: int| 0 <= m < k && support@[m] == x {
                        let m = choose|m: int| 0 <= m < k && support@[m] == x;
                        assert(support@[m] == x);
                    }
                }
            }
            k += 1;
        }
        proof {
            assert forall|x: usize|
                next_layer@.contains(x) <==> exists|j: int|
                    0 <= j < i + 1 && #[trigger] supporting@[collapsible@[j] as int]@.contains(
                        x,
                    ) by {
                if exists|j: int|
                    0 <= j < i + 1 && #[trigger] supporting@[collapsible@[j] as int]@.contains(x) {
                    let j = choose|j: int|
                        0 <= j < i + 1 && #[trigger] supporting@[collapsible@[j] as int]@.contains(
                            x,
                        );
                    if j == i {
                        let m = choose|m: int| 0 <= m < support@.len() && support@[m] == x;
                    }
                }
                if exists|m: int| 0 <= m < support@.len() && support@[m] == x {
                    assert(supporting@[collapsible@[i as int] as int]@.contains(x));
                }
            }
        }
        i += 1;
    }
    proof {
        assert(marks(destroyed@) =~= before.union(falls)) by {
            assert forall|x: usize| marks(destroyed@).contains(x) <==> before.union(falls).contains(
                x,
            ) by {
                assert(marks(destroyed@).contains(x) <==> before.contains(x) || listed(
                    collapsible@,
                    collapsible@.len() as int,
                    x,
                ));
                if falls.contains(x) {
                    assert(collapsible@.to_set().contains(x));
                    let j = choose|j: int| 0 <= j < collapsible@.len() && collapsible@[j] == x;
                    assert(listed(collapsible@, collapsible@.len() as int, x));
                }
                if listed(collapsible@, collapsible@.len() as int, x) {
                    let j = choose|j: int| 0 <= j < collapsible@.len() && collapsible@[j] == x;
                    assert(collapsible@.contains(x));
                }
            }
        }
        assert(next_layer@.to_set() =~= carried(sets_of(supporting@), falls)) by {
            assert forall|x: usize| next_layer@.to_set().contains(x) <==> carried(
                sets_of(supporting@),
                falls,
            ).contains(x) by {
                if next_layer@.contains(x) {
                    let j = choose|j: int|
                        0 <= j < collapsible@.len() && #[trigger] supporting@[collapsible@[j] as int]@.contains(
                            x,
                        );
                    assert(collapsible@.contains(collapsible@[j]));
                    assert(falls.contains(collapsible@[j]));
                    assert(sets_of(supporting@)[collapsible@[j] as int].contains(x));
                }
                if carried(sets_of(supporting@), falls).contains(x) {
                    let a = choose|a: usize|
                        falls.contains(a) && a < supporting@.len() && #[trigger] sets_of(
                            supporting@,
                        )[a as int].contains(x);
                    assert(collapsible@.to_set().contains(a));
                    let j = choose|j: int| 0 <= j < collapsible@.len() && collapsible@[j] == a;
                    assert(supporting@[collapsible@[j] as int]@.contains(x));
                }
            }
        }
        if next_layer@.len() == 0 {
            assert(next_layer@.to_set() =~= Set::<usize>::empty());
        } else {
            assert(next_layer@.to_set().contains(next_layer@[0]));
        }
    }
    if next_layer.len() == 0 {
        Some(destroyable)
    } else if limit == 0 {
        None
    } else {
        match chain_reaction(&next_layer, supporting, sitting, destroyed, limit - 1) {
            Some(more) => destroyable.checked_add(more),
            None => None,
        }
    }
}

/// The one brick of a set that holds exactly one.
pub open spec fn sole(seat: Set<usize>) -> Option<usize> {
    if seat.finite() && seat.len() == 1 {
        Some(seat.choose())
    } else {
        None
    }
}

/// The bricks that alone hold another brick up, each once, in the order of
/// the first `upto` bricks that they hold up.
pub open spec fn bearers(sitting: Seq<Set<usize>>, upto: int) -> Seq<usize>
    decreases upto,
{
    if upto <= 0 || upto > sitting.len() {
        Seq::empty()
    } else {
        let before = bearers(sitting, upto - 1);
        match sole(sitting[upto - 1]) {
            Some(a) => if before.contains(a) {
                before
            } else {
                before.push(a)
            },
            None => before,
        }
    }
}

/// Whether each list of a table holds a brick at most once.
pub open spec fn each_once(table: Seq<Vec<usize>>) -> bool {
    forall|a: int| 0 <= a < table.len() ==> (#[trigger] table[a])@.no_duplicates()
}

/// Finds the bricks that alone hold another brick up.
pub fn calculate_load_bearing(sitting: &Vec<Vec<usize>>) -> (load_bearing: Vec<usize>)
    requires
        each_once(sitting@),
    ensures
        load_bearing@ == bearers(sets_of(sitting@), sitting@.len() as int),
        load_bearing@.no_duplicates(),
        tidy(sitting@) ==> forall|i: int|
            0 <= i < load_bearing@.len() ==> #[trigger] load_bearing@[i] < sitting@.len(),
{
    let mut load_bearing: Vec<usize> = Vec::new();
    let mut b: usize = 0;
    while b < sitting.len()
        invariant
            b <= sitting@.len(),
            each_once(sitting@),
            load_bearing@ == bearers(sets_of(sitting@), b as int),
            load_bearing@.no_duplicates(),
            tidy(sitting@) ==> forall|i: int|
                0 <= i < load_bearing@.len() ==> #[trigger] load_bearing@[i] < sitting@.len(),
        decreases sitting@.len() - b,
    {
        let list = &sitting[b];
        let ghost before = load_bearing@;
        proof {
            assert(sets_of(sitting@)[b as int] == list@.to_set());
            list@.unique_seq_to_set();
            if list@.len() == 1 {
                let a = list@.to_set().choose();
                assert(list@.to_set().contains(list@[0]));
                assert(list@.to_set().contains(a));
                let j = choose|j: int| 0 <= j < list@.len() && list@[j] == a;
            }
        }
        if list.len() == 1 {
            add_once(&mut load_bearing, list[0]);
            proof {
                assert forall|i: int|
                    tidy(sitting@) && 0 <= i < load_bearing@.len() implies #[trigger] load_bearing@[i]
                    < sitting@.len() by {
                    assert(load_bearing@.contains(load_bearing@[i]));
                    if before.contains(load_bearing@[i]) {
                        let j = choose|j: int| 0 <= j < before.len() && before[j] == load_bearing@[i];
                    }
                }
            }
        }
        b += 1;
    }
    load_bearing
}

/// How many other bricks fall when brick `b` is taken away: the reaction
/// that starts with `b` alone, the bricks that hold it up counted as
/// destroyed, less `b` itself. `None` where the reaction has none, or the
/// number leaves 128 bits.
pub open spec fn fall_of(
    supporting: Seq<Set<usize>>,
    sitting: Seq<Set<usize>>,
    b: usize,
    fuel: nat,
) -> Option<nat> {
    match reaction(supporting, sitting, set![b], seats(sitting, b), fuel) {
        Some(r) => if 1 <= r.0 <= u128::MAX {
            Some((r.0 - 1) as nat)
        } else {
            None
        },
        None => None,
    }
}

/// The sum of what falls for each of the first `upto` bricks of a list,
/// where it stays within 128 bits.
pub open spec fn falls(
    load_bearing: Seq<usize>,
    supporting: Seq<Set<usize>>,
    sitting: Seq<Set<usize>>,
    fuel: nat,
    upto: int,
) -> Option<nat>
    decreases upto,
{
    if upto <= 0 || upto > load_bearing.len() {
        Some(0)
    } else {
        match (
            falls(load_bearing, supporting, sitting, fuel, upto - 1),
            fall_of(supporting, sitting, load_bearing[upto - 1], fuel),
        ) {
            (Some(t), Some(f)) => if t + f <= u128::MAX {
                Some(t + f)
            } else {
                None
            },
            _ => None,
        }
    }
}

/// A sum that has failed stays failed.
pub proof fn lemma_falls_none(
    load_bearing: Seq<usize>,
    supporting: Seq<Set<usize>>,
    sitting: Seq<Set<usize>>,
    fuel: nat,
    k: int,
    n: int,
)
    requires
        0 <= k <= n <= load_bearing.len(),
        falls(load_bearing, supporting, sitting, fuel, k) is None,
    ensures
        falls(load_bearing, supporting, sitting, fuel, n) is None,
    decreases n - k,
{
    if k < n {
        lemma_falls_none(load_bearing, supporting, sitting, fuel, k, n - 1);
    }
}

/// Marks the bricks of a list among `n` bricks.
fn marked(list: &Vec<usize>, n: usize) -> (destroyed: Vec<bool>)
    requires
        forall|j: int| 0 <= j < list@.len() ==> list@[j] < n,
    ensures
        destroyed@.len() == n,
        marks(destroyed@) == list@.to_set(),
{
    let mut destroyed: Vec<bool> = Vec::new();
    let mut i: usize = 0;
    while i < n
        invariant
            i <= n,
            destroyed@.len() == i,
            forall|j: int| 0 <= j < i ==> !destroyed@[j],
        decreases n - i,
    {
        destroyed.push(false);
        i += 1;
    }
    let mut j: usize = 0;
    while j < list.len()
        invariant
            j <= list@.len(),
            destroyed@.len() == n,
            forall|m: int| 0 <= m < list@.len() ==> list@[m] < n,
            forall|x: usize| #[trigger]
                marks(destroyed@).contains(x) <==> listed(list@, j as int, x),
        decreases list@.len() - j,
    {
        let ghost before = destroyed@;
        destroyed.set(list[j], true);
        proof {
            assert forall|x: usize| #[trigger]
                marks(destroyed@).contains(x) <==> listed(list@, j + 1, x) by {
                lemma_listed(list@, j as int, x);
                assert(marks(before).contains(x) <==> listed(list@, j as int, x));
                if x != list@[j as int] {
                    assert(marks(destroyed@).contains(x) <==> marks(before).contains(x));
                }
            }
        }
        j += 1;
    }
    proof {
        assert(marks(destroyed@) =~= list@.to_set()) by {
            assert forall|x: usize| marks(destroyed@).contains(x) <==> list@.to_set().contains(
                x,
            ) by {
                assert(marks(destroyed@).contains(x) <==> listed(list@, list@.len() as int, x));
                if listed(list@, list@.len() as int, x) {
                    let m = choose|m: int| 0 <= m < list@.len() && list@[m] == x;
                    assert(list@.contains(x));
                }
                if list@.contains(x) {
                    let m = choose|m: int| 0 <= m < list@.len() && list@[m] == x;
                    assert(listed(list@, list@.len() as int, x));
                }
            }
        }
    }
    destroyed
}

/// Adds up, for each brick of the list, how many other bricks fall when it
/// is taken away.
pub fn solve_pt2(
    load_bearing: Vec<usize>,
    sitting: Vec<Vec<usize>>,
    supporting: Vec<Vec<usize>>,
    limit: usize,
) -> (total: Option<u128>)
    requires
        tidy(supporting@),
        tidy(sitting@),
        supporting@.len() == sitting@.len(),
        forall|i: int| 0 <= i < load_bearing@.len() ==> load_bearing@[i] < sitting@.len(),
    ensures
        match total {
            Some(v) => falls(
                load_bearing@,
                sets_of(supporting@),
                sets_of(sitting@),
                limit as nat,
                load_bearing@.len() as int,
            ) == Some(v as nat),
            None => falls(
                load_bearing@,
                sets_of(supporting@),
                sets_of(sitting@),
                limit as nat,
                load_bearing@.len() as int,
            ) is None,
        },
{
    let n = sitting.len();
    let mut sol2: u128 = 0;
    let mut i: usize = 0;
    while i < load_bearing.len()
        invariant
            i <= load_bearing@.len(),
            n == sitting@.len(),
            tidy(supporting@),
            tidy(sitting@),
            supporting@.len() == sitting@.len(),
            forall|j: int| 0 <= j < load_bearing@.len() ==> load_bearing@[j] < n,
            falls(load_bearing@, sets_of(supporting@), sets_of(sitting@), limit as nat, i as int)
                == Some(sol2 as nat),
        decreases load_bearing@.len() - i,
    {
        let b = load_bearing[i];
        assert(tidy(sitting@));
        assert forall|j: int| 0 <= j < sitting@[b as int]@.len() implies sitting@[b as int]@[j]
            < n by {}
        let mut destroyed = marked(&sitting[b], n);
        let mut layer: Vec<usize> = Vec::new();
        layer.push(b);
        proof {
            assert(layer@.to_set() =~= set![b]) by {
                assert(layer@[0] == b);
            }
            assert(seats(sets_of(sitting@), b) == sitting@[b as int]@.to_set());
        }
        let r = chain_reaction(&layer, &supporting, &sitting, &mut destroyed, limit);
        let next = match r {
            Some(v) => match v.checked_sub(1) {
                Some(less) => sol2.checked_add(less),
                None => None,
            },
            None => None,
        };
        match next {
            Some(sum) => {
                sol2 = sum;
            },
            None => {
                proof {
                    lemma_falls_none(
                        load_bearing@,
                        sets_of(supporting@),
                        sets_of(sitting@),
                        limit as nat,
                        i + 1,
                        load_bearing@.len() as int,
                    );
                }
                return None;
            },
        }
        i += 1;
    }
    Some(sol2)
}

/// The number that a coordinate spells, where it fits in 32 bits, else 0.
pub open spec fn coordinate(s: Seq<char>) -> i32 {
    match number_i64(s) {
        Some(v) => if i32::MIN <= v <= i32::MAX {
            v as i32
        } else {
            0
        },
        None => 0,
    }
}

/// The brick that a line describes: its two ends about `~`, each end three
/// coordinates or more about `,`.
pub open spec fn brick_of(id: usize, line: Seq<char>) -> Option<Brick> {
    let ends = split(line, seq!['~']);
    if ends.len() < 2 {
        None
    } else {
        let from = split(ends[0], seq![',']);
        let to = split(ends[1], seq![',']);
        if from.len() < 3 || to.len() < 3 {
            None
        } else {
            Some(
                Brick {
                    x: (coordinate(from[0]), coordinate(to[0])),
                    y: (coordinate(from[1]), coordinate(to[1])),
                    z: (coordinate(from[2]), coordinate(to[2])),
                    id,
                },
            )
        }
    }
}

/// Reads a coordinate.
fn read_coordinate(s: &Vec<char>, from: usize, to: usize) -> (value: i32)
    requires
        from <= to <= s@.len(),
    ensures
        value == coordinate(s@.subrange(from as int, to as int)),
{
    match parse_i64(s, from, to) {
        Some(v) => if -0x8000_0000 <= v && v <= 0x7fff_ffff {
            v as i32
        } else {
            0
        },
        None => 0,
    }
}

impl Brick {
    /// Reads the brick of a line.
    pub fn parse(id: usize, line: &str) -> (brick: Option<Brick>)
        ensures
            brick == brick_of(id, line@),
    {
        let chars = to_chars(line);
        let tilde = vec!['~'];
        let comma = vec![','];
        assert(tilde@ =~= seq!['~']);
        assert(comma@ =~= seq![',']);
        assert(chars@.subrange(0, chars@.len() as int) =~= chars@);
        let ends = split_within(&chars, 0, chars.len(), &tilde);
        if ends.len() < 2 {
            return None;
        }
        let from = split_within(&chars, ends[0].0, ends[0].1, &comma);
        let to = split_within(&chars, ends[1].0, ends[1].1, &comma);
        if from.len() < 3 || to.len() < 3 {
            return None;
        }
        Some(
            Brick {
                x: (
                    read_coordinate(&chars, from[0].0, from[0].1),
                    read_coordinate(&chars, to[0].0, to[0].1),
                ),
                y: (
                    read_coordinate(&chars, from[1].0, from[1].1),
                    read_coordinate(&chars, to[1].0, to[1].1),
                ),
                z: (
                    read_coordinate(&chars, from[2].0, from[2].1),
                    read_coordinate(&chars, to[2].0, to[2].1),
                ),
                id,
            },
        )
    }
}

/// The first place among sorted bricks at which a brick stands whose
/// bottom is higher than `bottom`, and their number where none is.
pub open spec fn place_for(sorted: Seq<Brick>, bottom: i32, from: int) -> int
    decreases sorted.len() - from,
{
    if from < 0 || from >= sorted.len() {
        sorted.len() as int
    } else if sorted[from].z.0 > bottom {
        from
    } else {
        place_for(sorted, bottom, from + 1)
    }
}

/// The bricks in the order of their bottoms, bricks of one bottom in the
/// order in which they were given.
pub open spec fn by_bottom(bricks: Seq<Brick>) -> Seq<Brick>
    decreases bricks.len(),
{
    if bricks.len() == 0 {
        Seq::empty()
    } else {
        let before = by_bottom(bricks.drop_last());
        before.insert(place_for(before, bricks.last().z.0, 0), bricks.last())
    }
}

/// Sorts the bricks by their bottoms.
pub fn sort_bricks(bricks: Vec<Brick>) -> (sorted: Vec<Brick>)
    ensures
        sorted@ == by_bottom(bricks@),
{
    let mut sorted: Vec<Brick> = Vec::new();
    let mut k: usize = 0;
    assert(bricks@.take(0) =~= Seq::empty());
    while k < bricks.len()
        invariant
            k <= bricks@.len(),
            sorted@ == by_bottom(bricks@.take(k as int)),
            sorted@.len() == k,
        decreases bricks@.len() - k,
    {
        let brick = bricks[k];
        proof {
            assert(bricks@.take(k + 1).drop_last() =~= bricks@.take(k as int));
        }
        let mut at: usize = 0;
        while at < sorted.len() && sorted[at].z.0 <= brick.z.0
            invariant
                at <= sorted@.len(),
                place_for(sorted@, brick.z.0, 0) == place_for(sorted@, brick.z.0, at as int),
            decreases sorted@.len() - at,
        {
            at += 1;
        }
        sorted.insert(at, brick);
        k += 1;
    }
    assert(bricks@.take(k as int) =~= bricks@);
    sorted
}

/// The bricks of the first `upto` lines, each with the place of its line.
pub open spec fn bricks_of(lines: Seq<Seq<char>>, upto: int) -> Option<Seq<Brick>>
    decreases upto,
{
    if upto <= 0 || upto > lines.len() {
        Some(Seq::empty())
    } else {
        match (bricks_of(lines, upto - 1), brick_of((upto - 1) as usize, lines[upto - 1])) {
            (Some(before), Some(b)) => Some(before.push(b)),
            _ => None,
        }
    }
}

/// No bricks come of lines of which some describe none.
pub proof fn lemma_no_bricks(lines: Seq<Seq<char>>, k: int, n: int)
    requires
        0 <= k <= n <= lines.len(),
        bricks_of(lines, k) is None,
    ensures
        bricks_of(lines, n) is None,
    decreases n - k,
{
    if k < n {
        lemma_no_bricks(lines, k, n - 1);
    }
}

/// The bricks that each brick holds up once all have fallen.
pub open spec fn held(bricks: Seq<Brick>) -> Seq<Set<usize>> {
    Seq::new(
        bricks.len(),
        |a: int| Set::new(|b: usize| bears(bricks, bricks.len() as int, a as usize, b)),
    )
}

/// The bricks that hold each brick up once all have fallen.
pub open spec fn holding(bricks: Seq<Brick>) -> Seq<Set<usize>> {
    Seq::new(
        bricks.len(),
        |b: int| Set::new(|a: usize| bears(bricks, bricks.len() as int, a, b as usize)),
    )
}

/// Both answers for the lines of a snapshot: the bricks that can be taken
/// away and none falls, and the sum of what falls for each of the others.
/// The bricks fall in the order of their bottoms. There are no answers
/// where a line describes no brick, where a brick comes to rest beyond 32
/// bits, or where a reaction is left with a layer after `fuel` further
/// layers.
pub open spec fn answers(lines: Seq<Seq<char>>, fuel: nat) -> Option<(nat, nat)> {
    match bricks_of(lines, lines.len() as int) {
        Some(read) => {
            let bricks = by_bottom(read);
            let n = bricks.len() as int;
            if ids_fit(bricks) && pile_of(bricks, n) is Some {
                let load_bearing = bearers(holding(bricks), n);
                match falls(
                    load_bearing,
                    held(bricks),
                    holding(bricks),
                    fuel,
                    load_bearing.len() as int,
                ) {
                    Some(f) => if load_bearing.len() <= lines.len() {
                        Some(((lines.len() - load_bearing.len()) as nat, f))
                    } else {
                        None
                    },
                    None => None,
                }
            } else {
                None
            }
        },
        None => None,
    }
}

/// Both answers for the lines of a snapshot.
pub fn solve(lines: &Vec<String>, limit: usize) -> (found: Option<(usize, u128)>)
    ensures
        match found {
            Some(f) => answers(texts(lines@), limit as nat) == Some((f.0 as nat, f.1 as nat)),
            None => answers(texts(lines@), limit as nat) is None,
        },
{
    let ghost text = texts(lines@);
    let mut bricks: Vec<Brick> = Vec::new();
    let mut i: usize = 0;
    while i < lines.len()
        invariant
            i <= lines@.len(),
            text == texts(lines@),
            bricks_of(text, i as int) == Some(bricks@),
        decreases lines@.len() - i,
    {
        assert(text[i as int] == lines@[i as int]@);
        match Brick::parse(i, lines[i].as_str()) {
            Some(b) => {
                bricks.push(b);
            },
            None => {
                proof {
                    lemma_no_bricks(text, i + 1, lines@.len() as int);
                }
                return None;
            },
        }
        i += 1;
    }
    let bricks = sort_bricks(bricks);
    let ghost fallen = bricks@;
    let (supporting, sitting) = match extract_graph(bricks) {
        Some(g) => g,
        None => {
            return None;
        },
    };
    proof {
        let n = fallen.len() as int;
        assert(sets_of(supporting@) =~= held(fallen)) by {
            assert forall|a: int| 0 <= a < n implies #[trigger] sets_of(supporting@)[a] =~= held(
                fallen,
            )[a] by {
                assert forall|b: usize|
                    sets_of(supporting@)[a].contains(b) <==> held(fallen)[a].contains(b) by {
                    assert(supporting@[a]@.contains(b) <==> bears(fallen, n, a as usize, b));
                }
            }
        }
        assert(sets_of(sitting@) =~= holding(fallen)) by {
            assert forall|b: int| 0 <= b < n implies #[trigger] sets_of(sitting@)[b] =~= holding(
                fallen,
            )[b] by {
                assert forall|a: usize|
                    sets_of(sitting@)[b].contains(a) <==> holding(fallen)[b].contains(a) by {
                    assert(sitting@[b]@.contains(a) <==> bears(fallen, n, a, b as usize));
                }
            }
        }
        assert(tidy(supporting@)) by {
            assert forall|a: int, j: int|
                0 <= a < supporting@.len() && 0 <= j < supporting@[a]@.len() implies (
            #[trigger] supporting@[a]@[j]) < supporting@.len() by {
                let b = supporting@[a]@[j];
                assert(supporting@[a]@.contains(b));
                lemma_bears_fit(fallen, n, a as usize, b);
            }
        }
        assert(tidy(sitting@)) by {
            assert forall|b: int, j: int|
                0 <= b < sitting@.len() && 0 <= j < sitting@[b]@.len() implies (
            #[trigger] sitting@[b]@[j]) < sitting@.len() by {
                let a = sitting@[b]@[j];
                assert(sitting@[b]@.contains(a));
                lemma_bears_fit(fallen, n, a, b as usize);
            }
        }
    }
    let load_bearing = calculate_load_bearing(&sitting);
    let sol1 = match lines.len().checked_sub(load_bearing.len()) {
        Some(v) => v,
        None => {
            return None;
        },
    };
    match solve_pt2(load_bearing, sitting, supporting, limit) {
        Some(sol2) => Some((sol1, sol2)),
        None => None,
    }
}

/// Bricks that bear one another are bricks of the pile and of the list.
pub proof fn lemma_bears_fit(bricks: Seq<Brick>, k: int, a: usize, b: usize)
    requires
        ids_fit(bricks),
        0 <= k <= bricks.len(),
        bears(bricks, k, a, b),
    ensures
        a < bricks.len(),
        b < bricks.len(),
    decreases k,
{
    if k > 0 {
        if bears(bricks, k - 1, a, b) {
            lemma_bears_fit(bricks, k - 1, a, b);
        } else {
            let pile = pile_of(bricks, k - 1)->Some_0;
            lemma_pile_ids(bricks, k - 1);
            let i = choose|i: int|
                0 <= i < pile.len() && holds_up(bricks[k - 1], pile, #[trigger] pile[i]) && pile[i].id
                    == a;
        }
    }
}

/// The bricks of the pile have places of the list.
pub proof fn lemma_pile_ids(bricks: Seq<Brick>, k: int)
    requires
        ids_fit(bricks),
        0 <= k <= bricks.len(),
    ensures
        pile_of(bricks, k) matches Some(pile) ==> forall|i: int|
            0 <= i < pile.len() ==> (#[trigger] pile[i]).id < bricks.len(),
    decreases k,
{
    if k > 0 {
        lemma_pile_ids(bricks, k - 1);
    }
}

} // verus!
