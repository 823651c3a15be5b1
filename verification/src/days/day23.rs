//! A hike over a map of trails: the longest way from the start to the
//! target that enters no tile twice.
use crate::marks::{
    dry, dry_in_row, dry_squares, flags_of, lemma_dry_in_row_flood, lemma_dry_in_row_nonnegative,
    lemma_dry_squares_flood, lemma_dry_squares_nonnegative,
};
use petgraph::graph::{NodeIndex, UnGraph};
use std::collections::VecDeque;
use petgraph::visit::EdgeRef;
use vstd::prelude::*;
use crate::days::day11::to_grid;
use crate::text::texts;

verus! {

/// A graph of the crate `petgraph` without direction: its nodes are tiles
/// and its edges have lengths. Each node and each edge is found again by
/// the number that it got when it was added.
#[verifier::external_body]
pub struct TrailGraph {
    inner: UnGraph<(i32, i32), i32>,
}

/// The nodes of a graph of tiles: the tile of each node, in the order in
/// which the nodes were added.
pub uninterp spec fn nodes_of(g: TrailGraph) -> Seq<(i32, i32)>;

/// The edges of a graph of tiles: the two nodes of each edge and its
/// length, in the order in which the edges were added.
pub uninterp spec fn edges_of(g: TrailGraph) -> Seq<(usize, usize, i32)>;

/// Whether an edge of length `w` joins `a` and `b`, whichever way it was
/// added.
pub open spec fn joins(edges: Seq<(usize, usize, i32)>, a: usize, b: usize, w: i32) -> bool {
    exists|i: int| 0 <= i < edges.len() && (#[trigger] edges[i] == (a, b, w) || edges[i] == (b, a, w))
}

/// Whether some edge joins `a` and `b`.
pub open spec fn joined(edges: Seq<(usize, usize, i32)>, a: usize, b: usize) -> bool {
    exists|i: int|
        0 <= i < edges.len() && (((#[trigger] edges[i]).0 == a && edges[i].1 == b) || (edges[i].0
            == b && edges[i].1 == a))
}

/// `Graph::new_undirected` of `petgraph`: a graph without nodes and edges.
#[verifier::external_body]
fn new_graph() -> (g: TrailGraph)
    ensures
        nodes_of(g) == Seq::<(i32, i32)>::empty(),
        edges_of(g) == Seq::<(usize, usize, i32)>::empty(),
{
    TrailGraph { inner: UnGraph::new_undirected() }
}

/// `Graph::add_node` of `petgraph`: the node is added behind the others
/// and gets their number as its own; the edges stay. The graph must hold
/// fewer nodes than 32 bits can count, where `petgraph` panics.
#[verifier::external_body]
fn add_node(g: &mut TrailGraph, tile: (i32, i32)) -> (id: usize)
    requires
        nodes_of(*old(g)).len() < u32::MAX,
    ensures
        id == nodes_of(*old(g)).len(),
        nodes_of(*final(g)) == nodes_of(*old(g)).push(tile),
        edges_of(*final(g)) == edges_of(*old(g)),
{
    g.inner.add_node(tile).index()
}

/// `Graph::node_count` of `petgraph`.
#[verifier::external_body]
fn node_count(g: &TrailGraph) -> (n: usize)
    ensures
        n == nodes_of(*g).len(),
{
    g.inner.node_count()
}

/// `Graph::edge_count` of `petgraph`.
#[verifier::external_body]
fn edge_count(g: &TrailGraph) -> (n: usize)
    ensures
        n == edges_of(*g).len(),
{
    g.inner.edge_count()
}

/// Indexing a graph of `petgraph` by a node: the weight of that node. The
/// node must be one of the graph, where `petgraph` panics.
#[verifier::external_body]
fn node_weight(g: &TrailGraph, id: usize) -> (tile: (i32, i32))
    requires
        id < nodes_of(*g).len(),
    ensures
        tile == nodes_of(*g)[id as int],
{
    g.inner[NodeIndex::new(id)]
}

/// `Graph::contains_edge` of `petgraph`, on a graph without direction:
/// whether an edge joins the two nodes, whichever way it was added.
#[verifier::external_body]
fn contains_edge(g: &TrailGraph, a: usize, b: usize) -> (yes: bool)
    requires
        a < nodes_of(*g).len(),
        b < nodes_of(*g).len(),
    ensures
        yes == joined(edges_of(*g), a, b),
{
    g.inner.contains_edge(NodeIndex::new(a), NodeIndex::new(b))
}

/// `Graph::add_edge` of `petgraph`: the edge is added behind the others;
/// the nodes stay. Both nodes must be nodes of the graph, and the graph
/// must hold fewer edges than 32 bits can count, where `petgraph` panics.
#[verifier::external_body]
fn add_edge(g: &mut TrailGraph, a: usize, b: usize, length: i32)
    requires
        a < nodes_of(*old(g)).len(),
        b < nodes_of(*old(g)).len(),
        edges_of(*old(g)).len() < u32::MAX,
    ensures
        nodes_of(*final(g)) == nodes_of(*old(g)),
        edges_of(*final(g)) == edges_of(*old(g)).push((a, b, length)),
{
    g.inner.add_edge(NodeIndex::new(a), NodeIndex::new(b), length);
}

/// `Graph::edges` of `petgraph`, on a graph without direction: for each
/// edge at the node, the node at its other end and its length. The order
/// is left open.
#[verifier::external_body]
fn edges_at(g: &TrailGraph, a: usize) -> (out: Vec<(usize, i32)>)
    requires
        a < nodes_of(*g).len(),
    ensures
        forall|t: usize, w: i32|
            joins(edges_of(*g), a, t, w) <==> exists|j: int|
                0 <= j < out@.len() && #[trigger] out@[j] == (t, w),
{
    g.inner.edges(NodeIndex::new(a)).map(|edge| (edge.target().index(), *edge.weight())).collect()
}

impl TrailGraph {
    /// The number of nodes of the graph.
    pub fn node_total(&self) -> (n: usize)
        ensures
            n == nodes_of(*self).len(),
    {
        node_count(self)
    }

    /// The number of edges of the graph.
    pub fn edge_total(&self) -> (n: usize)
        ensures
            n == edges_of(*self).len(),
    {
        edge_count(self)
    }

    /// The tile of a node.
    pub fn tile_of(&self, id: usize) -> (tile: Option<(i32, i32)>)
        ensures
            tile == if id < nodes_of(*self).len() {
                Some(nodes_of(*self)[id as int])
            } else {
                None
            },
    {
        if id < node_count(self) {
            Some(node_weight(self, id))
        } else {
            None
        }
    }
}

/// Whether the steps, each a node and the length of the edge to it, lead
/// from node `from` to node `end` and enter no closed node, `from` counted
/// as closed, and no node twice. At `end` the hike is over.
pub open spec fn hike(
    edges: Seq<(usize, usize, i32)>,
    from: usize,
    end: usize,
    closed: Seq<bool>,
    steps: Seq<(usize, i32)>,
) -> bool
    decreases steps.len(),
{
    if from == end {
        steps.len() == 0
    } else if steps.len() == 0 {
        false
    } else {
        let t = steps[0].0;
        &&& from < closed.len()
        &&& t < closed.len()
        &&& !closed[t as int]
        &&& t != from
        &&& joins(edges, from, t, steps[0].1)
        &&& hike(edges, t, end, closed.update(from as int, true), steps.skip(1))
    }
}

/// The length of a hike.
pub open spec fn length(steps: Seq<(usize, i32)>) -> int
    decreases steps.len(),
{
    if steps.len() == 0 {
        0
    } else {
        steps[0].1 + length(steps.skip(1))
    }
}

/// Whether `best` is what the longest hike makes of `before`: the greater
/// of `before` and of `so_far` more than the longest hike from `from` to
/// `end`, where there is a hike.
pub open spec fn longest(
    edges: Seq<(usize, usize, i32)>,
    from: usize,
    end: usize,
    closed: Seq<bool>,
    so_far: int,
    before: int,
    best: int,
) -> bool {
    &&& best >= before
    &&& forall|steps: Seq<(usize, i32)>| #[trigger]
        hike(edges, from, end, closed, steps) ==> best >= so_far + length(steps)
    &&& (best == before || exists|steps: Seq<(usize, i32)>| #[trigger]
        hike(edges, from, end, closed, steps) && best == so_far + length(steps))
}

/// Tries every hike from `current` to `end` that enters no visited node,
/// and raises `max_length` to the longest of them, counted from
/// `current_length`. `visited` and `path` are handed back as they were.
pub fn find_longest_path(
    graph: &TrailGraph,
    current: usize,
    end: usize,
    visited: &mut Vec<bool>,
    path: &mut Vec<usize>,
    current_length: i128,
    max_length: &mut i128,
)
    requires
        old(visited)@.len() == nodes_of(*graph).len(),
        current < nodes_of(*graph).len(),
        !old(visited)@[current as int],
        -0x1_0000_0000 * (old(path)@.len() + 1) <= current_length <= 0x1_0000_0000 * (old(
            path,
        )@.len() + 1),
    ensures
        final(visited)@ == old(visited)@,
        final(path)@ == old(path)@,
        longest(
            edges_of(*graph),
            current,
            end,
            old(visited)@,
            current_length as int,
            *old(max_length) as int,
            *final(max_length) as int,
        ),
    decreases dry_in_row(old(visited)@, old(visited)@.len() as int),
{
    let ghost edges = edges_of(*graph);
    let ghost closed = visited@;
    let ghost before = *max_length as int;
    if current == end {
        if current_length > *max_length {
            *max_length = current_length;
        }
        proof {
            let none = Seq::<(usize, i32)>::empty();
            assert(hike(edges, current, end, closed, none));
            assert(length(none) == 0);
            assert forall|steps: Seq<(usize, i32)>| #[trigger]
                hike(edges, current, end, closed, steps) implies *max_length >= current_length
                + length(steps) by {
                assert(steps.len() == 0);
            }
        }
        return ;
    }
    visited.set(current, true);
    path.push(current);
    let ghost marked = visited@;
    let ghost longer = path@;
    proof {
        lemma_dry_in_row_flood(closed, current as int, closed.len() as int);
        lemma_dry_in_row_nonnegative(marked, marked.len() as int);
    }
    let ways = edges_at(graph, current);
    let steps_so_far = path.len();
    let mut k: usize = 0;
    while k < ways.len()
        invariant
            k <= ways@.len(),
            edges == edges_of(*graph),
            closed == old(visited)@,
            longer.len() == steps_so_far,
            dry_in_row(marked, marked.len() as int) >= 0,
            current != end,
            current < closed.len(),
            closed.len() == nodes_of(*graph).len(),
            marked == closed.update(current as int, true),
            visited@ == marked,
            path@ == longer,
            longer.len() == old(path)@.len() + 1,
            -0x1_0000_0000 * longer.len() <= current_length <= 0x1_0000_0000 * longer.len(),
            dry_in_row(marked, marked.len() as int) < dry_in_row(closed, closed.len() as int),
            forall|t: usize, w: i32|
                joins(edges, current, t, w) <==> exists|j: int|
                    0 <= j < ways@.len() && #[trigger] ways@[j] == (t, w),
            *max_length >= before,
            forall|steps: Seq<(usize, i32)>, j: int| #[trigger]
                hike(edges, current, end, closed, steps) && 0 <= j < k && #[trigger] ways@[j]
                    == steps[0] ==> *max_length >= current_length + length(steps),
            *max_length == before || exists|steps: Seq<(usize, i32)>| #[trigger]
                hike(edges, current, end, closed, steps) && *max_length == current_length + length(
                    steps,
                ),
        decreases ways@.len() - k,
    {
        let neighbor = ways[k].0;
        let edge_weight = ways[k].1;
        let ghost reached = *max_length as int;
        proof {
            assert(joins(edges, current, neighbor, edge_weight));
        }
        if neighbor < visited.len() && !visited[neighbor] {
            find_longest_path(
                graph,
                neighbor,
                end,
                visited,
                path,
                current_length + edge_weight as i128,
                max_length,
            );
            proof {
                let next_length = current_length + edge_weight;
                assert forall|steps: Seq<(usize, i32)>| #[trigger]
                    hike(edges, current, end, closed, steps) && ways@[k as int]
                        == steps[0] implies *max_length >= current_length + length(steps) by {
                    assert(hike(edges, neighbor, end, marked, steps.skip(1)));
                }
                if *max_length != reached {
                    let rest = choose|rest: Seq<(usize, i32)>| #[trigger]
                        hike(edges, neighbor, end, marked, rest) && *max_length == next_length
                            + length(rest);
                    let steps = seq![(neighbor, edge_weight)] + rest;
                    assert(steps.skip(1) =~= rest);
                    assert(steps[0] == (neighbor, edge_weight));
                    assert(hike(edges, current, end, closed, steps));
                    assert(length(steps) == edge_weight + length(rest));
                }
            }
        } else {
            proof {
                assert forall|steps: Seq<(usize, i32)>| #[trigger]
                    hike(edges, current, end, closed, steps) && ways@[k as int]
                        == steps[0] implies *max_length >= current_length + length(steps) by {
                    assert(steps[0].0 == neighbor);
                    assert(closed.update(current as int, true)[neighbor as int] == closed[neighbor as int]
                        || neighbor == current);
                }
            }
        }
        k += 1;
    }
    path.pop();
    visited.set(current, false);
    proof {
        assert(visited@ =~= closed);
        assert(path@ =~= old(path)@);
        assert forall|steps: Seq<(usize, i32)>| #[trigger]
            hike(edges, current, end, closed, steps) implies *max_length >= current_length
            + length(steps) by {
            assert(joins(edges, current, steps[0].0, steps[0].1));
            let j = choose|j: int| 0 <= j < ways@.len() && #[trigger] ways@[j] == (steps[0].0, steps[0].1);
            assert(ways@[j] == steps[0]);
        }
    }
}

/// Whether the map has a tile at the place that is no forest.
pub open spec fn walkable(grid: Seq<Seq<char>>, p: (int, int)) -> bool {
    0 <= p.0 < grid.len() && 0 <= p.1 < grid[p.0].len() && grid[p.0][p.1] != '#'
}

/// Whether a step leads from a tile to the place `to`: from a slope only
/// downhill, from any other tile to each of the four places beside it.
pub open spec fn leads(tile: char, from: (int, int), to: (int, int)) -> bool {
    if tile == '^' {
        to == (from.0 - 1, from.1)
    } else if tile == '>' {
        to == (from.0, from.1 + 1)
    } else if tile == 'v' {
        to == (from.0 + 1, from.1)
    } else if tile == '<' {
        to == (from.0, from.1 - 1)
    } else {
        to == (from.0 - 1, from.1) || to == (from.0, from.1 + 1) || to == (from.0 + 1, from.1) || to
            == (from.0, from.1 - 1)
    }
}

/// Whether the place is marked as entered.
pub open spec fn entered(closed: Seq<Seq<bool>>, p: (int, int)) -> bool {
    0 <= p.0 < closed.len() && 0 <= p.1 < closed[p.0].len() && closed[p.0][p.1]
}

/// Whether the places, each one step from the one before, lead from `at` to
/// `target`, over tiles that are no forest and not entered before. The
/// target itself may be any place.
pub open spec fn stroll(
    grid: Seq<Seq<char>>,
    at: (int, int),
    target: (int, int),
    closed: Seq<Seq<bool>>,
    rest: Seq<(int, int)>,
) -> bool
    decreases rest.len(),
{
    if rest.len() == 0 {
        at == target
    } else {
        &&& walkable(grid, at)
        &&& leads(grid[at.0][at.1], at, rest[0])
        &&& !entered(closed, rest[0])
        &&& stroll(
            grid,
            rest[0],
            target,
            closed.update(at.0, closed[at.0].update(at.1, true)),
            rest.skip(1),
        )
    }
}

/// The number of steps that is noted, and -1 for none.
pub open spec fn noted(best: Option<usize>) -> int {
    match best {
        Some(v) => v as int,
        None => -1,
    }
}

/// Whether `best` is what the longest stroll makes of `before`: the
/// greater of `before` and of `so_far` more than the steps of the longest
/// stroll from `at` to `target`, where there is a stroll.
pub open spec fn longest_stroll(
    grid: Seq<Seq<char>>,
    at: (int, int),
    target: (int, int),
    closed: Seq<Seq<bool>>,
    so_far: int,
    before: int,
    best: int,
) -> bool {
    &&& best >= before
    &&& forall|rest: Seq<(int, int)>| #[trigger]
        stroll(grid, at, target, closed, rest) ==> best >= so_far + rest.len()
    &&& (best == before || exists|rest: Seq<(int, int)>| #[trigger]
        stroll(grid, at, target, closed, rest) && best == so_far + rest.len())
}

/// Whether the marks have a row for each row of the map, of its length.
pub open spec fn fitted(closed: Seq<Seq<bool>>, grid: Seq<Seq<char>>) -> bool {
    closed.len() == grid.len() && forall|r: int|
        0 <= r < grid.len() ==> (#[trigger] closed[r]).len() == grid[r].len()
}

/// The characters of each row.
pub open spec fn rows_of(input: Seq<Vec<char>>) -> Seq<Seq<char>> {
    input.map_values(|row: Vec<char>| row@)
}

/// Tries every stroll from `at` to `target` over tiles that are not
/// entered, and raises `best` to the steps of the longest, counted from
/// the length of the journey so far. The marks and the journey are handed
/// back as they were.
pub fn explore(
    input: &Vec<Vec<char>>,
    at: (i128, i128),
    target: (i128, i128),
    visited: &mut Vec<Vec<bool>>,
    journey: &mut Vec<(i128, i128)>,
    best: &mut Option<usize>,
)
    requires
        fitted(flags_of(old(visited)@), rows_of(input@)),
        !entered(flags_of(old(visited)@), (at.0 as int, at.1 as int)),
    ensures
        flags_of(final(visited)@) == flags_of(old(visited)@),
        final(journey)@ == old(journey)@,
        longest_stroll(
            rows_of(input@),
            (at.0 as int, at.1 as int),
            (target.0 as int, target.1 as int),
            flags_of(old(visited)@),
            old(journey)@.len() as int,
            noted(*old(best)),
            noted(*final(best)),
        ),
    decreases dry_squares(flags_of(old(visited)@), old(visited)@.len() as int),
{
    let ghost grid = rows_of(input@);
    let ghost closed = flags_of(visited@);
    let ghost here = (at.0 as int, at.1 as int);
    let ghost goal = (target.0 as int, target.1 as int);
    let ghost before = noted(*best);
    let ghost so_far = journey@.len() as int;
    let distance = journey.len();
    if at.0 == target.0 && at.1 == target.1 {
        let better = match *best {
            Some(v) => distance > v,
            None => true,
        };
        if better {
            *best = Some(distance);
        }
        proof {
            assert(stroll(grid, here, goal, closed, Seq::<(int, int)>::empty()));
        }
    }
    let ghost at_goal = noted(*best);
    let mut open = false;
    if at.0 >= 0 && at.0 < input.len() as i128 {
        assert(grid[at.0 as int] == input@[at.0 as int]@);
        if at.1 >= 0 && at.1 < input[at.0 as usize].len() as i128 {
            open = input[at.0 as usize][at.1 as usize] != '#';
        }
    }
    if !open {
        proof {
            assert forall|rest: Seq<(int, int)>| #[trigger]
                stroll(grid, here, goal, closed, rest) implies noted(*best) >= so_far
                + rest.len() by {
                assert(rest.len() == 0);
            }
        }
        return ;
    }
    let r = at.0 as usize;
    let c = at.1 as usize;
    let tile = input[r][c];
    assert(closed[r as int] == visited@[r as int]@);
    let ghost old_marks = visited@;
    visited[r].set(c, true);
    journey.push(at);
    let ghost marked = flags_of(visited@);
    proof {
        assert(marked =~= closed.update(r as int, closed[r as int].update(c as int, true))) by {
            assert forall|i: int| 0 <= i < visited@.len() implies #[trigger] marked[i]
                =~= closed.update(r as int, closed[r as int].update(c as int, true))[i] by {
                assert(marked[i] == visited@[i]@);
                assert(closed[i] == old_marks[i]@);
            }
        }
        assert(dry(closed, (r as int, c as int)));
        lemma_dry_squares_flood(closed, r as int, c as int, closed.len() as int);
        lemma_dry_squares_nonnegative(marked, marked.len() as int);
        assert(fitted(marked, grid));
    }
    let mut k: usize = 0;
    while k < 4
        invariant
            k <= 4,
            grid == rows_of(input@),
            closed == flags_of(old(visited)@),
            here == (at.0 as int, at.1 as int),
            goal == (target.0 as int, target.1 as int),
            0 <= at.0 <= usize::MAX,
            0 <= at.1 <= usize::MAX,
            walkable(grid, here),
            tile == grid[here.0][here.1],
            marked == closed.update(here.0, closed[here.0].update(here.1, true)),
            flags_of(visited@) == marked,
            fitted(marked, grid),
            fitted(closed, grid),
            journey@ == old(journey)@.push(at),
            so_far == old(journey)@.len(),
            dry_squares(marked, marked.len() as int) < dry_squares(closed, closed.len() as int),
            dry_squares(marked, marked.len() as int) >= 0,
            marked.len() == visited@.len(),
            closed.len() == marked.len(),
            noted(*best) >= at_goal,
            at_goal >= before,
            here == goal ==> at_goal >= so_far,
            forall|rest: Seq<(int, int)>| #[trigger]
                stroll(grid, here, goal, closed, rest) && rest.len() > 0 && way_number(
                    here,
                    rest[0],
                ) < k ==> noted(*best) >= so_far + rest.len(),
            noted(*best) == before || exists|rest: Seq<(int, int)>| #[trigger]
                stroll(grid, here, goal, closed, rest) && noted(*best) == so_far + rest.len(),
        decreases 4 - k,
    {
        let next: (i128, i128) = if k == 0 {
            (at.0 - 1, at.1)
        } else if k == 1 {
            (at.0, at.1 + 1)
        } else if k == 2 {
            (at.0 + 1, at.1)
        } else {
            (at.0, at.1 - 1)
        };
        let allowed = if tile == '^' {
            k == 0
        } else if tile == '>' {
            k == 1
        } else if tile == 'v' {
            k == 2
        } else if tile == '<' {
            k == 3
        } else {
            true
        };
        let ghost there = (next.0 as int, next.1 as int);
        let ghost reached = noted(*best);
        assert(way_number(here, there) == k);
        assert(allowed == leads(tile, here, there));
        let mut seen = false;
        if next.0 >= 0 && next.0 < visited.len() as i128 {
            assert(marked[next.0 as int] == visited@[next.0 as int]@);
            if next.1 >= 0 && next.1 < visited[next.0 as usize].len() as i128 {
                seen = visited[next.0 as usize][next.1 as usize];
            }
        }
        assert(seen == entered(marked, there));
        if allowed && !seen {
            explore(input, next, target, visited, journey, best);
            proof {
                if noted(*best) != reached {
                    let tail = choose|tail: Seq<(int, int)>| #[trigger]
                        stroll(grid, there, goal, marked, tail) && noted(*best) == so_far + 1
                            + tail.len();
                    let rest = seq![there] + tail;
                    assert(rest.skip(1) =~= tail);
                    assert(rest[0] == there);
                    lemma_marks(closed, here, there);
                    assert(stroll(grid, here, goal, closed, rest));
                }
            }
        }
        proof {
            assert forall|rest: Seq<(int, int)>| #[trigger]
                stroll(grid, here, goal, closed, rest) && rest.len() > 0 && way_number(
                    here,
                    rest[0],
                ) < k + 1 implies noted(*best) >= so_far + rest.len() by {
                if way_number(here, rest[0]) == k {
                    assert(rest[0] == there);
                    assert(leads(tile, here, there));
                    lemma_marks(closed, here, there);
                    assert(allowed && !seen);
                    assert(stroll(grid, there, goal, marked, rest.skip(1)));
                }
            }
        }
        k += 1;
    }
    journey.pop();
    assert(flags_of(visited@)[r as int] == visited@[r as int]@);
    let ghost marks_before = visited@;
    visited[r].set(c, false);
    proof {
        assert(journey@ =~= old(journey)@);
        assert(flags_of(visited@) =~= closed) by {
            assert forall|i: int| 0 <= i < visited@.len() implies #[trigger] flags_of(visited@)[i]
                =~= closed[i] by {
                assert(flags_of(visited@)[i] == visited@[i]@);
                assert(marked[i] == marks_before[i]@);
            }
        }
        assert forall|rest: Seq<(int, int)>| #[trigger]
            stroll(grid, here, goal, closed, rest) implies noted(*best) >= so_far + rest.len() by {
            if rest.len() > 0 {
                assert(way_number(here, rest[0]) < 4);
            }
        }
    }
}

/// A place beside the one that is marked is entered after the mark where
/// it was entered before.
pub proof fn lemma_marks(closed: Seq<Seq<bool>>, here: (int, int), there: (int, int))
    requires
        0 <= here.0 < closed.len(),
        0 <= here.1 < closed[here.0].len(),
        there != here,
    ensures
        entered(closed.update(here.0, closed[here.0].update(here.1, true)), there) == entered(
            closed,
            there,
        ),
{
}

/// The number of the way from a place to a place beside it: up, right,
/// down, left; 4 for any other place.
pub open spec fn way_number(from: (int, int), to: (int, int)) -> int {
    if to == (from.0 - 1, from.1) {
        0
    } else if to == (from.0, from.1 + 1) {
        1
    } else if to == (from.0 + 1, from.1) {
        2
    } else if to == (from.0, from.1 - 1) {
        3
    } else {
        4
    }
}

/// The tile at a place of the map; forest beyond the map.
pub open spec fn tile(grid: Seq<Seq<char>>, r: int, c: int) -> char {
    if 0 <= r < grid.len() && 0 <= c < grid[r].len() {
        grid[r][c]
    } else {
        '#'
    }
}

/// How many of the four places beside a place are no forest.
pub open spec fn routes(grid: Seq<Seq<char>>, r: int, c: int) -> int {
    (if tile(grid, r, c + 1) != '#' {
        1int
    } else {
        0int
    }) + (if tile(grid, r, c - 1) != '#' {
        1int
    } else {
        0int
    }) + (if tile(grid, r + 1, c) != '#' {
        1int
    } else {
        0int
    }) + (if tile(grid, r - 1, c) != '#' {
        1int
    } else {
        0int
    })
}

/// The first node at or behind `from` that stands for the tile.
pub open spec fn node_at(nodes: Seq<(i32, i32)>, loc: (i32, i32), from: int) -> Option<usize>
    decreases nodes.len() - from,
{
    if from < 0 || from >= nodes.len() {
        None
    } else if nodes[from] == loc {
        Some(from as usize)
    } else {
        node_at(nodes, loc, from + 1)
    }
}

/// A probe that walks the trails: the place that it has come to, the node
/// that it left last, the steps since, and the way of its last step.
#[derive(Clone, Copy, Debug, PartialEq, Eq)]
pub struct Probe {
    pub location: (i32, i32),
    pub node: usize,
    pub distance: i32,
    pub dir: (i32, i32),
}

/// What a survey of the trails has found, and the probes that are under way.
pub ghost struct Survey {
    pub nodes: Seq<(i32, i32)>,
    pub edges: Seq<(usize, usize, i32)>,
    pub queue: Seq<Probe>,
}

/// The edges with one of length `w` between `a` and `b`, unless an edge
/// joins them already.
pub open spec fn with_edge(edges: Seq<(usize, usize, i32)>, a: usize, b: usize, w: i32) -> Seq<
    (usize, usize, i32),
> {
    if joined(edges, a, b) {
        edges
    } else {
        edges.push((a, b, w))
    }
}

/// The four ways in the order in which a probe is sent on: right, left,
/// down, up.
pub open spec fn way(k: int) -> (i32, i32) {
    if k == 0 {
        (0i32, 1i32)
    } else if k == 1 {
        (0i32, -1i32)
    } else if k == 2 {
        (1i32, 0i32)
    } else {
        (-1i32, 0i32)
    }
}

/// The probes that go on from a place, the first `upto` ways tried: one
/// each way but back.
pub open spec fn sent_on(t: Probe, node: usize, distance: i32, upto: int) -> Seq<Probe>
    decreases upto,
{
    if upto <= 0 {
        Seq::empty()
    } else {
        let d = way(upto - 1);
        let before = sent_on(t, node, distance, upto - 1);
        if d.0 == -t.dir.0 && d.1 == -t.dir.1 {
            before
        } else {
            before.push(
                Probe {
                    location: ((t.location.0 + d.0) as i32, (t.location.1 + d.1) as i32),
                    node,
                    distance,
                    dir: d,
                },
            )
        }
    }
}

/// Whether a tile is a junction: it has one way out, or more than two.
pub open spec fn junction(grid: Seq<Seq<char>>, loc: (i32, i32)) -> bool {
    routes(grid, loc.0 as int, loc.1 as int) > 2 || routes(grid, loc.0 as int, loc.1 as int) == 1
}

/// Whether every probe has left a node of the survey.
pub open spec fn tidy(s: Survey) -> bool {
    forall|i: int| 0 <= i < s.queue.len() ==> (#[trigger] s.queue[i]).node < s.nodes.len()
}

/// One probe more. A probe that comes to the tile of a node that it did
/// not leave ends there, and an edge of its steps joins the two nodes
/// unless one does already. A probe in the forest ends. A probe at a
/// junction makes it a node, is joined to the node that it left in the
/// same way, and starts counting anew. From where it is the probe is sent
/// on each way but back. There is no survey once a number leaves 32 bits.
pub open spec fn survey_step(grid: Seq<Seq<char>>, s: Survey) -> Option<Survey> {
    if s.queue.len() == 0 {
        Some(s)
    } else {
        let t = s.queue[0];
        let rest = s.queue.skip(1);
        let known = node_at(s.nodes, t.location, 0);
        if known is Some && t.location != s.nodes[t.node as int] {
            if joined(s.edges, known->Some_0, t.node) || s.edges.len() < u32::MAX {
                Some(
                    Survey {
                        nodes: s.nodes,
                        edges: with_edge(s.edges, known->Some_0, t.node, t.distance),
                        queue: rest,
                    },
                )
            } else {
                None
            }
        } else if tile(grid, t.location.0 as int, t.location.1 as int) == '#' {
            Some(Survey { nodes: s.nodes, edges: s.edges, queue: rest })
        } else {
            let turns = junction(grid, t.location);
            let fresh = turns && known is None;
            let nodes = if fresh {
                s.nodes.push(t.location)
            } else {
                s.nodes
            };
            let next_node = if !turns {
                t.node
            } else if fresh {
                s.nodes.len() as usize
            } else {
                known->Some_0
            };
            let edges = if turns {
                with_edge(s.edges, t.node, next_node, t.distance)
            } else {
                s.edges
            };
            let distance = if turns {
                0
            } else {
                t.distance as int
            };
            if (fresh && s.nodes.len() >= u32::MAX) || (turns && !joined(
                s.edges,
                t.node,
                next_node,
            ) && s.edges.len() >= u32::MAX) || distance + 1 > i32::MAX || t.location.0 + 1
                > i32::MAX || t.location.1 + 1 > i32::MAX {
                None
            } else {
                Some(
                    Survey {
                        nodes,
                        edges,
                        queue: rest + sent_on(t, next_node, (distance + 1) as i32, 4),
                    },
                )
            }
        }
    }
}

/// The survey after `n` probes, from the start.
pub open spec fn surveyed(grid: Seq<Seq<char>>, st: (i32, i32), n: nat) -> Option<Survey>
    decreases n,
{
    if n == 0 {
        Some(
            Survey {
                nodes: seq![st],
                edges: Seq::empty(),
                queue: seq![Probe { location: st, node: 0, distance: 0, dir: (1, 0) }],
            },
        )
    } else {
        match surveyed(grid, st, (n - 1) as nat) {
            Some(s) => survey_step(grid, s),
            None => None,
        }
    }
}

/// A survey that has ended, or has failed, stays as it is.
pub proof fn lemma_survey_stays(grid: Seq<Seq<char>>, st: (i32, i32), k: nat, n: nat)
    requires
        k <= n,
        surveyed(grid, st, k) matches Some(s) ==> s.queue.len() == 0,
    ensures
        surveyed(grid, st, n) == surveyed(grid, st, k),
    decreases n - k,
{
    if k < n {
        lemma_survey_stays(grid, st, k, (n - 1) as nat);
    }
}

/// The survey of the trails from `st` once it has ended, and the node of
/// the tile `end`. There is none where the survey has not ended after
/// `limit` probes, has failed, or has made no node of `end`.
pub open spec fn trails(grid: Seq<Seq<char>>, st: (i32, i32), end: (i32, i32), limit: nat) -> Option<
    (Survey, usize),
> {
    match surveyed(grid, st, limit) {
        Some(s) => if s.queue.len() == 0 {
            match node_at(s.nodes, end, 0) {
                Some(b) => Some((s, b)),
                None => None,
            }
        } else {
            None
        },
        None => None,
    }
}

/// Whether two edges join the same two nodes.
pub open spec fn same_ends(a: (usize, usize, i32), b: (usize, usize, i32)) -> bool {
    (a.0 == b.0 && a.1 == b.1) || (a.0 == b.1 && a.1 == b.0)
}

/// The shape of a survey. Its first node is the start, and every other node
/// is a junction of the map, no forest; no tile has two nodes. Every edge
/// joins two nodes of the survey and has a length of 0 or more, and no two
/// edges join the same two nodes. Every probe has left a node of the survey.
pub open spec fn shaped(grid: Seq<Seq<char>>, st: (i32, i32), s: Survey) -> bool {
    &&& s.nodes.len() >= 1
    &&& s.nodes[0] == st
    &&& s.nodes.no_duplicates()
    &&& forall|i: int|
        1 <= i < s.nodes.len() ==> junction(grid, #[trigger] s.nodes[i]) && tile(
            grid,
            s.nodes[i].0 as int,
            s.nodes[i].1 as int,
        ) != '#'
    &&& forall|k: int|
        0 <= k < s.edges.len() ==> (#[trigger] s.edges[k]).0 < s.nodes.len() && s.edges[k].1
            < s.nodes.len() && s.edges[k].2 >= 0
    &&& forall|j: int, k: int|
        0 <= j < k < s.edges.len() ==> !same_ends(#[trigger] s.edges[j], #[trigger] s.edges[k])
    &&& forall|i: int|
        0 <= i < s.queue.len() ==> (#[trigger] s.queue[i]).node < s.nodes.len() && s.queue[i].distance
            >= 0
}

/// A node that is found stands for the tile; where none is found, no node
/// stands for it.
pub proof fn lemma_node_at(nodes: Seq<(i32, i32)>, loc: (i32, i32), from: int)
    requires
        0 <= from,
        nodes.len() <= usize::MAX,
    ensures
        match node_at(nodes, loc, from) {
            Some(i) => from <= i < nodes.len() && nodes[i as int] == loc,
            None => forall|j: int| from <= j < nodes.len() ==> nodes[j] != loc,
        },
    decreases nodes.len() - from,
{
    if from < nodes.len() && nodes[from] != loc {
        lemma_node_at(nodes, loc, from + 1);
    }
}

/// An edge more, between nodes that no edge joins, keeps the edges in shape.
proof fn lemma_with_edge(edges: Seq<(usize, usize, i32)>, a: usize, b: usize, w: i32, n: nat)
    requires
        a < n,
        b < n,
        w >= 0,
        forall|k: int|
            0 <= k < edges.len() ==> (#[trigger] edges[k]).0 < n && edges[k].1 < n && edges[k].2
                >= 0,
        forall|j: int, k: int|
            0 <= j < k < edges.len() ==> !same_ends(#[trigger] edges[j], #[trigger] edges[k]),
    ensures
        forall|k: int|
            0 <= k < with_edge(edges, a, b, w).len() ==> (#[trigger] with_edge(edges, a, b, w)[k]).0
                < n && with_edge(edges, a, b, w)[k].1 < n && with_edge(edges, a, b, w)[k].2 >= 0,
        forall|j: int, k: int|
            0 <= j < k < with_edge(edges, a, b, w).len() ==> !same_ends(
                #[trigger] with_edge(edges, a, b, w)[j],
                #[trigger] with_edge(edges, a, b, w)[k],
            ),
{
    let more = with_edge(edges, a, b, w);
    if !joined(edges, a, b) {
        assert forall|j: int, k: int| 0 <= j < k < more.len() implies !same_ends(
            #[trigger] more[j],
            #[trigger] more[k],
        ) by {
            if k == edges.len() {
                assert(more[j] == edges[j]);
                if same_ends(more[j], more[k]) {
                    assert((edges[j].0 == a && edges[j].1 == b) || (edges[j].0 == b && edges[j].1
                        == a));
                }
            } else {
                assert(more[j] == edges[j] && more[k] == edges[k]);
            }
        }
        assert forall|k: int| 0 <= k < more.len() implies (#[trigger] more[k]).0 < n && more[k].1
            < n && more[k].2 >= 0 by {
            if k < edges.len() {
                assert(more[k] == edges[k]);
            }
        }
    }
}

/// One probe more keeps the survey in shape.
pub proof fn lemma_step_shaped(grid: Seq<Seq<char>>, st: (i32, i32), s: Survey)
    requires
        shaped(grid, st, s),
        s.nodes.len() <= u32::MAX,
    ensures
        survey_step(grid, s) matches Some(after) ==> shaped(grid, st, after) && after.nodes.len()
            <= u32::MAX,
{
    if s.queue.len() > 0 && survey_step(grid, s) is Some {
        let after = survey_step(grid, s)->Some_0;
        let t = s.queue[0];
        let rest = s.queue.skip(1);
        let n = s.nodes.len();
        lemma_node_at(s.nodes, t.location, 0);
        let known = node_at(s.nodes, t.location, 0);
        assert forall|i: int| 0 <= i < rest.len() implies (#[trigger] rest[i]).node < n
            && rest[i].distance >= 0 by {
            assert(rest[i] == s.queue[i + 1]);
        }
        if known is Some && t.location != s.nodes[t.node as int] {
            lemma_with_edge(s.edges, known->Some_0, t.node, t.distance, n);
        } else if tile(grid, t.location.0 as int, t.location.1 as int) == '#' {
        } else {
            let turns = junction(grid, t.location);
            let fresh = turns && known is None;
            let next_node = if !turns {
                t.node
            } else if fresh {
                n as usize
            } else {
                known->Some_0
            };
            let distance = if turns {
                0
            } else {
                t.distance as int
            };
            let m = after.nodes.len();
            if fresh {
                assert(after.nodes == s.nodes.push(t.location));
                assert forall|i: int, j: int|
                    0 <= i < after.nodes.len() && 0 <= j < after.nodes.len() && i != j implies after.nodes[i]
                    != after.nodes[j] by {
                    if i < n && j < n {
                        assert(after.nodes[i] == s.nodes[i] && after.nodes[j] == s.nodes[j]);
                    } else if i < n {
                        assert(after.nodes[i] == s.nodes[i]);
                    } else {
                        assert(after.nodes[j] == s.nodes[j]);
                    }
                }
                assert forall|i: int| 1 <= i < after.nodes.len() implies junction(
                    grid,
                    #[trigger] after.nodes[i],
                ) && tile(grid, after.nodes[i].0 as int, after.nodes[i].1 as int) != '#' by {
                    if i < n {
                        assert(after.nodes[i] == s.nodes[i]);
                    }
                }
            }
            if turns {
                lemma_with_edge(s.edges, t.node, next_node, t.distance, m);
            }
            assert forall|i: int| 0 <= i < after.queue.len() implies (#[trigger] after.queue[i]).node
                < m && after.queue[i].distance >= 0 by {
                if i < rest.len() {
                    assert(after.queue[i] == rest[i]);
                } else {
                    lemma_sent_on(t, next_node, (distance + 1) as i32, 4, i - rest.len());
                    assert(after.queue[i] == sent_on(t, next_node, (distance + 1) as i32, 4)[i
                        - rest.len()]);
                }
            }
        }
    }
}

/// Every survey is in shape, however many probes it has sent: the graph
/// that a survey ends with has the start as its first node and junctions as
/// its others, and at most one edge between two nodes.
pub proof fn lemma_survey_shaped(grid: Seq<Seq<char>>, st: (i32, i32), n: nat)
    ensures
        surveyed(grid, st, n) matches Some(s) ==> shaped(grid, st, s) && s.nodes.len() <= u32::MAX,
    decreases n,
{
    if n == 0 {
        let s = surveyed(grid, st, 0)->Some_0;
        assert(s.nodes[0] == st);
        assert(s.queue[0].node == 0);
    } else {
        lemma_survey_shaped(grid, st, (n - 1) as nat);
        match surveyed(grid, st, (n - 1) as nat) {
            Some(s) => {
                lemma_step_shaped(grid, st, s);
            },
            None => {},
        }
    }
}

/// Reads the tile at a place.
fn tile_at(grid: &Vec<Vec<char>>, r: i64, c: i64) -> (t: char)
    ensures
        t == tile(rows_of(grid@), r as int, c as int),
{
    if r >= 0 && (r as u64) < grid.len() as u64 {
        assert(rows_of(grid@)[r as int] == grid@[r as int]@);
        if c >= 0 && (c as u64) < grid[r as usize].len() as u64 {
            return grid[r as usize][c as usize];
        }
    }
    '#'
}

/// Counts the ways out of a place.
fn count_routes(grid: &Vec<Vec<char>>, loc: (i32, i32)) -> (ways: u8)
    ensures
        ways == routes(rows_of(grid@), loc.0 as int, loc.1 as int),
{
    let r = loc.0 as i64;
    let c = loc.1 as i64;
    let mut ways: u8 = 0;
    if tile_at(grid, r, c + 1) != '#' {
        ways += 1;
    }
    if tile_at(grid, r, c - 1) != '#' {
        ways += 1;
    }
    if tile_at(grid, r + 1, c) != '#' {
        ways += 1;
    }
    if tile_at(grid, r - 1, c) != '#' {
        ways += 1;
    }
    ways
}

/// Finds the node of a tile.
fn find_node(graph: &TrailGraph, loc: (i32, i32)) -> (found: Option<usize>)
    ensures
        found == node_at(nodes_of(*graph), loc, 0),
        found matches Some(i) ==> i < nodes_of(*graph).len() && nodes_of(*graph)[i as int] == loc,
{
    let n = node_count(graph);
    let mut i: usize = 0;
    while i < n
        invariant
            i <= n,
            n == nodes_of(*graph).len(),
            node_at(nodes_of(*graph), loc, 0) == node_at(nodes_of(*graph), loc, i as int),
        decreases n - i,
    {
        let w = node_weight(graph, i);
        if w.0 == loc.0 && w.1 == loc.1 {
            return Some(i);
        }
        i += 1;
    }
    None
}

/// Joins two nodes unless an edge joins them. Returns whether the graph had
/// room.
fn join(graph: &mut TrailGraph, a: usize, b: usize, w: i32) -> (done: bool)
    requires
        a < nodes_of(*old(graph)).len(),
        b < nodes_of(*old(graph)).len(),
    ensures
        nodes_of(*final(graph)) == nodes_of(*old(graph)),
        done == (joined(edges_of(*old(graph)), a, b) || edges_of(*old(graph)).len() < u32::MAX),
        done ==> edges_of(*final(graph)) == with_edge(edges_of(*old(graph)), a, b, w),
        !done ==> edges_of(*final(graph)) == edges_of(*old(graph)),
{
    if contains_edge(graph, a, b) {
        true
    } else if edge_count(graph) < 0xffff_ffff {
        add_edge(graph, a, b, w);
        true
    } else {
        false
    }
}

/// The way of a number.
fn way_of(k: usize) -> (d: (i32, i32))
    requires
        k < 4,
    ensures
        d == way(k as int),
{
    if k == 0 {
        (0, 1)
    } else if k == 1 {
        (0, -1)
    } else if k == 2 {
        (1, 0)
    } else {
        (-1, 0)
    }
}

/// Surveys the trails of a map from the tile `st`: the junctions become the
/// nodes of a graph, and the trails between them its edges, each as long
/// as the first probe found it. Returns the graph, the node of the start
/// and the node of the tile `end`. `None` where the survey has not ended
/// after `limit` probes, has failed, or has made no node of `end`.
pub fn compress(grid: &Vec<Vec<char>>, st: (i32, i32), end: (i32, i32), limit: usize) -> (found: Option<
    (TrailGraph, usize, usize),
>)
    ensures
        match found {
            Some((graph, a, b)) => trails(rows_of(grid@), st, end, limit as nat) matches Some(
                t,
            ) && nodes_of(graph) == t.0.nodes && edges_of(graph) == t.0.edges && a == 0 && b == t.1
                && b < t.0.nodes.len() && a < t.0.nodes.len() && shaped(rows_of(grid@), st, t.0),
            None => trails(rows_of(grid@), st, end, limit as nat) is None,
        },
{
    let ghost g = rows_of(grid@);
    let mut graph = new_graph();
    let start = add_node(&mut graph, st);
    let mut q: VecDeque<Probe> = VecDeque::new();
    q.push_back(Probe { location: st, node: start, distance: 0, dir: (1, 0) });
    let mut count: usize = 0;
    proof {
        let s = surveyed(g, st, 0)->Some_0;
        assert(nodes_of(graph) =~= s.nodes);
        assert(q@ =~= s.queue);
    }
    while q.len() > 0 && count < limit
        invariant
            count <= limit,
            g == rows_of(grid@),
            surveyed(g, st, count as nat) matches Some(s) && s.nodes == nodes_of(graph) && s.edges
                == edges_of(graph) && s.queue == q@ && tidy(s),
            nodes_of(graph).len() >= 1,
        decreases limit - count,
    {
        let ghost s = surveyed(g, st, count as nat)->Some_0;
        let tile = match q.pop_front() {
            Some(t) => t,
            None => {
                return None;
            },
        };
        assert(tile == s.queue[0]);
        assert(q@ =~= s.queue.skip(1));
        assert(tile.node < nodes_of(graph).len());
        let location = tile.location;
        let previous_node = node_weight(&graph, tile.node);
        let known = find_node(&graph, location);
        let differs = !(previous_node.0 == location.0 && previous_node.1 == location.1);
        if known.is_some() && differs {
            let current_node = known.unwrap();
            if !join(&mut graph, current_node, tile.node, tile.distance) {
                proof {
                    lemma_survey_stays(g, st, (count + 1) as nat, limit as nat);
                }
                return None;
            }
            proof {
                let after = survey_step(g, s)->Some_0;
                assert(tidy(after)) by {
                    assert forall|i: int| 0 <= i < after.queue.len() implies (
                    #[trigger] after.queue[i]).node < after.nodes.len() by {
                        assert(after.queue[i] == s.queue[i + 1]);
                    }
                }
            }
            count += 1;
            continue ;
        }
        if tile_at(grid, location.0 as i64, location.1 as i64) == '#' {
            proof {
                let after = survey_step(g, s)->Some_0;
                assert(tidy(after)) by {
                    assert forall|i: int| 0 <= i < after.queue.len() implies (
                    #[trigger] after.queue[i]).node < after.nodes.len() by {
                        assert(after.queue[i] == s.queue[i + 1]);
                    }
                }
            }
            count += 1;
            continue ;
        }
        let ways = count_routes(grid, location);
        let turns = ways > 2 || ways == 1;
        let mut next_node = tile.node;
        let mut distance = tile.distance;
        if turns {
            next_node = match known {
                Some(i) => i,
                None => {
                    if node_count(&graph) >= 0xffff_ffff {
                        proof {
                            lemma_survey_stays(g, st, (count + 1) as nat, limit as nat);
                        }
                        return None;
                    }
                    add_node(&mut graph, location)
                },
            };
            if !join(&mut graph, tile.node, next_node, tile.distance) {
                proof {
                    lemma_survey_stays(g, st, (count + 1) as nat, limit as nat);
                }
                return None;
            }
            distance = 0;
        }
        if distance == i32::MAX || location.0 == i32::MAX || location.1 == i32::MAX {
            proof {
                lemma_survey_stays(g, st, (count + 1) as nat, limit as nat);
            }
            return None;
        }
        let ghost rest = q@;
        let mut k: usize = 0;
        while k < 4
            invariant
                k <= 4,
                0 <= location.0 < i32::MAX,
                0 <= location.1 < i32::MAX,
                distance < i32::MAX,
                location == tile.location,
                q@ == rest + sent_on(tile, next_node, (distance + 1) as i32, k as int),
            decreases 4 - k,
        {
            let dir = way_of(k);
            if !(dir.0 as i64 == -(tile.dir.0 as i64) && dir.1 as i64 == -(tile.dir.1 as i64)) {
                let next_location = (location.0 + dir.0, location.1 + dir.1);
                q.push_back(
                    Probe { location: next_location, node: next_node, distance: distance + 1, dir },
                );
                assert(q@ =~= rest + sent_on(tile, next_node, (distance + 1) as i32, k + 1));
            }
            k += 1;
        }
        proof {
            let after = survey_step(g, s)->Some_0;
            assert(after.queue == q@);
            assert(tidy(after)) by {
                assert forall|i: int| 0 <= i < after.queue.len() implies (
                #[trigger] after.queue[i]).node < after.nodes.len() by {
                    if i < rest.len() {
                        assert(after.queue[i] == s.queue[i + 1]);
                    } else {
                        lemma_sent_on(tile, next_node, (distance + 1) as i32, 4, i - rest.len());
                    }
                }
            }
        }
        count += 1;
    }
    if q.len() > 0 {
        return None;
    }
    proof {
        lemma_survey_stays(g, st, count as nat, limit as nat);
        lemma_survey_shaped(g, st, limit as nat);
    }
    match find_node(&graph, end) {
        Some(b) => Some((graph, start, b)),
        None => None,
    }
}

/// Every probe that is sent on has left the node that it was given.
pub proof fn lemma_sent_on(t: Probe, node: usize, distance: i32, upto: int, i: int)
    requires
        0 <= i < sent_on(t, node, distance, upto).len(),
    ensures
        sent_on(t, node, distance, upto)[i].node == node,
        sent_on(t, node, distance, upto)[i].distance == distance,
    decreases upto,
{
    if upto > 0 {
        let before = sent_on(t, node, distance, upto - 1);
        if i < before.len() {
            lemma_sent_on(t, node, distance, upto - 1, i);
        }
    }
}

/// The marks of a map, none set.
fn no_marks(input: &Vec<Vec<char>>) -> (visited: Vec<Vec<bool>>)
    ensures
        fitted(flags_of(visited@), rows_of(input@)),
        forall|p: (int, int)| !entered(flags_of(visited@), p),
{
    let mut visited: Vec<Vec<bool>> = Vec::new();
    let mut r: usize = 0;
    while r < input.len()
        invariant
            r <= input@.len(),
            visited@.len() == r,
            forall|i: int| 0 <= i < r ==> (#[trigger] visited@[i])@.len() == input@[i]@.len(),
            forall|i: int, j: int|
                0 <= i < r && 0 <= j < visited@[i]@.len() ==> !(#[trigger] visited@[i]@[j]),
        decreases input@.len() - r,
    {
        let mut row: Vec<bool> = Vec::new();
        let mut c: usize = 0;
        while c < input[r].len()
            invariant
                r < input@.len(),
                c <= input@[r as int]@.len(),
                row@.len() == c,
                forall|j: int| 0 <= j < c ==> !(#[trigger] row@[j]),
            decreases input@[r as int]@.len() - c,
        {
            row.push(false);
            c += 1;
        }
        visited.push(row);
        r += 1;
    }
    proof {
        assert forall|i: int| 0 <= i < input@.len() implies (#[trigger] flags_of(visited@)[i]).len()
            == rows_of(input@)[i].len() by {
            assert(flags_of(visited@)[i] == visited@[i]@);
            assert(rows_of(input@)[i] == input@[i]@);
        }
        assert forall|p: (int, int)| !entered(flags_of(visited@), p) by {
            if 0 <= p.0 < visited@.len() {
                assert(flags_of(visited@)[p.0] == visited@[p.0]@);
            }
        }
    }
    visited
}

/// The marks of a map with none set.
pub open spec fn unmarked(grid: Seq<Seq<char>>) -> Seq<Seq<bool>> {
    Seq::new(grid.len(), |r: int| Seq::new(grid[r].len(), |c: int| false))
}

/// The steps of the longest stroll from `start` to `target` that obeys
/// the slopes; `None` where there is no stroll.
pub fn solve_pt1(start: (i32, i32), target: (i32, i32), input: &Vec<Vec<char>>) -> (steps: Option<
    usize,
>)
    ensures
        longest_stroll(
            rows_of(input@),
            (start.0 as int, start.1 as int),
            (target.0 as int, target.1 as int),
            unmarked(rows_of(input@)),
            0,
            -1,
            noted(steps),
        ),
{
    let mut visited = no_marks(input);
    let mut journey: Vec<(i128, i128)> = Vec::new();
    let mut best: Option<usize> = None;
    proof {
        let grid = rows_of(input@);
        assert(flags_of(visited@) =~= unmarked(grid)) by {
            assert forall|r: int| 0 <= r < grid.len() implies #[trigger] flags_of(visited@)[r]
                =~= unmarked(grid)[r] by {
                assert forall|c: int| 0 <= c < grid[r].len() implies !flags_of(visited@)[r][c] by {
                    assert(!entered(flags_of(visited@), (r, c)));
                }
            }
        }
    }
    explore(
        input,
        (start.0 as i128, start.1 as i128),
        (target.0 as i128, target.1 as i128),
        &mut visited,
        &mut journey,
        &mut best,
    );
    best
}

/// The length of the longest hike from the start to the target over the
/// graph of the trails, slopes taken either way; 0 where there is no hike,
/// and `None` where the trails have no graph.
pub fn solve_pt2(start: (i32, i32), target: (i32, i32), input: &Vec<Vec<char>>, limit: usize) -> (steps:
    Option<i128>)
    ensures
        match steps {
            Some(v) => trails(rows_of(input@), start, target, limit as nat) matches Some(t)
                && longest(
                t.0.edges,
                0,
                t.1,
                Seq::new(t.0.nodes.len(), |i: int| false),
                0,
                0,
                v as int,
            ),
            None => trails(rows_of(input@), start, target, limit as nat) is None,
        },
{
    let (graph, a, b) = match compress(input, start, target, limit) {
        Some(found) => found,
        None => {
            return None;
        },
    };
    let n = node_count(&graph);
    let mut visited: Vec<bool> = Vec::new();
    let mut i: usize = 0;
    while i < n
        invariant
            i <= n,
            visited@.len() == i,
            forall|j: int| 0 <= j < i ==> !visited@[j],
        decreases n - i,
    {
        visited.push(false);
        i += 1;
    }
    assert(visited@ =~= Seq::new(nodes_of(graph).len(), |i: int| false));
    let mut path: Vec<usize> = Vec::new();
    let mut sol2: i128 = 0;
    find_longest_path(&graph, a, b, &mut visited, &mut path, 0, &mut sol2);
    Some(sol2)
}

/// Whether `found` holds both answers for a map: the steps of the longest
/// stroll from the second tile of the first row to the last tile but one
/// of the last row, and the length of the longest hike between the two
/// over the graph of the trails.
pub open spec fn answers(grid: Seq<Seq<char>>, limit: nat, found: (usize, i128)) -> bool {
    let target = ((grid.len() - 1) as i32, (grid[0].len() - 2) as i32);
    &&& longest_stroll(
        grid,
        (0, 1),
        (target.0 as int, target.1 as int),
        unmarked(grid),
        0,
        -1,
        found.0 as int,
    )
    &&& trails(grid, (0, 1), target, limit) matches Some(t) && longest(
        t.0.edges,
        0,
        t.1,
        Seq::new(t.0.nodes.len(), |i: int| false),
        0,
        0,
        found.1 as int,
    )
}

/// Whether a map has both answers: it has a row, its sides fit in 32 bits,
/// a stroll leads to the target, and the trails have a graph.
pub open spec fn answerable(grid: Seq<Seq<char>>, limit: nat) -> bool {
    &&& 0 < grid.len() <= i32::MAX
    &&& grid[0].len() <= i32::MAX
    &&& exists|rest: Seq<(int, int)>| #[trigger]
        stroll(grid, (0, 1), (grid.len() - 1, grid[0].len() - 2), unmarked(grid), rest)
    &&& trails(grid, (0, 1), ((grid.len() - 1) as i32, (grid[0].len() - 2) as i32), limit) is Some
}

/// Both answers for the lines of a map.
pub fn solve(lines: &Vec<String>, limit: usize) -> (found: Option<(usize, i128)>)
    ensures
        match found {
            Some(f) => answerable(texts(lines@), limit as nat) && answers(
                texts(lines@),
                limit as nat,
                f,
            ),
            None => !answerable(texts(lines@), limit as nat),
        },
{
    let input = to_grid(lines);
    let ghost grid = texts(lines@);
    assert(rows_of(input@) =~= grid) by {
        assert(crate::days::day11::grid(input@) == grid);
        assert forall|r: int| 0 <= r < grid.len() implies #[trigger] rows_of(input@)[r] == grid[r] by {
            assert(crate::days::day11::grid(input@)[r] == input@[r]@);
        }
    }
    if input.len() == 0 || input.len() > 0x7fff_ffff {
        return None;
    }
    assert(grid[0] == input@[0]@);
    if input[0].len() > 0x7fff_ffff {
        return None;
    }
    let start: (i32, i32) = (0, 1);
    let target: (i32, i32) = ((input.len() as i64 - 1) as i32, (input[0].len() as i64 - 2) as i32);
    let sol1 = match solve_pt1(start, target, &input) {
        Some(v) => v,
        None => {
            return None;
        },
    };
    match solve_pt2(start, target, &input, limit) {
        Some(sol2) => Some((sol1, sol2)),
        None => None,
    }
}

} // verus!
