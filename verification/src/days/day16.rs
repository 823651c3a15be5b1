//! Beams of light on a grid of mirrors and splitters.

use vstd::prelude::*;
use crate::text::{texts, to_chars};

verus! {

/// The direction in which a beam moves.
#[derive(Clone, Copy, Debug, PartialEq, Eq, Hash, Structural)]
pub enum Direction {
    UP,
    DOWN,
    LEFT,
    RIGHT,
}

/// The tile next to `(row, col)` in the given direction.
pub open spec fn next_location(row: int, col: int, dir: Direction) -> (int, int) {
    match dir {
        Direction::UP => (row - 1, col),
        Direction::DOWN => (row + 1, col),
        Direction::LEFT => (row, col - 1),
        Direction::RIGHT => (row, col + 1),
    }
}

/// The directions in which a beam leaves a tile that it entered moving in
/// `dir`: unchanged through empty space and through a splitter along its
/// length, both ways out of a splitter that it meets across, and turned by a
/// mirror.
pub open spec fn leaving(tile_type: char, dir: Direction) -> Seq<Direction> {
    if tile_type == '|' {
        match dir {
            Direction::UP | Direction::DOWN => seq![dir],
            Direction::LEFT | Direction::RIGHT => seq![Direction::UP, Direction::DOWN],
        }
    } else if tile_type == '-' {
        match dir {
            Direction::LEFT | Direction::RIGHT => seq![dir],
            Direction::UP | Direction::DOWN => seq![Direction::LEFT, Direction::RIGHT],
        }
    } else if tile_type == '\\' {
        match dir {
            Direction::UP => seq![Direction::LEFT],
            Direction::DOWN => seq![Direction::RIGHT],
            Direction::LEFT => seq![Direction::UP],
            Direction::RIGHT => seq![Direction::DOWN],
        }
    } else if tile_type == '/' {
        match dir {
            Direction::UP => seq![Direction::RIGHT],
            Direction::DOWN => seq![Direction::LEFT],
            Direction::LEFT => seq![Direction::DOWN],
            Direction::RIGHT => seq![Direction::UP],
        }
    } else {
        seq![dir]
    }
}

/// The tile next to `(row, col)` in the given direction. The step must not
/// leave 32 bits.
pub fn get_location(row: i32, col: i32, dir: Direction) -> (to: (i32, i32))
    requires
        i32::MIN < row < i32::MAX,
        i32::MIN < col < i32::MAX,
    ensures
        to.0 == next_location(row as int, col as int, dir).0,
        to.1 == next_location(row as int, col as int, dir).1,
{
    match dir {
        Direction::UP => (row - 1, col),
        Direction::DOWN => (row + 1, col),
        Direction::LEFT => (row, col - 1),
        Direction::RIGHT => (row, col + 1),
    }
}

/// The directions in which a beam leaves a tile of the given type.
pub fn directions_out(tile_type: char, dir: Direction) -> (out: Vec<Direction>)
    ensures
        out@ == leaving(tile_type, dir),
{
    let mut out: Vec<Direction> = Vec::new();
    if tile_type == '|' {
        match dir {
            Direction::UP | Direction::DOWN => {
                out.push(dir);
            },
            Direction::LEFT | Direction::RIGHT => {
                out.push(Direction::UP);
                out.push(Direction::DOWN);
            },
        }
    } else if tile_type == '-' {
        match dir {
            Direction::LEFT | Direction::RIGHT => {
                out.push(dir);
            },
            Direction::UP | Direction::DOWN => {
                out.push(Direction::LEFT);
                out.push(Direction::RIGHT);
            },
        }
    } else if tile_type == '\\' {
        match dir {
            Direction::UP => {
                out.push(Direction::LEFT);
            },
            Direction::DOWN => {
                out.push(Direction::RIGHT);
            },
            Direction::LEFT => {
                out.push(Direction::UP);
            },
            Direction::RIGHT => {
                out.push(Direction::DOWN);
            },
        }
    } else if tile_type == '/' {
        match dir {
            Direction::UP => {
                out.push(Direction::RIGHT);
            },
            Direction::DOWN => {
                out.push(Direction::LEFT);
            },
            Direction::LEFT => {
                out.push(Direction::DOWN);
            },
            Direction::RIGHT => {
                out.push(Direction::UP);
            },
        }
    } else {
        out.push(dir);
    }
    assert(out@ =~= leaving(tile_type, dir));
    out
}

/// A tile of the grid: what stands on it, and in which directions a beam has
/// crossed it already.
#[derive(Clone, Copy, Debug, PartialEq, Eq)]
pub struct Tile {
    pub energised_count: u8,
    pub tile_type: char,
    pub up: bool,
    pub down: bool,
    pub left: bool,
    pub right: bool,
}

impl Tile {
    /// A beam has crossed the tile in the direction.
    pub open spec fn seen(self, dir: Direction) -> bool {
        match dir {
            Direction::UP => self.up,
            Direction::DOWN => self.down,
            Direction::LEFT => self.left,
            Direction::RIGHT => self.right,
        }
    }

    /// The tile with the direction marked.
    pub open spec fn marked(self, dir: Direction) -> Tile {
        let t = Tile { energised_count: (self.energised_count + 1) as u8, ..self };
        match dir {
            Direction::UP => Tile { up: true, ..t },
            Direction::DOWN => Tile { down: true, ..t },
            Direction::LEFT => Tile { left: true, ..t },
            Direction::RIGHT => Tile { right: true, ..t },
        }
    }

    /// The number of directions in which a beam has crossed the tile.
    pub open spec fn crossings(self) -> int {
        (if self.up {
            1int
        } else {
            0int
        }) + (if self.down {
            1int
        } else {
            0int
        }) + (if self.left {
            1int
        } else {
            0int
        }) + (if self.right {
            1int
        } else {
            0int
        })
    }

    /// The count of the tile is the number of directions marked.
    pub open spec fn wf(self) -> bool {
        self.energised_count == self.crossings()
    }

    /// A tile of the given type that no beam has crossed.
    pub fn from(spot: (char, usize, usize)) -> (tile: Tile)
        ensures
            tile == (Tile {
                energised_count: 0,
                tile_type: spot.0,
                up: false,
                down: false,
                left: false,
                right: false,
            }),
            tile.wf(),
    {
        Tile {
            energised_count: 0,
            tile_type: spot.0,
            up: false,
            down: false,
            left: false,
            right: false,
        }
    }

    /// Whether a beam has crossed the tile in the direction.
    pub fn has_seen(&self, dir: Direction) -> (b: bool)
        ensures
            b == self.seen(dir),
    {
        match dir {
            Direction::UP => self.up,
            Direction::DOWN => self.down,
            Direction::LEFT => self.left,
            Direction::RIGHT => self.right,
        }
    }

    /// Lets a beam that moves in the given direction onto the tile. A beam
    /// that follows an earlier one goes no further; any other is marked, and
    /// leaves in the directions returned.
    pub fn accept_beam(&mut self, moving_direction: Direction) -> (out: Option<Vec<Direction>>)
        requires
            old(self).wf(),
        ensures
            final(self).wf(),
            match out {
                None => old(self).seen(moving_direction) && *final(self) == *old(self),
                Some(dirs) => {
                    &&& !old(self).seen(moving_direction)
                    &&& *final(self) == old(self).marked(moving_direction)
                    &&& dirs@ == leaving(old(self).tile_type, moving_direction)
                },
            },
    {
        if self.has_seen(moving_direction) {
            return None;
        }
        match moving_direction {
            Direction::UP => {
                self.up = true;
            },
            Direction::DOWN => {
                self.down = true;
            },
            Direction::LEFT => {
                self.left = true;
            },
            Direction::RIGHT => {
                self.right = true;
            },
        }
        self.energised_count += 1;
        Some(directions_out(self.tile_type, moving_direction))
    }
}

/// A beam on a tile: row, column and direction.
pub type Beam = (int, int, Direction);

/// The types of the tiles.
pub open spec fn types(grid: Seq<Vec<Tile>>) -> Seq<Seq<char>> {
    grid.map_values(|row: Vec<Tile>| row@.map_values(|t: Tile| t.tile_type))
}

/// The tile lies on the grid and no beam has crossed it in that direction.
pub open spec fn fresh(grid: Seq<Vec<Tile>>, b: Beam) -> bool {
    0 <= b.0 < grid.len() && 0 <= b.1 < grid[b.0]@.len() && !grid[b.0]@[b.1].seen(b.2)
}

/// The beam `a` goes on as the beam `b`: `b` leaves the tile of `a` in one
/// of the directions that the tile sends it, to the next tile that way.
pub open spec fn goes_on(grid: Seq<Vec<Tile>>, a: Beam, b: Beam) -> bool {
    &&& 0 <= a.0 < grid.len() && 0 <= a.1 < grid[a.0]@.len()
    &&& leaving(grid[a.0]@[a.1].tile_type, a.2).contains(b.2)
    &&& (b.0, b.1) == next_location(a.0, a.1, b.2)
}

/// The beam that starts as `start` becomes the beam `b` after `n` tiles or
/// fewer, each of them fresh.
pub open spec fn lights(grid: Seq<Vec<Tile>>, start: Beam, b: Beam, n: nat) -> bool
    decreases n,
{
    if n == 0 {
        b == start && fresh(grid, start)
    } else {
        lights(grid, start, b, (n - 1) as nat) || (fresh(grid, b) && exists|a: Beam|
            lights(grid, start, a, (n - 1) as nat) && #[trigger] goes_on(grid, a, b))
    }
}

/// The beam that starts as `start` becomes the beam `b`.
pub open spec fn lit(grid: Seq<Vec<Tile>>, start: Beam, b: Beam) -> bool {
    exists|n: nat| lights(grid, start, b, n)
}

/// No beam had crossed the tile, and the beam that starts as `start` crosses
/// it.
pub open spec fn newly_energised(grid: Seq<Vec<Tile>>, start: Beam, c: (int, int)) -> bool {
    &&& 0 <= c.0 < grid.len() && 0 <= c.1 < grid[c.0]@.len()
    &&& grid[c.0]@[c.1].crossings() == 0
    &&& exists|d: Direction| lit(grid, start, (c.0, c.1, d))
}

/// The number of marks that are still missing among the first `upto` tiles
/// of a row.
pub open spec fn unmarked_in_row(row: Seq<Tile>, upto: int) -> int
    decreases upto,
{
    if upto <= 0 || upto > row.len() {
        0
    } else {
        unmarked_in_row(row, upto - 1) + 4 - row[upto - 1].crossings()
    }
}

/// The number of marks that are still missing in the first `upto` rows.
pub open spec fn unmarked(grid: Seq<Vec<Tile>>, upto: int) -> int
    decreases upto,
{
    if upto <= 0 || upto > grid.len() {
        0
    } else {
        unmarked(grid, upto - 1) + unmarked_in_row(grid[upto - 1]@, grid[upto - 1]@.len() as int)
    }
}

proof fn lemma_unmarked_in_row_nonnegative(row: Seq<Tile>, upto: int)
    ensures
        unmarked_in_row(row, upto) >= 0,
    decreases upto,
{
    if 0 < upto <= row.len() {
        lemma_unmarked_in_row_nonnegative(row, upto - 1);
    }
}

proof fn lemma_unmarked_nonnegative(grid: Seq<Vec<Tile>>, upto: int)
    ensures
        unmarked(grid, upto) >= 0,
    decreases upto,
{
    if 0 < upto <= grid.len() {
        lemma_unmarked_nonnegative(grid, upto - 1);
        lemma_unmarked_in_row_nonnegative(grid[upto - 1]@, grid[upto - 1]@.len() as int);
    }
}

proof fn lemma_unmarked_in_row_mark(row: Seq<Tile>, y: int, t: Tile, upto: int)
    requires
        0 <= y < row.len(),
        t.crossings() == row[y].crossings() + 1,
        0 <= upto <= row.len(),
    ensures
        unmarked_in_row(row.update(y, t), upto) == unmarked_in_row(row, upto) - if y < upto {
            1int
        } else {
            0int
        },
    decreases upto,
{
    if upto > 0 {
        lemma_unmarked_in_row_mark(row, y, t, upto - 1);
    }
}

proof fn lemma_unmarked_mark(a: Seq<Vec<Tile>>, b: Seq<Vec<Tile>>, x: int, y: int, upto: int)
    requires
        a.len() == b.len(),
        0 <= x < a.len(),
        0 <= y < a[x]@.len(),
        b[x]@ == a[x]@.update(y, b[x]@[y]),
        b[x]@[y].crossings() == a[x]@[y].crossings() + 1,
        forall|i: int| 0 <= i < a.len() && i != x ==> (#[trigger] b[i])@ == a[i]@,
        0 <= upto <= a.len(),
    ensures
        unmarked(b, upto) == unmarked(a, upto) - if x < upto {
            1int
        } else {
            0int
        },
    decreases upto,
{
    if upto > 0 {
        lemma_unmarked_mark(a, b, x, y, upto - 1);
        if x == upto - 1 {
            lemma_unmarked_in_row_mark(a[x]@, y, b[x]@[y], a[x]@.len() as int);
        }
    }
}

/// The beam is on the stack.
pub open spec fn waiting(stack: Seq<(i128, i128, Direction)>, b: Beam) -> bool {
    exists|i: int|
        0 <= i < stack.len() && ((#[trigger] stack[i]).0 as int, stack[i].1 as int, stack[i].2)
            == b
}

/// A set of beams that holds the start, if it is fresh, and with each of its
/// beams every fresh beam that it goes on as, holds every beam that the start
/// becomes.
proof fn lemma_closed_holds_lit(grid: Seq<Vec<Tile>>, start: Beam, done: Set<Beam>, b: Beam, n: nat)
    requires
        fresh(grid, start) ==> done.contains(start),
        forall|a: Beam, c: Beam|
            done.contains(a) && #[trigger] goes_on(grid, a, c) && fresh(grid, c) ==> done.contains(c),
        lights(grid, start, b, n),
    ensures
        done.contains(b),
    decreases n,
{
    if n > 0 {
        if lights(grid, start, b, (n - 1) as nat) {
            lemma_closed_holds_lit(grid, start, done, b, (n - 1) as nat);
        } else {
            let a = choose|a: Beam|
                lights(grid, start, a, (n - 1) as nat) && #[trigger] goes_on(grid, a, b);
            lemma_closed_holds_lit(grid, start, done, a, (n - 1) as nat);
            assert(done.contains(a) && goes_on(grid, a, b) && fresh(grid, b));
        }
    }
}

/// A beam that the start becomes goes on as every fresh beam that follows
/// it.
proof fn lemma_lit_on(grid: Seq<Vec<Tile>>, start: Beam, a: Beam, b: Beam)
    requires
        lit(grid, start, a),
        goes_on(grid, a, b),
        fresh(grid, b),
    ensures
        lit(grid, start, b),
{
    let n = choose|n: nat| lights(grid, start, a, n);
    assert(lights(grid, start, a, n) && goes_on(grid, a, b));
    assert(lights(grid, start, b, n + 1));
}

/// Every tile of the grid has as its count the number of its marks.
pub open spec fn all_wf(grid: Seq<Vec<Tile>>) -> bool {
    forall|x: int, y: int|
        0 <= x < grid.len() && 0 <= y < grid[x]@.len() ==> (#[trigger] grid[x]@[y]).wf()
}

/// Sends a beam onto the tile at `location`, moving in `moving_direction`,
/// follows it and all the beams it splits into until each has left the grid
/// or follows an earlier beam, and returns the number of tiles that no beam
/// had crossed before and that one of these beams crosses.
pub fn num_energised_from(
    location: (i32, i32),
    moving_direction: Direction,
    tile_grid: &mut Vec<Vec<Tile>>,
) -> (count: u128)
    requires
        all_wf(old(tile_grid)@),
        old(tile_grid)@.len() <= 0xffff_ffff,
    ensures
        all_wf(final(tile_grid)@),
        final(tile_grid)@.len() == old(tile_grid)@.len(),
        forall|x: int|
            0 <= x < old(tile_grid)@.len() ==> (#[trigger] final(tile_grid)@[x])@.len() == old(
                tile_grid,
            )@[x]@.len(),
        forall|x: int, y: int|
            0 <= x < old(tile_grid)@.len() && 0 <= y < old(tile_grid)@[x]@.len() ==> {
                &&& (#[trigger] final(tile_grid)@[x]@[y]).tile_type == old(
                    tile_grid,
                )@[x]@[y].tile_type
                &&& forall|d: Direction|
                    final(tile_grid)@[x]@[y].seen(d) == (old(tile_grid)@[x]@[y].seen(d) || lit(
                        old(tile_grid)@,
                        (location.0 as int, location.1 as int, moving_direction),
                        (x, y, d),
                    ))
            },
        newly_lit(
            old(tile_grid)@,
            (location.0 as int, location.1 as int, moving_direction),
        ).finite(),
        count == energy(
            old(tile_grid)@,
            (location.0 as int, location.1 as int, moving_direction),
        ),
{
    let ghost g0 = tile_grid@;
    let ghost start: Beam = (location.0 as int, location.1 as int, moving_direction);
    let ghost mut done: Set<Beam> = Set::empty();
    let ghost mut tiles: Set<(int, int)> = Set::empty();
    let mut stack: Vec<(i128, i128, Direction)> = Vec::new();
    stack.push((location.0 as i128, location.1 as i128, moving_direction));
    let mut count: u128 = 0;
    let rows = tile_grid.len();
    proof {
        lemma_unmarked_nonnegative(g0, rows as int);
        lemma_unmarked_bound(g0, rows as int);
        assert(rows * (4 * 0xffff_ffff_ffff_ffff) <= 0xffff_ffff * (4 * 0xffff_ffff_ffff_ffff))
            by (nonlinear_arith)
            requires
                0 <= rows <= 0xffff_ffff,
        ;
        assert((stack@[0].0 as int, stack@[0].1 as int, stack@[0].2) == start);
    }
    while stack.len() > 0
        invariant
            g0 == old(tile_grid)@,
            start == (location.0 as int, location.1 as int, moving_direction),
            rows == tile_grid@.len(),
            rows == g0.len(),
            all_wf(g0),
            all_wf(tile_grid@),
            forall|x: int| 0 <= x < rows ==> (#[trigger] tile_grid@[x])@.len() == g0[x]@.len(),
            forall|x: int, y: int|
                0 <= x < rows && 0 <= y < g0[x]@.len() ==> {
                    &&& (#[trigger] tile_grid@[x]@[y]).tile_type == g0[x]@[y].tile_type
                    &&& forall|d: Direction|
                        tile_grid@[x]@[y].seen(d) == (g0[x]@[y].seen(d) || done.contains((x, y, d)))
                },
            done.finite(),
            forall|b: Beam| done.contains(b) ==> fresh(g0, b) && lit(g0, start, b),
            forall|i: int|
                0 <= i < stack@.len() ==> ((#[trigger] stack@[i]).0 as int, stack@[i].1 as int, stack@[i].2)
                    == start || exists|a: Beam|
                    done.contains(a) && goes_on(
                        g0,
                        a,
                        (stack@[i].0 as int, stack@[i].1 as int, stack@[i].2),
                    ),
            forall|a: Beam, c: Beam|
                done.contains(a) && #[trigger] goes_on(g0, a, c) && fresh(g0, c) ==> done.contains(c)
                    || waiting(stack@, c),
            fresh(g0, start) ==> done.contains(start) || waiting(stack@, start),
            tiles.finite(),
            tiles.len() == count,
            forall|c: (int, int)|
                tiles.contains(c) <==> 0 <= c.0 < rows && 0 <= c.1 < g0[c.0]@.len() && g0[c.0]@[c.1].crossings()
                    == 0 && exists|d: Direction| done.contains((c.0, c.1, d)),
            count + unmarked(tile_grid@, rows as int) <= unmarked(g0, rows as int),
            unmarked(tile_grid@, rows as int) >= 0,
            unmarked(g0, rows as int) <= 0xffff_ffff * (4 * 0xffff_ffff_ffff_ffff),
        decreases 2 * unmarked(tile_grid@, rows as int) + stack@.len(),
    {
        let ghost before = stack@;
        let ghost done_before = done;
        let (x, y, dir) = stack.pop().unwrap();
        let ghost here: Beam = (x as int, y as int, dir);
        assert(before[before.len() - 1] == (x, y, dir));
        assert forall|c: Beam| waiting(before, c) implies waiting(stack@, c) || c == here by {
            let i = choose|i: int|
                0 <= i < before.len() && ((#[trigger] before[i]).0 as int, before[i].1 as int, before[i].2)
                    == c;
            if i < stack@.len() {
                assert(stack@[i] == before[i]);
            }
        }
        if x < 0 || y < 0 || x >= rows as i128 {
            assert(!fresh(g0, here));
            continue ;
        }
        let ux = x as usize;
        if y >= tile_grid[ux].len() as i128 {
            assert(!fresh(g0, here));
            continue ;
        }
        let uy = y as usize;
        let ghost cells = tile_grid@;
        let ghost was = tile_grid@[x as int]@[y as int];
        assert(was.wf());
        let mut tile = tile_grid[ux][uy];
        let out = tile.accept_beam(dir);
        let directions = match out {
            None => {
                assert(!fresh(g0, here) || done.contains(here));
                continue ;
            },
            Some(directions) => directions,
        };
        tile_grid[ux].set(uy, tile);
        proof {
            assert(fresh(g0, here));
            if here != start {
                let a = choose|a: Beam| done_before.contains(a) && goes_on(g0, a, here);
                lemma_lit_on(g0, start, a, here);
            } else {
                assert(lights(g0, start, here, 0));
            }
            lemma_unmarked_mark(cells, tile_grid@, x as int, y as int, rows as int);
            lemma_unmarked_nonnegative(tile_grid@, rows as int);
            done = done.insert(here);
            let first = g0[x as int]@[y as int];
            assert(was.seen(Direction::UP) == (first.seen(Direction::UP) || done_before.contains(
                (x as int, y as int, Direction::UP),
            )));
            assert(was.seen(Direction::DOWN) == (first.seen(Direction::DOWN)
                || done_before.contains((x as int, y as int, Direction::DOWN))));
            assert(was.seen(Direction::LEFT) == (first.seen(Direction::LEFT)
                || done_before.contains((x as int, y as int, Direction::LEFT))));
            assert(was.seen(Direction::RIGHT) == (first.seen(Direction::RIGHT)
                || done_before.contains((x as int, y as int, Direction::RIGHT))));
            if was.crossings() == 0 {
                assert(first.crossings() == 0);
                assert(!tiles.contains((x as int, y as int))) by {
                    if tiles.contains((x as int, y as int)) {
                        let d = choose|d: Direction| done_before.contains((x as int, y as int, d));
                        assert(was.seen(d));
                    }
                }
                tiles = tiles.insert((x as int, y as int));
            }
            assert(all_wf(tile_grid@)) by {
                assert forall|i: int, j: int|
                    0 <= i < tile_grid@.len() && 0 <= j < tile_grid@[i]@.len() implies (
                #[trigger] tile_grid@[i]@[j]).wf() by {
                    if i != x {
                        assert(tile_grid@[i] == cells[i]);
                    } else if j != y {
                        assert(tile_grid@[i]@[j] == cells[i]@[j]);
                    }
                }
            }
        }
        if tile.energised_count <= 1 {
            count += 1;
        }
        let ghost mid = stack@;
        let mut k: usize = 0;
        while k < directions.len()
            invariant
                k <= directions@.len(),
                directions@ == leaving(g0[x as int]@[y as int].tile_type, dir),
                directions@.len() <= 2,
                0 <= x < rows,
                0 <= y < g0[x as int]@.len(),
                here == (x as int, y as int, dir),
                stack@.len() == mid.len() + k,
                x < 0x1_0000_0000_0000_0000,
                y < 0x1_0000_0000_0000_0000,
                forall|i: int| 0 <= i < mid.len() ==> stack@[i] == mid[i],
                forall|i: int|
                    0 <= i < k ==> (stack@[mid.len() + i].0 as int, stack@[mid.len() + i].1 as int)
                        == next_location(x as int, y as int, directions@[i]) && stack@[mid.len()
                        + i].2 == directions@[i],
            decreases directions@.len() - k,
        {
            let d = directions[k];
            let (nx, ny) = match d {
                Direction::UP => (x - 1, y),
                Direction::DOWN => (x + 1, y),
                Direction::LEFT => (x, y - 1),
                Direction::RIGHT => (x, y + 1),
            };
            stack.push((nx, ny, d));
            k += 1;
        }
        proof {
            assert forall|c: Beam| goes_on(g0, here, c) implies waiting(stack@, c) by {
                let i = choose|i: int| 0 <= i < directions@.len() && directions@[i] == c.2;
                assert((stack@[mid.len() + i].0 as int, stack@[mid.len() + i].1 as int, stack@[mid.len() + i].2)
                    == c);
            }
            assert forall|i: int| 0 <= i < stack@.len() implies ((#[trigger] stack@[i]).0 as int, stack@[i].1 as int, stack@[i].2)
                == start || exists|a: Beam|
                done.contains(a) && goes_on(
                    g0,
                    a,
                    (stack@[i].0 as int, stack@[i].1 as int, stack@[i].2),
                ) by {
                if i >= mid.len() {
                    let j = i - mid.len();
                    assert(directions@[j] == stack@[i].2);
                    assert(done.contains(here) && goes_on(
                        g0,
                        here,
                        (stack@[i].0 as int, stack@[i].1 as int, stack@[i].2),
                    ));
                } else {
                    assert(mid[i] == before[i]);
                    assert(stack@[i] == before[i]);
                    if (before[i].0 as int, before[i].1 as int, before[i].2) != start {
                        let a = choose|a: Beam|
                            done_before.contains(a) && goes_on(
                                g0,
                                a,
                                (before[i].0 as int, before[i].1 as int, before[i].2),
                            );
                        assert(done.contains(a));
                    }
                }
            }
            assert forall|c: Beam| waiting(before, c) && c != here implies waiting(stack@, c) by {
                let i = choose|i: int|
                    0 <= i < before.len() && ((#[trigger] before[i]).0 as int, before[i].1 as int, before[i].2)
                        == c;
                assert(i < mid.len());
                assert(mid[i] == before[i]);
                assert(stack@[i] == before[i]);
            }
            assert forall|c: (int, int)|
                tiles.contains(c) <==> 0 <= c.0 < rows && 0 <= c.1 < g0[c.0]@.len() && g0[c.0]@[c.1].crossings()
                    == 0 && exists|d: Direction| done.contains((c.0, c.1, d)) by {
                let first = g0[x as int]@[y as int];
                if c == (x as int, y as int) {
                    if first.crossings() == 0 {
                        assert(done.contains((c.0, c.1, dir)));
                        if was.crossings() != 0 {
                            let d = if was.up {
                                Direction::UP
                            } else if was.down {
                                Direction::DOWN
                            } else if was.left {
                                Direction::LEFT
                            } else {
                                Direction::RIGHT
                            };
                            assert(was.seen(d));
                            assert(done_before.contains((c.0, c.1, d)));
                        }
                    }
                } else {
                    if exists|d: Direction| done.contains((c.0, c.1, d)) {
                        let d = choose|d: Direction| done.contains((c.0, c.1, d));
                        assert(done_before.contains((c.0, c.1, d)));
                    }
                    if exists|d: Direction| done_before.contains((c.0, c.1, d)) {
                        let d = choose|d: Direction| done_before.contains((c.0, c.1, d));
                        assert(done.contains((c.0, c.1, d)));
                    }
                }
            }
        }
    }
    proof {
        assert forall|b: Beam| lit(g0, start, b) implies done.contains(b) by {
            let n = choose|n: nat| lights(g0, start, b, n);
            assert forall|a: Beam, c: Beam|
                done.contains(a) && #[trigger] goes_on(g0, a, c) && fresh(g0, c) implies done.contains(
                c,
            ) by {
                assert(!waiting(stack@, c));
            }
            assert(!waiting(stack@, start));
            lemma_closed_holds_lit(g0, start, done, b, n);
        }
        assert forall|c: (int, int)| tiles.contains(c) <==> newly_energised(g0, start, c) by {
            if newly_energised(g0, start, c) {
                let d = choose|d: Direction| lit(g0, start, (c.0, c.1, d));
                assert(done.contains((c.0, c.1, d)));
            }
            if tiles.contains(c) {
                let d = choose|d: Direction| done.contains((c.0, c.1, d));
                assert(lit(g0, start, (c.0, c.1, d)));
            }
        }
        assert(tiles =~= newly_lit(g0, start));
    }
    count
}

/// The tiles that no beam had crossed and that the beam which starts as
/// `start` crosses.
pub open spec fn newly_lit(grid: Seq<Vec<Tile>>, start: Beam) -> Set<(int, int)> {
    Set::new(|c: (int, int)| newly_energised(grid, start, c))
}

/// The number of tiles that no beam had crossed and that the beam which
/// starts as `start` crosses.
pub open spec fn energy(grid: Seq<Vec<Tile>>, start: Beam) -> nat {
    newly_lit(grid, start).len()
}

/// Two grids with the same tiles.
pub open spec fn same_tiles(a: Seq<Vec<Tile>>, b: Seq<Vec<Tile>>) -> bool {
    a.len() == b.len() && forall|i: int| 0 <= i < a.len() ==> (#[trigger] a[i])@ == b[i]@
}

proof fn lemma_same_lights(a: Seq<Vec<Tile>>, b: Seq<Vec<Tile>>, start: Beam, c: Beam, n: nat)
    requires
        same_tiles(a, b),
        lights(a, start, c, n),
    ensures
        lights(b, start, c, n),
    decreases n,
{
    if n == 0 {
        assert(fresh(b, start));
    } else if lights(a, start, c, (n - 1) as nat) {
        lemma_same_lights(a, b, start, c, (n - 1) as nat);
    } else {
        let d = choose|d: Beam| lights(a, start, d, (n - 1) as nat) && #[trigger] goes_on(a, d, c);
        lemma_same_lights(a, b, start, d, (n - 1) as nat);
        assert(goes_on(b, d, c));
        assert(fresh(b, c));
    }
}

/// What a beam lights depends on the tiles alone.
pub proof fn lemma_same_energy(a: Seq<Vec<Tile>>, b: Seq<Vec<Tile>>, start: Beam)
    requires
        same_tiles(a, b),
    ensures
        energy(a, start) == energy(b, start),
{
    assert forall|c: (int, int)| newly_energised(a, start, c) == newly_energised(b, start, c) by {
        if newly_energised(a, start, c) {
            let d = choose|d: Direction| lit(a, start, (c.0, c.1, d));
            let n = choose|n: nat| lights(a, start, (c.0, c.1, d), n);
            lemma_same_lights(a, b, start, (c.0, c.1, d), n);
            assert(lit(b, start, (c.0, c.1, d)));
        }
        if newly_energised(b, start, c) {
            let d = choose|d: Direction| lit(b, start, (c.0, c.1, d));
            let n = choose|n: nat| lights(b, start, (c.0, c.1, d), n);
            lemma_same_lights(b, a, start, (c.0, c.1, d), n);
            assert(lit(a, start, (c.0, c.1, d)));
        }
    }
    assert(newly_lit(a, start) =~= newly_lit(b, start));
}

/// The grid that the lines draw, no beam on it yet.
pub open spec fn is_dark(lines: Seq<Seq<char>>, grid: Seq<Vec<Tile>>) -> bool {
    &&& grid.len() == lines.len()
    &&& forall|i: int| 0 <= i < lines.len() ==> (#[trigger] grid[i])@.len() == lines[i].len()
    &&& forall|i: int, j: int|
        0 <= i < lines.len() && 0 <= j < lines[i].len() ==> (#[trigger] grid[i]@[j]) == (Tile {
            energised_count: 0,
            tile_type: lines[i][j],
            up: false,
            down: false,
            left: false,
            right: false,
        })
}

/// Draws the grid.
pub fn read_grid(lines: &Vec<String>) -> (grid: Vec<Vec<Tile>>)
    ensures
        is_dark(texts(lines@), grid@),
        all_wf(grid@),
{
    let mut grid: Vec<Vec<Tile>> = Vec::new();
    let mut i: usize = 0;
    while i < lines.len()
        invariant
            i <= lines@.len(),
            grid@.len() == i,
            forall|k: int| 0 <= k < i ==> (#[trigger] grid@[k])@.len() == lines@[k]@.len(),
            forall|k: int, j: int|
                0 <= k < i && 0 <= j < lines@[k]@.len() ==> (#[trigger] grid@[k]@[j]) == (Tile {
                    energised_count: 0,
                    tile_type: lines@[k]@[j],
                    up: false,
                    down: false,
                    left: false,
                    right: false,
                }),
        decreases lines@.len() - i,
    {
        let chars = to_chars(lines[i].as_str());
        let mut row: Vec<Tile> = Vec::new();
        let mut j: usize = 0;
        while j < chars.len()
            invariant
                j <= chars@.len(),
                row@.len() == j,
                forall|k: int|
                    0 <= k < j ==> (#[trigger] row@[k]) == (Tile {
                        energised_count: 0,
                        tile_type: chars@[k],
                        up: false,
                        down: false,
                        left: false,
                        right: false,
                    }),
            decreases chars@.len() - j,
        {
            row.push(Tile::from((chars[j], i, j)));
            j += 1;
        }
        grid.push(row);
        i += 1;
    }
    assert(is_dark(texts(lines@), grid@)) by {
        assert forall|i: int| 0 <= i < lines@.len() implies texts(lines@)[i] == lines@[i]@ by {}
    }
    grid
}

/// A copy of the grid.
pub fn copy_grid(grid: &Vec<Vec<Tile>>) -> (copy: Vec<Vec<Tile>>)
    ensures
        same_tiles(grid@, copy@),
{
    let mut copy: Vec<Vec<Tile>> = Vec::new();
    let mut i: usize = 0;
    while i < grid.len()
        invariant
            i <= grid@.len(),
            copy@.len() == i,
            forall|k: int| 0 <= k < i ==> (#[trigger] copy@[k])@ == grid@[k]@,
        decreases grid@.len() - i,
    {
        let mut row: Vec<Tile> = Vec::new();
        let mut j: usize = 0;
        while j < grid[i].len()
            invariant
                i < grid@.len(),
                j <= grid@[i as int]@.len(),
                row@ == grid@[i as int]@.take(j as int),
            decreases grid@[i as int]@.len() - j,
        {
            row.push(grid[i][j]);
            assert(grid@[i as int]@.take(j + 1) =~= grid@[i as int]@.take(j as int).push(
                grid@[i as int]@[j as int],
            ));
            j += 1;
        }
        assert(grid@[i as int]@.take(j as int) =~= grid@[i as int]@);
        copy.push(row);
        i += 1;
    }
    copy
}

/// The number of tiles that a beam lights which enters the dark grid on the
/// tile at `location`, moving in `dir`.
pub fn energised_from(grid: &Vec<Vec<Tile>>, location: (i32, i32), dir: Direction) -> (count: u128)
    requires
        all_wf(grid@),
        grid@.len() <= 0xffff_ffff,
    ensures
        count == energy(grid@, (location.0 as int, location.1 as int, dir)),
{
    let mut copy = copy_grid(grid);
    proof {
        lemma_same_energy(grid@, copy@, (location.0 as int, location.1 as int, dir));
        assert(all_wf(copy@)) by {
            assert forall|x: int, y: int|
                0 <= x < copy@.len() && 0 <= y < copy@[x]@.len() implies (#[trigger] copy@[x]@[y]).wf() by {
                assert(copy@[x]@[y] == grid@[x]@[y]);
            }
        }
    }
    num_energised_from(location, dir, &mut copy)
}

/// The beams that may enter the grid, in the order in which they are tried:
/// for each row the beam from the left and the beam from the right, then for
/// each column of the first row the beam from above and, as often, the beam
/// that enters the first column from below.
pub open spec fn entries(rows: int, cols: int, upto: int) -> Seq<Beam>
    decreases upto,
{
    if upto <= 0 || upto > rows + cols {
        Seq::empty()
    } else if upto <= rows {
        entries(rows, cols, upto - 1).push((upto - 1, 0, Direction::RIGHT)).push(
            (upto - 1, cols - 1, Direction::LEFT),
        )
    } else {
        entries(rows, cols, upto - 1).push((0, upto - 1 - rows, Direction::DOWN)).push(
            (rows - 1, 0, Direction::UP),
        )
    }
}

/// The largest energy of the first `upto` beams, 0 for none.
pub open spec fn best_energy(grid: Seq<Vec<Tile>>, beams: Seq<Beam>, upto: int) -> nat
    decreases upto,
{
    if upto <= 0 || upto > beams.len() {
        0
    } else {
        let before = best_energy(grid, beams, upto - 1);
        let here = energy(grid, beams[upto - 1]);
        if here > before {
            here
        } else {
            before
        }
    }
}

/// The number of tiles that the beam lights which enters at the top left
/// moving right, and the largest number of tiles that one of the beams
/// lights that enter from an edge. There is no answer for a grid without
/// rows, or one of `i32::MAX` rows or columns or more.
pub fn solve(lines: &Vec<String>) -> (answers: Option<(u128, u128)>)
    ensures
        match answers {
            Some((one, best)) => exists|grid: Seq<Vec<Tile>>|
                {
                    &&& #[trigger] is_dark(texts(lines@), grid)
                    &&& lines@.len() > 0
                    &&& one == energy(grid, (0, 0, Direction::RIGHT))
                    &&& best == best_energy(
                        grid,
                        entries(
                            lines@.len() as int,
                            lines@[0]@.len() as int,
                            (lines@.len() + lines@[0]@.len()) as int,
                        ),
                        (2 * (lines@.len() + lines@[0]@.len())) as int,
                    )
                },
            None => lines@.len() == 0 || lines@.len() >= i32::MAX || lines@[0]@.len() >= i32::MAX,
        },
{
    let grid = read_grid(lines);
    let rows = grid.len();
    if rows == 0 || rows >= 0x7fff_ffff {
        return None;
    }
    let cols = grid[0].len();
    if cols >= 0x7fff_ffff {
        return None;
    }
    assert(texts(lines@)[0] == lines@[0]@);
    let sol1 = energised_from(&grid, (0, 0), Direction::RIGHT);
    let ghost beams = entries(rows as int, cols as int, rows + cols);
    let mut sol2: u128 = 0;
    let mut i: usize = 0;
    while i < rows
        invariant
            i <= rows < 0x7fff_ffff,
            cols < 0x7fff_ffff,
            all_wf(grid@),
            rows == grid@.len(),
            entries(rows as int, cols as int, i as int).len() == 2 * i,
            sol2 == best_energy(
                grid@,
                entries(rows as int, cols as int, i as int),
                2 * i,
            ),
        decreases rows - i,
    {
        let ghost before = entries(rows as int, cols as int, i as int);
        let ghost after = entries(rows as int, cols as int, i + 1);
        proof {
            lemma_best_same(grid@, before, after, 2 * i);
        }
        let a = energised_from(&grid, (i as i32, 0), Direction::RIGHT);
        if a > sol2 {
            sol2 = a;
        }
        let b = energised_from(&grid, (i as i32, cols as i32 - 1), Direction::LEFT);
        if b > sol2 {
            sol2 = b;
        }
        proof {
            assert(after[2 * i] == (i as int, 0int, Direction::RIGHT));
            assert(after[2 * i + 1] == (i as int, cols - 1, Direction::LEFT));
            assert(best_energy(grid@, after, 2 * i + 1) == if a > best_energy(
                grid@,
                after,
                2 * i,
            ) {
                a as nat
            } else {
                best_energy(grid@, after, 2 * i)
            });
            assert(sol2 == best_energy(grid@, after, 2 * i + 2));
        }
        i += 1;
    }
    let mut j: usize = 0;
    while j < cols
        invariant
            j <= cols < 0x7fff_ffff,
            0 < rows < 0x7fff_ffff,
            all_wf(grid@),
            rows == grid@.len(),
            entries(rows as int, cols as int, rows + j).len() == 2 * (rows + j),
            sol2 == best_energy(
                grid@,
                entries(rows as int, cols as int, rows + j),
                2 * (rows + j),
            ),
        decreases cols - j,
    {
        let ghost before = entries(rows as int, cols as int, rows + j);
        let ghost after = entries(rows as int, cols as int, rows + j + 1);
        proof {
            lemma_best_same(grid@, before, after, 2 * (rows + j));
        }
        let a = energised_from(&grid, (0, j as i32), Direction::DOWN);
        if a > sol2 {
            sol2 = a;
        }
        let b = energised_from(&grid, (rows as i32 - 1, 0), Direction::UP);
        if b > sol2 {
            sol2 = b;
        }
        proof {
            let n = 2 * (rows + j);
            assert(after[n] == (0int, j as int, Direction::DOWN));
            assert(after[n + 1] == (rows - 1, 0int, Direction::UP));
            assert(best_energy(grid@, after, n + 1) == if a > best_energy(grid@, after, n) {
                a as nat
            } else {
                best_energy(grid@, after, n)
            });
            assert(sol2 == best_energy(grid@, after, n + 2));
        }
        j += 1;
    }
    Some((sol1, sol2))
}

/// The largest energy of some beams is the same among more beams.
proof fn lemma_best_same(grid: Seq<Vec<Tile>>, a: Seq<Beam>, b: Seq<Beam>, upto: int)
    requires
        0 <= upto <= a.len() <= b.len(),
        forall|i: int| 0 <= i < a.len() ==> a[i] == b[i],
    ensures
        best_energy(grid, a, upto) == best_energy(grid, b, upto),
    decreases upto,
{
    if upto > 0 {
        lemma_best_same(grid, a, b, upto - 1);
    }
}



/// A grid has no more missing marks than four to a tile, and fewer than
/// `2^67` in all.
proof fn lemma_unmarked_bound(grid: Seq<Vec<Tile>>, upto: int)
    requires
        0 <= upto <= grid.len(),
        all_wf(grid),
    ensures
        unmarked(grid, upto) <= upto * (4 * 0xffff_ffff_ffff_ffff),
    decreases upto,
{
    if upto > 0 {
        lemma_unmarked_bound(grid, upto - 1);
        lemma_unmarked_in_row_bound(grid[upto - 1]@, grid[upto - 1]@.len() as int);
        assert(grid[upto - 1]@.len() <= 0xffff_ffff_ffff_ffff) by {
            assert(grid[upto - 1].len() == grid[upto - 1]@.len());
        }
        assert((upto - 1) * (4 * 0xffff_ffff_ffff_ffff) + 4 * 0xffff_ffff_ffff_ffff == upto * (4
            * 0xffff_ffff_ffff_ffff)) by (nonlinear_arith);
    }
}

proof fn lemma_unmarked_in_row_bound(row: Seq<Tile>, upto: int)
    requires
        0 <= upto <= row.len(),
    ensures
        unmarked_in_row(row, upto) <= 4 * upto,
    decreases upto,
{
    if upto > 0 {
        lemma_unmarked_in_row_bound(row, upto - 1);
    }
}

} // verus!
