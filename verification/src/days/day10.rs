//! A loop of pipes: which way each section of pipe leads.

use vstd::prelude::*;
use crate::text::{texts, to_chars};

verus! {

/// A section of pipe, by the two steps that lead out of it: from its tile by
/// `(x_from, y_from)` to one neighbour and by `(x_to, y_to)` to the other.
#[derive(Clone, Copy, Debug, PartialEq, Eq, Structural)]
pub struct PipeSection {
    pub y_from: i32,
    pub y_to: i32,
    pub x_from: i32,
    pub x_to: i32,
}

/// The section that leads out by the given steps.
pub open spec fn section(y_from: int, y_to: int, x_from: int, x_to: int) -> PipeSection {
    PipeSection {
        y_from: y_from as i32,
        y_to: y_to as i32,
        x_from: x_from as i32,
        x_to: x_to as i32,
    }
}

/// The section that a character of the map draws.
pub open spec fn section_of(value: char) -> Option<PipeSection> {
    if value == '|' {
        Some(section(-1, 1, 0, 0))
    } else if value == '-' {
        Some(section(0, 0, -1, 1))
    } else if value == 'L' {
        Some(section(-1, 0, 0, 1))
    } else if value == 'J' {
        Some(section(0, -1, -1, 0))
    } else if value == '7' {
        Some(section(1, 0, 0, -1))
    } else if value == 'F' {
        Some(section(1, 0, 0, 1))
    } else if value == 'S' {
        Some(section(0, 0, 0, 0))
    } else {
        None
    }
}

/// The section, if any, at column `x` and row `y` of a map kept by columns.
pub open spec fn section_at(grid: Seq<Seq<Option<PipeSection>>>, x: int, y: int) -> Option<
    PipeSection,
> {
    if 0 <= x < grid.len() && 0 <= y < grid[x].len() {
        grid[x][y]
    } else {
        None
    }
}

/// The contents of a map kept by columns.
pub open spec fn columns(grid: Seq<Vec<Option<PipeSection>>>) -> Seq<Seq<Option<PipeSection>>> {
    grid.map_values(|c: Vec<Option<PipeSection>>| c@)
}

impl PipeSection {
    pub fn new(y_from: i32, y_to: i32, x_from: i32, x_to: i32) -> (section: PipeSection)
        ensures
            section == (PipeSection { y_from, y_to, x_from, x_to }),
    {
        PipeSection { y_from, y_to, x_from, x_to }
    }

    /// The section that a character of the map draws, if it draws one.
    pub fn from_char(value: char) -> (section: Option<PipeSection>)
        ensures
            section == section_of(value),
    {
        if value == '|' {
            Some(PipeSection::new(-1, 1, 0, 0))
        } else if value == '-' {
            Some(PipeSection::new(0, 0, -1, 1))
        } else if value == 'L' {
            Some(PipeSection::new(-1, 0, 0, 1))
        } else if value == 'J' {
            Some(PipeSection::new(0, -1, -1, 0))
        } else if value == '7' {
            Some(PipeSection::new(1, 0, 0, -1))
        } else if value == 'F' {
            Some(PipeSection::new(1, 0, 0, 1))
        } else if value == 'S' {
            Some(PipeSection::new(0, 0, 0, 0))
        } else {
            None
        }
    }
}

/// The section at column `x_y.0` and row `x_y.1`, and `None` off the map.
pub fn get_pipe_element(grid: &Vec<Vec<Option<PipeSection>>>, x_y: (i32, i32)) -> (section: Option<
    PipeSection,
>)
    ensures
        section == section_at(columns(grid@), x_y.0 as int, x_y.1 as int),
{
    if x_y.0 < 0 || x_y.1 < 0 {
        return None;
    }
    let x = x_y.0 as usize;
    let y = x_y.1 as usize;
    if x < grid.len() {
        assert(columns(grid@)[x as int] == grid@[x as int]@);
        if y < grid[x].len() {
            return grid[x][y];
        }
    }
    None
}

/// Column `x` of the map as the first `upto` lines draw it: the section, or
/// none, at place `x` of each line that is long enough to have that place, in
/// the order of the lines.
pub open spec fn column(lines: Seq<Seq<char>>, x: int, upto: int) -> Seq<Option<PipeSection>>
    decreases upto,
{
    if upto <= 0 || upto > lines.len() {
        Seq::empty()
    } else if 0 <= x < lines[upto - 1].len() {
        column(lines, x, upto - 1).push(section_of(lines[upto - 1][x]))
    } else {
        column(lines, x, upto - 1)
    }
}

/// The length of the longest of the first `upto` lines.
pub open spec fn widest(lines: Seq<Seq<char>>, upto: int) -> int
    decreases upto,
{
    if upto <= 0 || upto > lines.len() {
        0
    } else if lines[upto - 1].len() > widest(lines, upto - 1) {
        lines[upto - 1].len() as int
    } else {
        widest(lines, upto - 1)
    }
}

/// The place of the last `S` among the first `upto` lines, as column and
/// row, and `(0, 0)` where there is none. Of a line only the first `chars`
/// characters count where it is the last of those lines.
pub open spec fn start_of(lines: Seq<Seq<char>>, upto: int, chars: int) -> (int, int)
    decreases upto, chars,
{
    if upto <= 0 || upto > lines.len() {
        (0, 0)
    } else if chars <= 0 || chars > lines[upto - 1].len() {
        if upto == 1 {
            (0, 0)
        } else {
            start_of(lines, upto - 1, lines[upto - 2].len() as int)
        }
    } else if lines[upto - 1][chars - 1] == 'S' {
        (chars - 1, upto - 1)
    } else {
        start_of(lines, upto, chars - 1)
    }
}

/// The map that the lines draw, by columns.
pub open spec fn map_of(lines: Seq<Seq<char>>) -> Seq<Seq<Option<PipeSection>>> {
    Seq::new(
        widest(lines, lines.len() as int) as nat,
        |x: int| column(lines, x, lines.len() as int),
    )
}

/// Reads the map by columns, and finds the start.
pub fn parse_grid(lines: &Vec<String>) -> (out: (Vec<Vec<Option<PipeSection>>>, (usize, usize)))
    ensures
        columns(out.0@) == map_of(texts(lines@)),
        (out.1.0 as int, out.1.1 as int) == start_place(texts(lines@)),
{
    let ghost text = texts(lines@);
    let mut map: Vec<Vec<Option<PipeSection>>> = Vec::new();
    let mut start: (usize, usize) = (0, 0);
    let mut idy: usize = 0;
    while idy < lines.len()
        invariant
            idy <= lines@.len(),
            text == texts(lines@),
            map@.len() == widest(text, idy as int),
            forall|x: int| 0 <= x < map@.len() ==> (#[trigger] map@[x])@ == column(text, x, idy as int),
            (start.0 as int, start.1 as int) == if idy == 0 {
                (0int, 0int)
            } else {
                start_of(text, idy as int, text[idy - 1].len() as int)
            },
        decreases lines@.len() - idy,
    {
        let line = to_chars(lines[idy].as_str());
        assert(text[idy as int] == line@);
        let mut idx: usize = 0;
        while idx < line.len()
            invariant
                idx <= line@.len(),
                idy < lines@.len(),
                text == texts(lines@),
                text[idy as int] == line@,
                map@.len() == if idx > widest(text, idy as int) {
                    idx as int
                } else {
                    widest(text, idy as int)
                },
                forall|x: int|
                    0 <= x < map@.len() ==> (#[trigger] map@[x])@ == if x < idx {
                        column(text, x, idy + 1)
                    } else {
                        column(text, x, idy as int)
                    },
                (start.0 as int, start.1 as int) == start_of(text, idy + 1, idx as int),
            decreases line@.len() - idx,
        {
            let c = line[idx];
            let section = PipeSection::from_char(c);
            if idx < map.len() {
                map[idx].push(section);
            } else {
                let mut fresh: Vec<Option<PipeSection>> = Vec::new();
                fresh.push(section);
                proof {
                    lemma_column_empty(text, idx as int, idy as int);
                }
                assert(fresh@ =~= column(text, idx as int, idy + 1));
                map.push(fresh);
            }
            if c == 'S' {
                start = (idx, idy);
            }
            idx += 1;
        }
        idy += 1;
    }
    assert(columns(map@) =~= map_of(text));
    assert(lines@.len() > 0 ==> text.last() == text[lines@.len() - 1]);
    (map, start)
}

/// A column beyond the width of the lines is empty.
pub proof fn lemma_column_empty(lines: Seq<Seq<char>>, x: int, upto: int)
    requires
        x >= widest(lines, upto),
        0 <= upto <= lines.len(),
    ensures
        column(lines, x, upto) == Seq::<Option<PipeSection>>::empty(),
    decreases upto,
{
    if upto > 0 {
        lemma_column_empty(lines, x, upto - 1);
    }
}

/// The four neighbours that are tried for the first step away from the
/// start, as steps by columns and rows.
pub open spec fn start_steps() -> Seq<(int, int)> {
    seq![(0, -1), (-1, 0), (1, 0), (0, 1)]
}

/// The neighbour of the start by the step `tile` leads on: it lies on the
/// map, holds a section, and that section leaves by a step whose column part
/// or whose row part is that of `tile`.
pub open spec fn leads_on(grid: Seq<Seq<Option<PipeSection>>>, start: (int, int), tile: (int, int)) -> bool {
    let x = start.0 + tile.0;
    let y = start.1 + tile.1;
    match section_at(grid, x, y) {
        Some(pipe) => x >= 0 && y >= 0 && (pipe.x_from == tile.0 || pipe.y_from == tile.1),
        None => false,
    }
}

/// The first of the four neighbours of the start that leads on, and `(0, 0)`
/// where none does.
pub open spec fn first_step(grid: Seq<Seq<Option<PipeSection>>>, start: (int, int), from: int) -> (
    int,
    int,
)
    decreases 4 - from,
{
    if from < 0 || from >= 4 {
        (0, 0)
    } else if leads_on(grid, start, start_steps()[from]) {
        (start.0 + start_steps()[from].0, start.1 + start_steps()[from].1)
    } else {
        first_step(grid, start, from + 1)
    }
}

/// The neighbour of the start at which the loop begins. The start must not
/// lie at the edge of the 32 bits.
pub fn get_pipe_start(grid: &Vec<Vec<Option<PipeSection>>>, start: (i32, i32)) -> (at: (i32, i32))
    requires
        i32::MIN < start.0 < i32::MAX,
        i32::MIN < start.1 < i32::MAX,
    ensures
        (at.0 as int, at.1 as int) == first_step(
            columns(grid@),
            (start.0 as int, start.1 as int),
            0,
        ),
{
    let tiles: [(i32, i32); 4] = [(0, -1), (-1, 0), (1, 0), (0, 1)];
    let mut k: usize = 0;
    while k < 4
        invariant
            k <= 4,
            i32::MIN < start.0 < i32::MAX,
            i32::MIN < start.1 < i32::MAX,
            tiles@.len() == 4,
            forall|i: int|
                0 <= i < 4 ==> (#[trigger] tiles@[i]).0 == start_steps()[i].0 && tiles@[i].1
                    == start_steps()[i].1,
            first_step(columns(grid@), (start.0 as int, start.1 as int), 0) == first_step(
                columns(grid@),
                (start.0 as int, start.1 as int),
                k as int,
            ),
        decreases 4 - k,
    {
        let tile = tiles[k];
        let x_try = start.0 + tile.0;
        let y_try = start.1 + tile.1;
        if x_try >= 0 && y_try >= 0 {
            match get_pipe_element(grid, (x_try, y_try)) {
                Some(pipe) => {
                    if pipe.x_from == tile.0 || pipe.y_from == tile.1 {
                        return (x_try, y_try);
                    }
                },
                None => {},
            }
        }
        k += 1;
    }
    (0, 0)
}

/// Where a walk through the pipes stands: the tile it is on and the tile it
/// came from, each as column and row.
pub struct Walk {
    pub previous: (int, int),
    pub current: (int, int),
}

/// The walk one tile further: it leaves the section it is on by the step
/// that does not lead back to where it came from. There is no way on from a
/// tile without a section, nor to a tile beyond 32 bits.
pub open spec fn walk_on(grid: Seq<Seq<Option<PipeSection>>>, w: Walk) -> Option<Walk> {
    match section_at(grid, w.current.0, w.current.1) {
        None => None,
        Some(pipe) => {
            let back = (pipe.x_from + w.current.0, pipe.y_from + w.current.1);
            let step = if w.previous == back {
                (pipe.x_to as int, pipe.y_to as int)
            } else {
                (pipe.x_from as int, pipe.y_from as int)
            };
            let next = (w.current.0 + step.0, w.current.1 + step.1);
            if i32::MIN <= next.0 <= i32::MAX && i32::MIN <= next.1 <= i32::MAX {
                Some(Walk { previous: w.current, current: next })
            } else {
                None
            }
        },
    }
}

/// The walk after `n` tiles, where there is a way on from each.
pub open spec fn walked(grid: Seq<Seq<Option<PipeSection>>>, first: Walk, n: nat) -> Option<Walk>
    decreases n,
{
    if n == 0 {
        Some(first)
    } else {
        match walked(grid, first, (n - 1) as nat) {
            Some(w) => walk_on(grid, w),
            None => None,
        }
    }
}

/// After `k` tiles the walk is on a tile other than `start`.
pub open spec fn away(grid: Seq<Seq<Option<PipeSection>>>, first: Walk, start: (int, int), k: nat) -> bool {
    match walked(grid, first, k) {
        Some(w) => w.current != start,
        None => false,
    }
}

/// The walk that starts at `start` with the step to `first` comes back to
/// `start` after `n` tiles, and not before.
pub open spec fn closes(grid: Seq<Seq<Option<PipeSection>>>, first: Walk, start: (int, int), n: nat) -> bool {
    &&& walked(grid, first, n) matches Some(w) && w.current == start
    &&& forall|k: nat| k < n ==> #[trigger] away(grid, first, start, k)
}

/// A walk that has come to an end stays there.
pub proof fn lemma_walk_ends(grid: Seq<Seq<Option<PipeSection>>>, first: Walk, k: nat, n: nat)
    requires
        walked(grid, first, k) is None,
        k <= n,
    ensures
        walked(grid, first, n) is None,
    decreases n,
{
    if k < n {
        lemma_walk_ends(grid, first, k, (n - 1) as nat);
    }
}

/// The tiles of the loop: the start, and the tile that the walk is on after
/// each of the first `n` tiles.
pub open spec fn tiles_of(grid: Seq<Seq<Option<PipeSection>>>, first: Walk, start: (int, int), n: nat) -> Seq<
    (int, int),
>
    decreases n,
{
    if n == 0 {
        seq![start, first.current]
    } else {
        match walked(grid, first, n) {
            Some(w) => tiles_of(grid, first, start, (n - 1) as nat).push(w.current),
            None => tiles_of(grid, first, start, (n - 1) as nat),
        }
    }
}

/// The character counts as a crossing of the loop for a ray that runs along
/// the upper half of a row.
pub open spec fn crosses(c: char) -> bool {
    c == 'L' || c == '|' || c == 'J' || c == 'S'
}

/// The scan of the first `chars` characters of a row: the number of
/// crossings of the loop so far, and the number of tiles that are off the
/// loop and have an odd number of crossings before them.
pub open spec fn scan_row(row: Seq<char>, y: int, tiles: Seq<(int, int)>, chars: int) -> (int, int)
    decreases chars,
{
    if chars <= 0 || chars > row.len() {
        (0, 0)
    } else {
        let (crossings, inside) = scan_row(row, y, tiles, chars - 1);
        let on_loop = tiles.contains((chars - 1, y));
        let crossings = if on_loop && crosses(row[chars - 1]) {
            crossings + 1
        } else {
            crossings
        };
        (
            crossings,
            if !on_loop && crossings % 2 != 0 {
                inside + 1
            } else {
                inside
            },
        )
    }
}

/// The number of tiles of the first `upto` rows that the loop encloses.
pub open spec fn enclosed(lines: Seq<Seq<char>>, tiles: Seq<(int, int)>, upto: int) -> int
    decreases upto,
{
    if upto <= 0 || upto > lines.len() {
        0
    } else {
        enclosed(lines, tiles, upto - 1) + scan_row(
            lines[upto - 1],
            upto - 1,
            tiles,
            lines[upto - 1].len() as int,
        ).1
    }
}

/// The tiles as integers.
pub open spec fn places(tiles: Seq<(i32, i32)>) -> Seq<(int, int)> {
    tiles.map_values(|t: (i32, i32)| (t.0 as int, t.1 as int))
}

/// Whether the tile is among the tiles.
pub fn on_loop(tiles: &Vec<(i32, i32)>, x: usize, y: usize) -> (b: bool)
    ensures
        b == places(tiles@).contains((x as int, y as int)),
{
    let mut i: usize = 0;
    while i < tiles.len()
        invariant
            i <= tiles@.len(),
            forall|j: int| 0 <= j < i ==> places(tiles@)[j] != (x as int, y as int),
        decreases tiles@.len() - i,
    {
        let t = tiles[i];
        if t.0 >= 0 && t.1 >= 0 && t.0 as usize == x && t.1 as usize == y {
            assert(places(tiles@)[i as int] == (x as int, y as int));
            return true;
        }
        assert(places(tiles@)[i as int] != (x as int, y as int));
        i += 1;
    }
    false
}

/// Counts the tiles that the loop encloses.
pub fn count_enclosed(lines: &Vec<String>, tiles: &Vec<(i32, i32)>) -> (count: u128)
    ensures
        count == enclosed(texts(lines@), places(tiles@), lines@.len() as int),
{
    let ghost text = texts(lines@);
    let ghost all = places(tiles@);
    let mut captured_points: u128 = 0;
    let mut idy: usize = 0;
    while idy < lines.len()
        invariant
            idy <= lines@.len(),
            text == texts(lines@),
            all == places(tiles@),
            captured_points == enclosed(text, all, idy as int),
            captured_points <= idy * 0x1_0000_0000_0000_0000,
        decreases lines@.len() - idy,
    {
        let line = to_chars(lines[idy].as_str());
        assert(text[idy as int] == line@);
        let mut pipe_count: usize = 0;
        let mut inside: usize = 0;
        let mut idx: usize = 0;
        while idx < line.len()
            invariant
                idx <= line@.len(),
                all == places(tiles@),
                (pipe_count as int, inside as int) == scan_row(line@, idy as int, all, idx as int),
                pipe_count <= idx,
                inside <= idx,
            decreases line@.len() - idx,
        {
            let ch = line[idx];
            let on = on_loop(tiles, idx, idy);
            if on && (ch == 'L' || ch == '|' || ch == 'J' || ch == 'S') {
                pipe_count += 1;
            }
            if !on && pipe_count % 2 != 0 {
                inside += 1;
            }
            idx += 1;
        }
        proof {
            assert((idy + 1) * 0x1_0000_0000_0000_0000 == idy * 0x1_0000_0000_0000_0000
                + 0x1_0000_0000_0000_0000) by (nonlinear_arith);
            assert(idy * 0x1_0000_0000_0000_0000 + 0x1_0000_0000_0000_0000 <= 0xffff_ffff_ffff_ffff
                * 0x1_0000_0000_0000_0000) by (nonlinear_arith)
                requires
                    idy < 0xffff_ffff_ffff_ffff,
            ;
        }
        captured_points = captured_points + inside as u128;
        idy += 1;
    }
    captured_points
}

/// What the walk through the map of the lines may give: the loop closes
/// after fewer than `limit` tiles, and the answer is half the number of its
/// tiles, rounded down, with the number of tiles that it encloses; or there
/// is no answer, because the start lies too far out, the walk comes to an
/// end, or the loop does not close in time.
pub open spec fn walk_result(lines: Seq<Seq<char>>, limit: nat, answers: Option<(u64, u128)>) -> bool {
    let grid = map_of(lines);
    let start = start_place(lines);
    let first = Walk { previous: start, current: first_step(grid, start, 0) };
    let near = start.0 < i32::MAX - 1 && start.1 < i32::MAX - 1;
    match answers {
        Some((far, inside)) => near && exists|n: nat|
            {
                &&& n < limit
                &&& #[trigger] closes(grid, first, start, n)
                &&& far == (n + 1) / 2
                &&& inside == enclosed(lines, tiles_of(grid, first, start, n), lines.len() as int)
            },
        None => !near || forall|n: nat| n < limit ==> !#[trigger] closes(grid, first, start, n),
    }
}

/// Walks the loop of pipes from the start, and returns the number of steps
/// to the tile furthest from the start with the number of tiles that the loop
/// encloses.
pub fn solve(lines: &Vec<String>, limit: usize) -> (answers: Option<(u64, u128)>)
    ensures
        walk_result(texts(lines@), limit as nat, answers),
{
    let (grid, start_at) = parse_grid(lines);
    if start_at.0 >= 0x7fff_fffe || start_at.1 >= 0x7fff_fffe {
        return None;
    }
    let start = (start_at.0 as i32, start_at.1 as i32);
    let begin = get_pipe_start(&grid, start);
    let ghost g = columns(grid@);
    let ghost s = (start.0 as int, start.1 as int);
    let ghost first = Walk { previous: s, current: (begin.0 as int, begin.1 as int) };
    let mut main_loop: Vec<(i32, i32)> = Vec::new();
    main_loop.push(start);
    main_loop.push(begin);
    assert(places(main_loop@) =~= tiles_of(g, first, s, 0));
    let mut previous = start;
    let mut current = begin;
    let mut steps: usize = 0;
    while current.0 != start.0 || current.1 != start.1
        invariant
            steps <= limit,
            g == columns(grid@),
            g == map_of(texts(lines@)),
            s == (start.0 as int, start.1 as int),
            s == start_place(texts(lines@)),
            first == (Walk { previous: s, current: first_step(g, s, 0) }),
            walked(g, first, steps as nat) == Some(
                Walk {
                    previous: (previous.0 as int, previous.1 as int),
                    current: (current.0 as int, current.1 as int),
                },
            ),
            forall|k: nat| k < steps ==> #[trigger] away(g, first, s, k),
            places(main_loop@) == tiles_of(g, first, s, steps as nat),
        decreases limit - steps,
    {
        if steps >= limit {
            assert forall|n: nat| n < limit implies !#[trigger] closes(g, first, s, n) by {
                assert(away(g, first, s, n));
            }
            return None;
        }
        let ghost here = Walk {
            previous: (previous.0 as int, previous.1 as int),
            current: (current.0 as int, current.1 as int),
        };
        let pipe = match get_pipe_element(&grid, current) {
            Some(pipe) => pipe,
            None => {
                proof {
                    lemma_stuck(g, first, s, steps as nat, limit as nat);
                }
                return None;
            },
        };
        let back_x = pipe.x_from as i64 + current.0 as i64;
        let back_y = pipe.y_from as i64 + current.1 as i64;
        let (x_offset, y_offset) = if previous.0 as i64 == back_x && previous.1 as i64 == back_y {
            (pipe.x_to, pipe.y_to)
        } else {
            (pipe.x_from, pipe.y_from)
        };
        let next = match (current.0.checked_add(x_offset), current.1.checked_add(y_offset)) {
            (Some(x), Some(y)) => (x, y),
            _ => {
                proof {
                    lemma_stuck(g, first, s, steps as nat, limit as nat);
                }
                return None;
            },
        };
        let ghost tiles = places(main_loop@);
        previous = current;
        current = next;
        main_loop.push(current);
        assert(places(main_loop@) =~= tiles.push((current.0 as int, current.1 as int)));
        steps += 1;
    }
    if steps >= limit {
        assert forall|n: nat| n < limit implies !#[trigger] closes(g, first, s, n) by {
            assert(away(g, first, s, n));
        }
        return None;
    }
    let inside = count_enclosed(lines, &main_loop);
    assert(closes(g, first, s, steps as nat));
    Some((((steps as u64) + 1) / 2, inside))
}

/// A walk that is away from the start after every tile up to the `k`th and
/// has no way on from there never closes.
pub proof fn lemma_stuck(grid: Seq<Seq<Option<PipeSection>>>, first: Walk, start: (int, int), k: nat, limit: nat)
    requires
        forall|i: nat| i < k ==> #[trigger] away(grid, first, start, i),
        away(grid, first, start, k),
        walked(grid, first, k + 1) is None,
    ensures
        forall|n: nat| n < limit ==> !#[trigger] closes(grid, first, start, n),
{
    assert forall|n: nat| n < limit implies !#[trigger] closes(grid, first, start, n) by {
        if n <= k {
            assert(away(grid, first, start, n));
        } else {
            lemma_walk_ends(grid, first, k + 1, n);
        }
    }
}

/// The place of the last `S` of the lines, and `(0, 0)` where there is none.
pub open spec fn start_place(lines: Seq<Seq<char>>) -> (int, int) {
    if lines.len() == 0 {
        (0, 0)
    } else {
        start_of(lines, lines.len() as int, lines.last().len() as int)
    }
}

} // verus!
