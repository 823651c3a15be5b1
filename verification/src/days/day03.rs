//! Engine schematics: the numbers beside a symbol, and the gears.
use crate::days::day11::{grid, to_grid};
use crate::text::{all_digits, digits_value, is_digit, parse_i64, texts};
use vstd::prelude::*;

verus! {

/// What a square of the schematic holds.
#[derive(Clone, Copy, Debug, PartialEq, Eq, Structural)]
pub enum PointType {
    Symbol,
    Number,
    Star,
}

/// A square that holds something. For a digit, `x` and `x_to` bound the
/// columns of the whole number that it belongs to; for a symbol both are its
/// own column. `y` is the row.
#[derive(Clone, Copy, Debug, PartialEq, Eq, Structural)]
pub struct Point {
    pub x: usize,
    pub x_to: usize,
    pub y: usize,
    pub point_type: PointType,
}

/// The column at which the digits that end just before column `x` begin.
pub open spec fn run_start(row: Seq<char>, x: int) -> int
    decreases x,
{
    if 0 < x <= row.len() && is_digit(row[x - 1]) {
        run_start(row, x - 1)
    } else {
        x
    }
}

/// The column at which the digits that begin at column `x` end.
pub open spec fn run_end(row: Seq<char>, x: int) -> int
    decreases row.len() - x,
{
    if 0 <= x < row.len() && is_digit(row[x]) {
        run_end(row, x + 1)
    } else {
        x
    }
}

/// What stands in column `x` of row `y`: for a digit its number, for a dot
/// nothing, for anything else a symbol, `*` a star.
pub open spec fn point_at(rows: Seq<Seq<char>>, x: int, y: int) -> Option<Point> {
    let c = rows[y][x];
    if is_digit(c) {
        Some(
            Point {
                x: run_start(rows[y], x) as usize,
                x_to: run_end(rows[y], x) as usize,
                y: y as usize,
                point_type: PointType::Number,
            },
        )
    } else if c == '.' {
        None
    } else {
        Some(
            Point {
                x: x as usize,
                x_to: x as usize,
                y: y as usize,
                point_type: if c == '*' {
                    PointType::Star
                } else {
                    PointType::Symbol
                },
            },
        )
    }
}

/// The squares of a layout, column by column.
pub open spec fn layout(points: Seq<Vec<Option<Point>>>) -> Seq<Seq<Option<Point>>> {
    points.map_values(|column: Vec<Option<Point>>| column@)
}

/// The most rows and the most columns that a schematic has.
pub const MAX_SIDE: usize = 0x7fff;

/// Whether a layout fits the rows of a schematic: one column for each
/// character of a row and one square for each row; each square that holds
/// something lies in its own row; a symbol lies in its own column, and a
/// number spans digits of its row, the square's column among them.
pub open spec fn laid_out(points: Seq<Seq<Option<Point>>>, rows: Seq<Seq<char>>) -> bool {
    &&& points.len() <= MAX_SIDE
    &&& rows.len() <= MAX_SIDE
    &&& forall|x: int| 0 <= x < points.len() ==> (#[trigger] points[x]).len() == rows.len()
    &&& forall|y: int| 0 <= y < rows.len() ==> (#[trigger] rows[y]).len() == points.len()
    &&& forall|x: int, y: int|
        0 <= x < points.len() && 0 <= y < rows.len() ==> match #[trigger] points[x][y] {
            Some(p) => p.y == y && if p.point_type == PointType::Number {
                p.x <= x < p.x_to <= points.len() && all_digits(
                    rows[y].subrange(p.x as int, p.x_to as int),
                )
            } else {
                p.x == x
            },
            None => true,
        }
}

/// Whether the schematic can be laid out: it has a row, its rows are of one
/// length, and neither side is longer than `MAX_SIDE`.
pub open spec fn regular(rows: Seq<Seq<char>>) -> bool {
    &&& 0 < rows.len() <= MAX_SIDE
    &&& rows[0].len() <= MAX_SIDE
    &&& forall|y: int| 0 <= y < rows.len() ==> (#[trigger] rows[y]).len() == rows[0].len()
}

/// Digits from column `s` up to column `k`, with none before them, begin at `s`.
pub proof fn lemma_run_start(row: Seq<char>, s: int, k: int)
    requires
        0 <= s <= k <= row.len(),
        forall|j: int| s <= j < k ==> is_digit(#[trigger] row[j]),
        s == 0 || !is_digit(row[s - 1]),
    ensures
        run_start(row, k) == s,
    decreases k - s,
{
    if s < k {
        lemma_run_start(row, s, k - 1);
    }
}

/// Digits from column `k` up to column `e`, with none behind them, end at `e`.
pub proof fn lemma_run_end(row: Seq<char>, k: int, e: int)
    requires
        0 <= k <= e <= row.len(),
        forall|j: int| k <= j < e ==> is_digit(#[trigger] row[j]),
        e == row.len() || !is_digit(row[e]),
    ensures
        run_end(row, k) == e,
    decreases e - k,
{
    if k < e {
        lemma_run_end(row, k + 1, e);
    }
}

/// Whether a character is one of the ten digits.
pub fn digit(c: char) -> (yes: bool)
    ensures
        yes == is_digit(c),
{
    let n = c as u32;
    48 <= n && n <= 57
}

/// A column of `height` squares that hold nothing.
fn blank_column(height: usize) -> (column: Vec<Option<Point>>)
    ensures
        column@.len() == height,
        forall|y: int| 0 <= y < height ==> (#[trigger] column@[y]) is None,
{
    let mut column: Vec<Option<Point>> = Vec::new();
    let mut y: usize = 0;
    while y < height
        invariant
            y <= height,
            column@.len() == y,
            forall|j: int| 0 <= j < y ==> (#[trigger] column@[j]) is None,
        decreases height - y,
    {
        column.push(None);
        y += 1;
    }
    column
}

/// Lays the schematic out, column by column: `points[x][y]` is what stands
/// in column `x` of row `y`. A schematic that is not regular has no layout.
pub fn generate_points(rows: &Vec<Vec<char>>) -> (points: Option<Vec<Vec<Option<Point>>>>)
    ensures
        points is Some <==> regular(grid(rows@)),
        points matches Some(p) ==> {
            &&& laid_out(layout(p@), grid(rows@))
            &&& p@.len() == grid(rows@)[0].len()
            &&& forall|x: int, y: int|
                0 <= x < p@.len() && 0 <= y < rows@.len() ==> (#[trigger] p@[x]@[y]) == point_at(
                    grid(rows@),
                    x,
                    y,
                )
        },
{
    let ghost g = grid(rows@);
    let height = rows.len();
    if height == 0 || height > MAX_SIDE {
        return None;
    }
    assert(g[0] == rows@[0]@);
    let width = rows[0].len();
    if width > MAX_SIDE {
        return None;
    }
    let mut points: Vec<Vec<Option<Point>>> = Vec::new();
    let mut x: usize = 0;
    while x < width
        invariant
            x <= width,
            points@.len() == x,
            forall|i: int| 0 <= i < x ==> (#[trigger] points@[i])@.len() == height,
        decreases width - x,
    {
        let column = blank_column(height);
        points.push(column);
        x += 1;
    }
    let mut y: usize = 0;
    while y < height
        invariant
            y <= height,
            height == rows@.len(),
            0 < height <= MAX_SIDE,
            width <= MAX_SIDE,
            g == grid(rows@),
            width == g[0].len(),
            points@.len() == width,
            forall|i: int| 0 <= i < width ==> (#[trigger] points@[i])@.len() == height,
            forall|j: int| 0 <= j < y ==> (#[trigger] g[j]).len() == width,
            forall|i: int, j: int|
                0 <= i < width && 0 <= j < y ==> (#[trigger] points@[i]@[j]) == point_at(g, i, j),
        decreases height - y,
    {
        assert(g[y as int] == rows@[y as int]@);
        let row = &rows[y];
        if row.len() != width {
            return None;
        }
        let mut x: usize = 0;
        while x < width
            invariant
                x <= width,
                y < height,
                height == rows@.len(),
                g == grid(rows@),
                row@ == g[y as int],
                row@.len() == width,
                points@.len() == width,
                x == 0 || x == width || !is_digit(row@[x - 1]) || !is_digit(row@[x as int]),
                forall|i: int| 0 <= i < width ==> (#[trigger] points@[i])@.len() == height,
                forall|i: int, j: int|
                    0 <= i < width && 0 <= j < y ==> (#[trigger] points@[i]@[j]) == point_at(
                        g,
                        i,
                        j,
                    ),
                forall|i: int| 0 <= i < x ==> (#[trigger] points@[i])@[y as int] == point_at(g, i, y as int),
            decreases width - x,
        {
            let c = row[x];
            if digit(c) {
                let mut end: usize = x + 1;
                while end < width && digit(row[end])
                    invariant
                        x < end <= width,
                        row@.len() == width,
                        forall|j: int| x <= j < end ==> is_digit(#[trigger] row@[j]),
                    decreases width - end,
                {
                    end += 1;
                }
                let number = Point { x, x_to: end, y, point_type: PointType::Number };
                let mut k: usize = x;
                while k < end
                    invariant
                        x <= k <= end <= width,
                        y < height,
                        row@ == g[y as int],
                        row@.len() == width,
                        points@.len() == width,
                        number == (Point { x, x_to: end, y, point_type: PointType::Number }),
                        x == 0 || !is_digit(row@[x - 1]),
                        end == width || !is_digit(row@[end as int]),
                        forall|j: int| x <= j < end ==> is_digit(#[trigger] row@[j]),
                        forall|i: int| 0 <= i < width ==> (#[trigger] points@[i])@.len() == height,
                        forall|i: int, j: int|
                            0 <= i < width && 0 <= j < y ==> (#[trigger] points@[i]@[j])
                                == point_at(g, i, j),
                        forall|i: int|
                            0 <= i < k ==> (#[trigger] points@[i])@[y as int] == point_at(
                                g,
                                i,
                                y as int,
                            ),
                    decreases end - k,
                {
                    proof {
                        lemma_run_start(row@, x as int, k as int);
                        lemma_run_end(row@, k as int, end as int);
                    }
                    points[k].set(y, Some(number));
                    k += 1;
                }
                x = end;
            } else {
                let found = if c == '.' {
                    None
                } else {
                    Some(
                        Point {
                            x,
                            x_to: x,
                            y,
                            point_type: if c == '*' {
                                PointType::Star
                            } else {
                                PointType::Symbol
                            },
                        },
                    )
                };
                points[x].set(y, found);
                x += 1;
            }
        }
        y += 1;
    }
    proof {
        let p = layout(points@);
        assert forall|x: int, y: int| 0 <= x < p.len() && 0 <= y < g.len() implies match #[trigger] p[x][y] {
            Some(q) => q.y == y && if q.point_type == PointType::Number {
                q.x <= x < q.x_to <= p.len() && all_digits(g[y].subrange(q.x as int, q.x_to as int))
            } else {
                q.x == x
            },
            None => true,
        } by {
            assert(p[x][y] == points@[x]@[y]);
            assert(points@[x]@[y] == point_at(g, x, y));
            if is_digit(g[y][x]) {
                lemma_run_bounds(g[y], x);
            }
        }
        assert forall|x: int| 0 <= x < p.len() implies (#[trigger] p[x]).len() == g.len() by {
            assert(p[x] == points@[x]@);
        }
    }
    Some(points)
}

/// The digits round a digit in column `x` begin at or before it, end behind
/// it, and are digits throughout.
pub proof fn lemma_run_bounds(row: Seq<char>, x: int)
    requires
        0 <= x < row.len(),
        is_digit(row[x]),
    ensures
        0 <= run_start(row, x) <= x < run_end(row, x) <= row.len(),
        all_digits(row.subrange(run_start(row, x), run_end(row, x))),
{
    lemma_run_left(row, x);
    lemma_run_right(row, x);
    let s = run_start(row, x);
    let e = run_end(row, x);
    assert forall|i: int| 0 <= i < e - s implies is_digit(#[trigger] row.subrange(s, e)[i]) by {}
}

pub proof fn lemma_run_left(row: Seq<char>, x: int)
    requires
        0 <= x <= row.len(),
    ensures
        0 <= run_start(row, x) <= x,
        forall|j: int| run_start(row, x) <= j < x ==> is_digit(#[trigger] row[j]),
    decreases x,
{
    if 0 < x && is_digit(row[x - 1]) {
        lemma_run_left(row, x - 1);
    }
}

pub proof fn lemma_run_right(row: Seq<char>, x: int)
    requires
        0 <= x <= row.len(),
    ensures
        x <= run_end(row, x) <= row.len(),
        x < row.len() && is_digit(row[x]) ==> x < run_end(row, x),
        forall|j: int| x <= j < run_end(row, x) ==> is_digit(#[trigger] row[j]),
    decreases row.len() - x,
{
    if x < row.len() && is_digit(row[x]) {
        lemma_run_right(row, x + 1);
    }
}

/// The squares that are marked, as column and row.
pub open spec fn marks(seen: Seq<Vec<bool>>) -> Set<(int, int)> {
    Set::new(
        |c: (int, int)| 0 <= c.0 < seen.len() && 0 <= c.1 < seen[c.0]@.len() && seen[c.0]@[c.1],
    )
}

/// Whether `seen` has a mark for each square of the layout.
pub open spec fn covers(seen: Seq<Vec<bool>>, points: Seq<Seq<Option<Point>>>) -> bool {
    &&& seen.len() == points.len()
    &&& forall|x: int| 0 <= x < seen.len() ==> (#[trigger] seen[x])@.len() == points[x].len()
}

/// Whether all eight neighbours of the square lie in the layout.
pub open spec fn inner(points: Seq<Seq<Option<Point>>>, el: Point) -> bool {
    1 <= el.x && el.x + 1 < points.len() && 1 <= el.y && el.y + 1 < points[0].len()
}

/// The number that the digits of a number's square spell, where it fits in
/// 32 bits.
pub open spec fn value_of(rows: Seq<Seq<char>>, p: Point) -> Option<u32> {
    let v = digits_value(rows[p.y as int].subrange(p.x as int, p.x_to as int));
    if v <= u32::MAX {
        Some(v as u32)
    } else {
        None
    }
}

/// What looking at one neighbour of a symbol finds, and which numbers are
/// marked after it. The neighbour lies `dy` rows and `dx` columns from the
/// symbol. A number that is not yet marked is marked, and found where its
/// value fits; anything else changes nothing.
pub open spec fn looked(
    points: Seq<Seq<Option<Point>>>,
    rows: Seq<Seq<char>>,
    seen: Set<(int, int)>,
    el: Point,
    dy: int,
    dx: int,
) -> (Set<(int, int)>, Option<u32>) {
    match points[el.x + dx][el.y + dy] {
        Some(p) => if p.point_type == PointType::Number && !seen.contains(
            (p.x as int, p.y as int),
        ) {
            (seen.insert((p.x as int, p.y as int)), value_of(rows, p))
        } else {
            (seen, None)
        },
        None => (seen, None),
    }
}

/// Looks at one neighbour of the symbol `el`.
pub fn extract_number(
    seen: &mut Vec<Vec<bool>>,
    points: &Vec<Vec<Option<Point>>>,
    el: &Point,
    rows: &Vec<Vec<char>>,
    y_offset: i16,
    x_offset: i16,
) -> (number: Option<u32>)
    requires
        laid_out(layout(points@), grid(rows@)),
        covers(old(seen)@, layout(points@)),
        inner(layout(points@), *el),
        -1 <= y_offset <= 1,
        -1 <= x_offset <= 1,
    ensures
        covers(final(seen)@, layout(points@)),
        (marks(final(seen)@), number) == looked(
            layout(points@),
            grid(rows@),
            marks(old(seen)@),
            *el,
            y_offset as int,
            x_offset as int,
        ),
{
    let ghost p = layout(points@);
    let ghost g = grid(rows@);
    let x_co: usize = (el.x as i64 + x_offset as i64) as usize;
    let y_co: usize = (el.y as i64 + y_offset as i64) as usize;
    assert(p[x_co as int] == points@[x_co as int]@);
    assert(p[0].len() == g.len());
    assert(p[x_co as int].len() == g.len());
    let ghost _hit = p[x_co as int][y_co as int];
    if let Some(point) = points[x_co][y_co] {
        if point.point_type == PointType::Number {
            assert(point.y == y_co && point.x <= x_co);
            assert(seen@[point.x as int]@.len() == p[point.x as int].len());
            assert(p[point.x as int].len() == g.len());
            if !seen[point.x][point.y] {
                assert(g[y_co as int] == rows@[y_co as int]@);
                let number = parse_i64(&rows[y_co], point.x, point.x_to);
                let ghost before = seen@;
                seen[point.x].set(point.y, true);
                proof {
                    assert(marks(seen@) =~= marks(before).insert(
                        (point.x as int, point.y as int),
                    )) by {
                        assert forall|c: (int, int)|
                            marks(seen@).contains(c) <==> marks(before).insert(
                                (point.x as int, point.y as int),
                            ).contains(c) by {
                            if 0 <= c.0 < before.len() && c.0 != point.x {
                                assert(seen@[c.0] == before[c.0]);
                            }
                        }
                    }
                    crate::text::lemma_digits_nonnegative(
                        g[y_co as int].subrange(point.x as int, point.x_to as int),
                    );
                }
                return match number {
                    Some(v) => if v <= 0xffff_ffff {
                        Some(v as u32)
                    } else {
                        None
                    },
                    None => None,
                };
            }
        }
    }
    assert(marks(seen@) =~= marks(old(seen)@));
    None
}

/// The row and column steps to the eight neighbours, in the order in which
/// they are looked at.
pub open spec fn offset(k: int) -> (int, int) {
    if k == 0 {
        (-1, -1)
    } else if k == 1 {
        (-1, 0)
    } else if k == 2 {
        (-1, 1)
    } else if k == 3 {
        (0, -1)
    } else if k == 4 {
        (0, 1)
    } else if k == 5 {
        (1, -1)
    } else if k == 6 {
        (1, 0)
    } else {
        (1, 1)
    }
}

/// The steps to the `k`th neighbour.
pub fn neighbour(k: usize) -> (step: (i16, i16))
    ensures
        (step.0 as int, step.1 as int) == offset(k as int),
{
    if k == 0 {
        (-1, -1)
    } else if k == 1 {
        (-1, 0)
    } else if k == 2 {
        (-1, 1)
    } else if k == 3 {
        (0, -1)
    } else if k == 4 {
        (0, 1)
    } else if k == 5 {
        (1, -1)
    } else if k == 6 {
        (1, 0)
    } else {
        (1, 1)
    }
}

/// The marks, and the numbers found, after a symbol has looked at its first
/// `k` neighbours.
pub open spec fn probed(
    points: Seq<Seq<Option<Point>>>,
    rows: Seq<Seq<char>>,
    seen: Set<(int, int)>,
    el: Point,
    k: int,
) -> (Set<(int, int)>, Seq<u32>)
    decreases k,
{
    if k <= 0 {
        (seen, Seq::empty())
    } else {
        let before = probed(points, rows, seen, el, k - 1);
        let now = looked(points, rows, before.0, el, offset(k - 1).0, offset(k - 1).1);
        (
            now.0,
            match now.1 {
                Some(v) => before.1.push(v),
                None => before.1,
            },
        )
    }
}

/// The sum of some numbers.
pub open spec fn sum(found: Seq<u32>) -> int
    decreases found.len(),
{
    if found.len() == 0 {
        0
    } else {
        sum(found.drop_last()) + found.last()
    }
}

/// What a sweep over the schematic has gathered: the numbers that are
/// marked, the sum of the part numbers, and the sum of the gear ratios.
pub ghost struct Sums {
    pub seen: Set<(int, int)>,
    pub parts: int,
    pub gears: int,
}

/// Whether the square holds a symbol, a star among them.
pub open spec fn is_symbol(at: Option<Point>) -> bool {
    at matches Some(p) && p.point_type != PointType::Number
}

/// The sums after the square in column `x` and row `y` has had its turn. A
/// symbol adds the numbers that it finds to the part numbers; a star that
/// finds exactly two adds their product to the gear ratios.
pub open spec fn visited(
    points: Seq<Seq<Option<Point>>>,
    rows: Seq<Seq<char>>,
    sums: Sums,
    x: int,
    y: int,
) -> Sums {
    if is_symbol(points[x][y]) {
        let el = points[x][y]->Some_0;
        let p = probed(points, rows, sums.seen, el, 8);
        Sums {
            seen: p.0,
            parts: sums.parts + sum(p.1),
            gears: sums.gears + if el.point_type == PointType::Star && p.1.len() == 2 {
                p.1[0] * p.1[1]
            } else {
                0
            },
        }
    } else {
        sums
    }
}

/// The sums after every column before `x`, and the first `y` rows of column
/// `x`, have had their turn.
pub open spec fn swept(
    points: Seq<Seq<Option<Point>>>,
    rows: Seq<Seq<char>>,
    x: int,
    y: int,
) -> Sums
    decreases x, y,
{
    if y <= 0 {
        if x <= 0 {
            Sums { seen: Set::empty(), parts: 0, gears: 0 }
        } else {
            swept(points, rows, x - 1, rows.len() as int)
        }
    } else {
        visited(points, rows, swept(points, rows, x, y - 1), x, y - 1)
    }
}

/// Whether some symbol lacks a neighbour: it stands on the rim.
pub open spec fn exposed(points: Seq<Seq<Option<Point>>>) -> bool {
    exists|x: int, y: int|
        0 <= x < points.len() && 0 <= y < points[x].len() && is_symbol(#[trigger] points[x][y])
            && !inner(points, points[x][y]->Some_0)
}

/// Sweeps the layout column by column, each column from its first row, and
/// returns the sum of the part numbers and the sum of the gear ratios.
/// `None` where a symbol stands on the rim.
pub fn sum_engine_parts(points: &Vec<Vec<Option<Point>>>, rows: &Vec<Vec<char>>) -> (sums: Option<
    (u128, u128),
>)
    requires
        laid_out(layout(points@), grid(rows@)),
    ensures
        sums is None <==> exposed(layout(points@)),
        sums matches Some(s) ==> {
            let all = swept(layout(points@), grid(rows@), points@.len() as int, 0);
            s.0 == all.parts && s.1 == all.gears
        },
{
    let ghost p = layout(points@);
    let ghost g = grid(rows@);
    let width = points.len();
    let height = rows.len();
    let mut seen: Vec<Vec<bool>> = Vec::new();
    let mut x: usize = 0;
    while x < width
        invariant
            x <= width,
            width == points@.len(),
            height == rows@.len(),
            seen@.len() == x,
            forall|i: int| 0 <= i < x ==> (#[trigger] seen@[i])@.len() == height,
            forall|i: int, j: int| 0 <= i < x && 0 <= j < height ==> !(#[trigger] seen@[i]@[j]),
        decreases width - x,
    {
        let mut column: Vec<bool> = Vec::new();
        let mut y: usize = 0;
        while y < height
            invariant
                y <= height,
                column@.len() == y,
                forall|j: int| 0 <= j < y ==> !(#[trigger] column@[j]),
            decreases height - y,
        {
            column.push(false);
            y += 1;
        }
        seen.push(column);
        x += 1;
    }
    assert(marks(seen@) =~= Set::empty());
    assert(covers(seen@, p)) by {
        assert forall|i: int| 0 <= i < seen@.len() implies (#[trigger] seen@[i])@.len()
            == p[i].len() by {}
    }
    let mut parts: u128 = 0;
    let mut gears: u128 = 0;
    let mut x: usize = 0;
    while x < width
        invariant
            x <= width,
            width == points@.len(),
            height == rows@.len(),
            p == layout(points@),
            g == grid(rows@),
            laid_out(p, g),
            covers(seen@, p),
            marks(seen@) == swept(p, g, x as int, 0).seen,
            parts == swept(p, g, x as int, 0).parts,
            gears == swept(p, g, x as int, 0).gears,
            parts <= x * 0x8000 * 0x8_0000_0000,
            gears <= x * 0x8000 * 0x1_0000_0000_0000_0000,
            forall|i: int, j: int|
                0 <= i < x && 0 <= j < height && is_symbol(#[trigger] p[i][j]) ==> inner(
                    p,
                    p[i][j]->Some_0,
                ),
        decreases width - x,
    {
        let mut y: usize = 0;
        assert(p[x as int] == points@[x as int]@);
        while y < height
            invariant
                x < width,
                y <= height,
                width == points@.len(),
                height == rows@.len(),
                p == layout(points@),
                g == grid(rows@),
                laid_out(p, g),
                covers(seen@, p),
                marks(seen@) == swept(p, g, x as int, y as int).seen,
                parts == swept(p, g, x as int, y as int).parts,
                gears == swept(p, g, x as int, y as int).gears,
                parts <= (x * 0x8000 + y) * 0x8_0000_0000,
                gears <= (x * 0x8000 + y) * 0x1_0000_0000_0000_0000,
                forall|i: int, j: int|
                    0 <= i < x && 0 <= j < height && is_symbol(#[trigger] p[i][j]) ==> inner(
                        p,
                        p[i][j]->Some_0,
                    ),
                forall|j: int|
                    0 <= j < y && is_symbol(#[trigger] p[x as int][j]) ==> inner(
                        p,
                        p[x as int][j]->Some_0,
                    ),
            decreases height - y,
        {
            assert(p[x as int] == points@[x as int]@);
            assert(p[x as int].len() == height);
            if let Some(el) = points[x][y] {
                if el.point_type == PointType::Symbol || el.point_type == PointType::Star {
                    assert(is_symbol(p[x as int][y as int]));
                    assert(el.x == x && el.y == y);
                    assert(p[0].len() == height);
                    if x == 0 || x + 1 >= width || y == 0 || y + 1 >= height {
                        return None;
                    }
                    let ghost start = marks(seen@);
                    let mut point_vals: Vec<u32> = Vec::new();
                    let mut k: usize = 0;
                    while k < 8
                        invariant
                            k <= 8,
                            p == layout(points@),
                            g == grid(rows@),
                            laid_out(p, g),
                            covers(seen@, p),
                            inner(p, el),
                            (marks(seen@), point_vals@) == probed(p, g, start, el, k as int),
                            point_vals@.len() <= k,
                            sum(point_vals@) <= k * 0xffff_ffff,
                        decreases 8 - k,
                    {
                        let (dy, dx) = neighbour(k);
                        let ghost so_far = point_vals@;
                        let val = extract_number(&mut seen, points, &el, rows, dy, dx);
                        if let Some(num) = val {
                            point_vals.push(num);
                            assert(point_vals@.drop_last() =~= so_far);
                        }
                        k += 1;
                    }
                    if el.point_type == PointType::Star && point_vals.len() == 2 {
                        assert(point_vals@[0] * point_vals@[1] <= 0xffff_ffff * 0xffff_ffff)
                            by (nonlinear_arith)
                            requires
                                0 <= point_vals@[0] <= 0xffff_ffff,
                                0 <= point_vals@[1] <= 0xffff_ffff,
                        ;
                        gears += point_vals[0] as u128 * point_vals[1] as u128;
                    }
                    let total = total_of(&point_vals);
                    parts += total as u128;
                }
            }
            y += 1;
        }
        x += 1;
    }
    proof {
        if exposed(p) {
            let (i, j) = choose|i: int, j: int|
                0 <= i < p.len() && 0 <= j < p[i].len() && is_symbol(#[trigger] p[i][j]) && !inner(
                    p,
                    p[i][j]->Some_0,
                );
            assert(p[i].len() == height);
        }
    }
    Some((parts, gears))
}

/// Adds up at most eight numbers.
pub fn total_of(found: &Vec<u32>) -> (total: u64)
    requires
        found@.len() <= 8,
    ensures
        total == sum(found@),
{
    let mut total: u64 = 0;
    let mut i: usize = 0;
    assert(found@.take(0) =~= Seq::empty());
    while i < found.len()
        invariant
            i <= found@.len() <= 8,
            total == sum(found@.take(i as int)),
            total <= i * 0xffff_ffff,
        decreases found@.len() - i,
    {
        assert(found@.take(i + 1).drop_last() =~= found@.take(i as int));
        total += found[i] as u64;
        i += 1;
    }
    assert(found@.take(found@.len() as int) =~= found@);
    total
}

/// The sum of the part numbers of a schematic and the sum of its gear
/// ratios, where it is regular and no symbol stands on its rim.
pub open spec fn engine_sums(rows: Seq<Seq<char>>) -> Option<(int, int)> {
    let points = Seq::new(
        rows[0].len(),
        |x: int| Seq::new(rows.len(), |y: int| point_at(rows, x, y)),
    );
    if regular(rows) && !exposed(points) {
        let all = swept(points, rows, points.len() as int, 0);
        Some((all.parts, all.gears))
    } else {
        None
    }
}

/// Both sums for the lines of a schematic.
pub fn solve(lines: &Vec<String>) -> (sums: Option<(u128, u128)>)
    ensures
        match sums {
            Some(s) => engine_sums(texts(lines@)) == Some((s.0 as int, s.1 as int)),
            None => engine_sums(texts(lines@)) is None,
        },
{
    let rows = to_grid(lines);
    let points = match generate_points(&rows) {
        Some(p) => p,
        None => {
            return None;
        },
    };
    proof {
        let g = grid(rows@);
        let spec_points = Seq::new(
            g[0].len(),
            |x: int| Seq::new(g.len(), |y: int| point_at(g, x, y)),
        );
        assert(layout(points@) =~= spec_points) by {
            assert forall|x: int| 0 <= x < spec_points.len() implies #[trigger] layout(
                points@,
            )[x] =~= spec_points[x] by {
                assert(layout(points@)[x] == points@[x]@);
                assert forall|y: int| 0 <= y < g.len() implies points@[x]@[y]
                    == spec_points[x][y] by {}
            }
        }
    }
    sum_engine_parts(&points, &rows)
}

} // verus!
