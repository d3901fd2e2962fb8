use vstd::prelude::*;

verus! {

/// The integer coordinate of a grid cell.
///
/// Coordinates are signed, so a cell may lie outside any particular grid;
/// whoever reads or writes a grid checks the bounds.
#[derive(Debug, Clone, Copy, PartialEq, Eq, Hash, Structural)]
pub struct GridIndex {
    pub x: i32,
    pub y: i32,
}

impl GridIndex {
    pub fn new(x: i32, y: i32) -> (index: Self)
        ensures
            index.x == x,
            index.y == y,
    {
        Self { x, y }
    }
}

/// The distance between two coordinates along one axis.
pub open spec fn span(from: int, to: int) -> int {
    if from < to {
        to - from
    } else {
        from - to
    }
}

/// The coordinate reached after `steps` unit steps from `from` in the
/// direction of `to`.
pub open spec fn advance(from: int, to: int, steps: int) -> int {
    if from < to {
        from + steps
    } else {
        from - steps
    }
}

/// How far a line has moved along its shorter axis once it has moved `k`
/// cells along its longer one: `k * minor / major` rounded to the nearest
/// integer, a half rounding towards the start.
#[verifier::opaque]
pub open spec fn minor_progress(k: int, major: int, minor: int) -> int {
    if major > 0 {
        (2 * (k * minor) + major - 1) / (2 * major)
    } else {
        0
    }
}

/// The number of cells on the line from `start` to `end`, both included.
pub open spec fn line_len(start: GridIndex, end: GridIndex) -> int {
    let dx = span(start.x as int, end.x as int);
    let dy = span(start.y as int, end.y as int);
    if dx >= dy {
        dx + 1
    } else {
        dy + 1
    }
}

/// The x coordinate of the `k`-th cell on the line from `start` to `end`.
pub open spec fn line_x(start: GridIndex, end: GridIndex, k: int) -> int {
    let dx = span(start.x as int, end.x as int);
    let dy = span(start.y as int, end.y as int);
    advance(
        start.x as int,
        end.x as int,
        if dx >= dy {
            k
        } else {
            minor_progress(k, dy, dx)
        },
    )
}

/// The y coordinate of the `k`-th cell on the line from `start` to `end`.
pub open spec fn line_y(start: GridIndex, end: GridIndex, k: int) -> int {
    let dx = span(start.x as int, end.x as int);
    let dy = span(start.y as int, end.y as int);
    advance(
        start.y as int,
        end.y as int,
        if dx >= dy {
            minor_progress(k, dx, dy)
        } else {
            k
        },
    )
}

/// The `k`-th cell on the line from `start` to `end`: one cell further
/// along the longer axis for each `k`, and as far along the shorter axis as
/// the slope has carried the line by then.
pub open spec fn line_cell(start: GridIndex, end: GridIndex, k: int) -> GridIndex {
    GridIndex { x: line_x(start, end, k) as i32, y: line_y(start, end, k) as i32 }
}

/// The cells on the line from `start` to `end`, in order.
pub open spec fn line_cells(start: GridIndex, end: GridIndex) -> Seq<GridIndex> {
    Seq::new(line_len(start, end) as nat, |k: int| line_cell(start, end, k))
}

/// Two cells that touch by a side or a corner, or coincide.
pub open spec fn adjacent(a: GridIndex, b: GridIndex) -> bool {
    &&& span(a.x as int, b.x as int) <= 1
    &&& span(a.y as int, b.y as int) <= 1
}

/// The progress along the shorter axis is the one integer `m` for which
/// `k * minor / major` lies in the half-open interval from `m - 1/2` to
/// `m + 1/2`, the upper end included.
pub proof fn lemma_minor_progress_is(k: int, major: int, minor: int, m: int)
    requires
        major > 0,
        2 * (m * major) <= 2 * (k * minor) + major - 1,
        2 * (k * minor) + major - 1 < 2 * (m * major) + 2 * major,
    ensures
        minor_progress(k, major, minor) == m,
{
    reveal(minor_progress);
    let n = 2 * (k * minor) + major - 1;
    let d = 2 * major;
    assert(m * d == 2 * (m * major)) by (nonlinear_arith)
        requires
            d == 2 * major,
    ;
    vstd::arithmetic::div_mod::lemma_fundamental_div_mod_converse(n, d, m, n - m * d);
}

/// With every step along x taken and some along y still to come, the error
/// term forbids a further step along x.
proof fn lemma_no_overshoot_x(dx: int, dy: int, b: int, err: int)
    requires
        0 <= dx,
        0 <= b < dy,
        err == dx - dy - dx * dy + b * dx,
    ensures
        2 * err <= -dy,
{
    assert(dx * (b + 1 - dy) <= 0) by (nonlinear_arith)
        requires
            0 <= dx,
            b + 1 - dy <= 0,
    ;
    assert(dx * (b + 1 - dy) == b * dx + dx - dx * dy) by (nonlinear_arith);
}

/// With every step along y taken and some along x still to come, the error
/// term forbids a further step along y.
proof fn lemma_no_overshoot_y(dx: int, dy: int, a: int, err: int)
    requires
        0 <= dy,
        0 <= a < dx,
        err == dx - dy - a * dy + dy * dx,
    ensures
        2 * err >= dx,
{
    assert(dy * (dx - a - 1) >= 0) by (nonlinear_arith)
        requires
            0 <= dy,
            dx - a - 1 >= 0,
    ;
    assert(dy * (dx - a - 1) == dy * dx - a * dy - dy) by (nonlinear_arith);
}

/// The multiples of the divisor that enclose the dividend of
/// `minor_progress`.
proof fn lemma_minor_progress_encloses(k: int, major: int, minor: int)
    requires
        major > 0,
    ensures
        2 * (minor_progress(k, major, minor) * major) <= 2 * (k * minor) + major - 1,
        2 * (k * minor) + major - 1 < 2 * (minor_progress(k, major, minor) * major) + 2 * major,
{
    reveal(minor_progress);
    let n = 2 * (k * minor) + major - 1;
    let d = 2 * major;
    let q = n / d;
    vstd::arithmetic::div_mod::lemma_fundamental_div_mod(n, d);
    vstd::arithmetic::div_mod::lemma_mod_bound(n, d);
    assert(d * q == 2 * (q * major)) by (nonlinear_arith)
        requires
            d == 2 * major,
    ;
}

/// Along the shorter axis a line never runs ahead of its end.
pub proof fn lemma_minor_progress_in_range(k: int, major: int, minor: int)
    requires
        0 <= k <= major,
        0 <= minor <= major,
    ensures
        0 <= minor_progress(k, major, minor) <= minor,
        minor_progress(0, major, minor) == 0,
        minor_progress(major, major, minor) == minor,
{
    if major > 0 {
        let q = minor_progress(k, major, minor);
        lemma_minor_progress_encloses(k, major, minor);
        assert(0 <= k * minor <= major * minor) by (nonlinear_arith)
            requires
                0 <= k <= major,
                0 <= minor,
        ;
        assert(q >= 0) by (nonlinear_arith)
            requires
                0 < 2 * (q * major) + 2 * major,
                major > 0,
        ;
        assert(q <= minor) by (nonlinear_arith)
            requires
                2 * (q * major) <= 2 * (major * minor) + major - 1,
                major > 0,
        ;
        assert(0 * minor == 0) by (nonlinear_arith);
        lemma_minor_progress_is(0, major, minor, 0);
        assert(major * minor == minor * major) by (nonlinear_arith);
        lemma_minor_progress_is(major, major, minor, minor);
    } else {
        reveal(minor_progress);
    }
}

/// One cell further along the longer axis, a line is in the same cell or
/// in the next along the shorter one.
pub proof fn lemma_minor_progress_step(k: int, major: int, minor: int)
    requires
        0 <= minor <= major,
    ensures
        minor_progress(k, major, minor) <= minor_progress(k + 1, major, minor)
            <= minor_progress(k, major, minor) + 1,
{
    if major > 0 {
        let q = minor_progress(k, major, minor);
        lemma_minor_progress_encloses(k, major, minor);
        assert((k + 1) * minor == k * minor + minor) by (nonlinear_arith);
        assert((q + 1) * major == q * major + major) by (nonlinear_arith);
        if 2 * ((k + 1) * minor) + major - 1 < 2 * (q * major) + 2 * major {
            lemma_minor_progress_is(k + 1, major, minor, q);
        } else {
            lemma_minor_progress_is(k + 1, major, minor, q + 1);
        }
    } else {
        reveal(minor_progress);
    }
}

/// A line starts in the cell it was drawn from and ends in the cell it was
/// drawn to.
pub proof fn lemma_line_ends(start: GridIndex, end: GridIndex)
    ensures
        line_cell(start, end, 0) == start,
        line_cell(start, end, line_len(start, end) - 1) == end,
{
    let dx = span(start.x as int, end.x as int);
    let dy = span(start.y as int, end.y as int);
    if dx >= dy {
        lemma_minor_progress_in_range(0, dx, dy);
    } else {
        lemma_minor_progress_in_range(0, dy, dx);
    }
}

/// Each cell of a line touches the one after it, by a side or by a corner.
pub proof fn lemma_line_connected(start: GridIndex, end: GridIndex, k: int)
    requires
        0 <= k < line_len(start, end) - 1,
    ensures
        adjacent(line_cell(start, end, k), line_cell(start, end, k + 1)),
        line_cell(start, end, k) != line_cell(start, end, k + 1),
{
    let dx = span(start.x as int, end.x as int);
    let dy = span(start.y as int, end.y as int);
    if dx >= dy {
        lemma_minor_progress_in_range(k, dx, dy);
        lemma_minor_progress_in_range(k + 1, dx, dy);
        lemma_minor_progress_step(k, dx, dy);
    } else {
        lemma_minor_progress_in_range(k, dy, dx);
        lemma_minor_progress_in_range(k + 1, dy, dx);
        lemma_minor_progress_step(k, dy, dx);
    }
}

/// No cell occurs twice on a line: each element lies one cell further along
/// the longer axis than the one before it.
pub proof fn lemma_line_cells_distinct(start: GridIndex, end: GridIndex, i: int, j: int)
    requires
        0 <= i < line_len(start, end),
        0 <= j < line_len(start, end),
        i != j,
    ensures
        line_cell(start, end, i) != line_cell(start, end, j),
{
}

/// The error term written out: where the line stands after `a` steps along
/// x and `b` steps along y.
#[verifier::opaque]
spec fn error_is(dx: int, dy: int, a: int, b: int, err: int) -> bool {
    err == dx - dy - a * dy + b * dx
}

/// What the traversal keeps true of its counters and its error term.
#[verifier::opaque]
spec fn in_step(dx: int, dy: int, a: int, b: int, err: int) -> bool {
    &&& 0 <= a <= dx
    &&& 0 <= b <= dy
    &&& -2 * dy <= err <= 2 * dx
    &&& (dx == dy ==> err == 0)
    &&& (dx >= dy && dx > 0 ==> dx - 2 * dy <= 2 * err <= 3 * dx - 2 * dy - 1)
    &&& (dx < dy ==> 2 * dx - 3 * dy + 1 <= 2 * err <= 2 * dx - dy)
}

/// Whether `a` steps along x and `b` along y lead to the `k`-th cell of a
/// line that spans `dx` by `dy` cells.
spec fn at_cell(dx: int, dy: int, k: int, a: int, b: int) -> bool {
    &&& 0 <= a <= dx
    &&& 0 <= b <= dy
    &&& dx >= dy ==> a == k && b == minor_progress(k, dx, dy)
    &&& dx < dy ==> b == k && a == minor_progress(k, dy, dx)
}

proof fn lemma_first_cell(dx: int, dy: int)
    requires
        0 <= dx,
        0 <= dy,
    ensures
        in_step(dx, dy, 0, 0, dx - dy),
        error_is(dx, dy, 0, 0, dx - dy),
        at_cell(dx, dy, 0, 0, 0),
{
    reveal(error_is);
    reveal(in_step);
    assert(0 * dy == 0 && 0 * dx == 0) by (nonlinear_arith);
    if dx > 0 {
        lemma_minor_progress_is(0, dx, dy, 0);
    } else {
        reveal(minor_progress);
    }
    if dy > 0 {
        lemma_minor_progress_is(0, dy, dx, 0);
    } else {
        reveal(minor_progress);
    }
}

/// One round of the traversal: it never steps past the end, always steps
/// along the longer axis, and leaves the shorter axis where the slope puts it.
proof fn lemma_next_cell(
    dx: int,
    dy: int,
    k: int,
    a: int,
    b: int,
    err: int,
    a2: int,
    b2: int,
    err2: int,
)
    requires
        in_step(dx, dy, a, b, err),
        error_is(dx, dy, a, b, err),
        at_cell(dx, dy, k, a, b),
        !(a == dx && b == dy),
        a2 == (if 2 * err > -dy { a + 1 } else { a }),
        b2 == (if 2 * err < dx { b + 1 } else { b }),
        err2 == err - (if 2 * err > -dy { dy } else { 0 }) + (if 2 * err < dx { dx } else { 0 }),
    ensures
        in_step(dx, dy, a2, b2, err2),
        error_is(dx, dy, a2, b2, err2),
        at_cell(dx, dy, k + 1, a2, b2),
        -2 * dy <= err2 <= 2 * dx,
        a2 + b2 > a + b,
{
    reveal(error_is);
    reveal(in_step);
    if a == dx {
        lemma_no_overshoot_x(dx, dy, b, err);
    }
    if b == dy {
        lemma_no_overshoot_y(dx, dy, a, err);
    }
    assert(a2 * dy == a * dy + (if a2 == a { 0 } else { dy })) by (nonlinear_arith)
        requires
            a2 == a || a2 == a + 1,
    ;
    assert(b2 * dx == b * dx + (if b2 == b { 0 } else { dx })) by (nonlinear_arith)
        requires
            b2 == b || b2 == b + 1,
    ;
    assert(err2 == dx - dy - a2 * dy + b2 * dx);
    if dx >= dy {
        assert(b2 * dx == dx * b2) by (nonlinear_arith);
        lemma_minor_progress_is(a2, dx, dy, b2);
    } else {
        assert(a2 * dy == dy * a2) by (nonlinear_arith);
        lemma_minor_progress_is(b2, dy, dx, a2);
    }
}

/// The cell that `a` steps along x and `b` along y lead to is the `k`-th
/// cell of the line.
proof fn lemma_cell_on_line(start: GridIndex, end: GridIndex, k: int, a: int, b: int)
    requires
        at_cell(span(start.x as int, end.x as int), span(start.y as int, end.y as int), k, a, b),
    ensures
        i32::MIN <= advance(start.x as int, end.x as int, a) <= i32::MAX,
        i32::MIN <= advance(start.y as int, end.y as int, b) <= i32::MAX,
        line_x(start, end, k) == advance(start.x as int, end.x as int, a),
        line_y(start, end, k) == advance(start.y as int, end.y as int, b),
        0 <= k < line_len(start, end),
        a == span(start.x as int, end.x as int) && b == span(start.y as int, end.y as int) ==> k
            == line_len(start, end) - 1,
{
}

/// Bresenham's line: the cells from `start` to `end`, both included.
///
/// The line advances one cell along its longer axis with every element, so
/// it has `line_len` cells, no two of them equal, and each touches the next.
pub fn bresenham_algorithm(start: &GridIndex, end: &GridIndex) -> (grids: Vec<GridIndex>)
    ensures
        grids@ == line_cells(*start, *end),
        grids@.len() == line_len(*start, *end),
        grids@[0] == *start,
        grids@[grids@.len() - 1] == *end,
        forall|k: int| 0 <= k < grids@.len() - 1 ==> adjacent(#[trigger] grids@[k], grids@[k + 1]),
{
    let mut x: i32 = start.x;
    let mut y: i32 = start.y;
    let x1: i32 = end.x;
    let y1: i32 = end.y;

    let delta_x: i64 = if x < x1 {
        x1 as i64 - x as i64
    } else {
        x as i64 - x1 as i64
    };
    let delta_y: i64 = if y < y1 {
        y1 as i64 - y as i64
    } else {
        y as i64 - y1 as i64
    };

    let step_x: i32 = if x < x1 {
        1
    } else {
        -1
    };
    let step_y: i32 = if y < y1 {
        1
    } else {
        -1
    };

    let mut error: i64 = delta_x - delta_y;

    let mut grids: Vec<GridIndex> = Vec::new();
    grids.push(GridIndex { x, y });

    let ghost mut a: int = 0;
    let ghost mut b: int = 0;
    proof {
        lemma_first_cell(delta_x as int, delta_y as int);
        lemma_cell_on_line(*start, *end, 0, 0, 0);
    }

    while x != x1 || y != y1
        invariant
            x1 == end.x,
            y1 == end.y,
            delta_x == span(start.x as int, end.x as int),
            delta_y == span(start.y as int, end.y as int),
            step_x == (if start.x < end.x { 1i32 } else { -1i32 }),
            step_y == (if start.y < end.y { 1i32 } else { -1i32 }),
            in_step(delta_x as int, delta_y as int, a, b, error as int),
            error_is(delta_x as int, delta_y as int, a, b, error as int),
            at_cell(delta_x as int, delta_y as int, grids@.len() - 1, a, b),
            -2 * delta_y <= error <= 2 * delta_x,
            x == advance(start.x as int, end.x as int, a),
            y == advance(start.y as int, end.y as int, b),
            grids@.len() >= 1,
            grids@[0] == *start,
            grids@[grids@.len() - 1] == (GridIndex { x, y }),
            forall|k: int|
                0 <= k < grids@.len() ==> #[trigger] grids@[k] == line_cell(*start, *end, k),
            forall|k: int|
                0 <= k < grids@.len() - 1 ==> adjacent(#[trigger] grids@[k], grids@[k + 1]),
        decreases (delta_x - a) + (delta_y - b),
    {
        let ghost a0 = a;
        let ghost b0 = b;
        let ghost error0 = error as int;
        let ghost before = grids@;
        let error_x2: i64 = 2 * error;
        proof {
            a = if error_x2 > -delta_y { a0 + 1 } else { a0 };
            b = if error_x2 < delta_x { b0 + 1 } else { b0 };
            let error2 = error0 - (if error_x2 > -delta_y { delta_y as int } else { 0 }) + (
            if error_x2 < delta_x { delta_x as int } else { 0 });
            lemma_next_cell(
                delta_x as int,
                delta_y as int,
                before.len() - 1,
                a0,
                b0,
                error0,
                a,
                b,
                error2,
            );
            lemma_cell_on_line(*start, *end, before.len() as int, a, b);
        }
        if error_x2 > -delta_y {
            error -= delta_y;
            x += step_x;
        }
        if error_x2 < delta_x {
            error += delta_x;
            y += step_y;
        }
        grids.push(GridIndex { x, y });
        proof {
            let k = before.len() as int;
            assert(grids@[k] == line_cell(*start, *end, k));
            assert(forall|j: int| 0 <= j < k ==> grids@[j] == before[j]);
            assert(adjacent(grids@[k - 1], grids@[k]));
        }
    }
    proof {
        lemma_cell_on_line(*start, *end, grids@.len() - 1, a, b);
        assert(grids@ =~= line_cells(*start, *end));
    }
    grids
}

} // verus!
