//! Geometric queries over grid cells: line rasterization and radius
//! enumeration.
use vstd::prelude::*;
use vstd::arithmetic::div_mod::{lemma_fundamental_div_mod, lemma_fundamental_div_mod_converse};

use crate::tile::TileMap;

verus! {

/// `|a - b|`.
pub open spec fn abs_diff(a: int, b: int) -> int {
    if a <= b {
        b - a
    } else {
        a - b
    }
}

/// Number of steps of the line from `(x0, y0)` to `(x1, y1)`: the larger of
/// its horizontal and vertical extents.
pub open spec fn line_steps(x0: int, y0: int, x1: int, y1: int) -> int {
    if abs_diff(x0, x1) >= abs_diff(y0, y1) {
        abs_diff(x0, x1)
    } else {
        abs_diff(y0, y1)
    }
}

/// `p / q` rounded to the nearest integer, halves up.
pub open spec fn round_div(p: int, q: int) -> int {
    (2 * p + q) / (2 * q)
}

/// Coordinate, along one axis, of step `i` of `n` from `a` to `b`: the
/// straight-line position rounded to the nearest cell.
pub open spec fn line_coord(a: int, b: int, i: int, n: int) -> int {
    if n == 0 {
        a
    } else if a <= b {
        a + round_div(i * (b - a), n)
    } else {
        a - round_div(i * (a - b), n)
    }
}

/// Cell `i` of the rasterized line from `(x0, y0)` to `(x1, y1)`.
pub open spec fn line_cell(x0: int, y0: int, x1: int, y1: int, i: int) -> (int, int) {
    let n = line_steps(x0, y0, x1, y1);
    (line_coord(x0, x1, i, n), line_coord(y0, y1, i, n))
}

/// Whether `(x, y)` lies within distance `radius` of `(ox, oy)`.
pub open spec fn in_radius(ox: int, oy: int, radius: int, x: int, y: int) -> bool {
    0 <= radius && (x - ox) * (x - ox) + (y - oy) * (y - oy) <= radius * radius
}

/// Rounded division from the quotient `k` and remainder `m` of `p / q`.
proof fn lemma_round_split(p: int, q: int, k: int, m: int)
    requires
        0 < q,
        0 <= m < q,
        p == q * k + m,
    ensures
        round_div(p, q) == if 2 * m >= q {
            k + 1
        } else {
            k
        },
{
    if 2 * m >= q {
        assert(2 * p + q == (k + 1) * (2 * q) + (2 * m - q)) by (nonlinear_arith)
            requires
                p == q * k + m,
        ;
        lemma_fundamental_div_mod_converse(2 * p + q, 2 * q, k + 1, 2 * m - q);
    } else {
        assert(2 * p + q == k * (2 * q) + (2 * m + q)) by (nonlinear_arith)
            requires
                p == q * k + m,
        ;
        lemma_fundamental_div_mod_converse(2 * p + q, 2 * q, k, 2 * m + q);
    }
}

/// Whether cell `a` comes before cell `b` in row-major order.
pub open spec fn row_major_before(a: (usize, usize), b: (usize, usize)) -> bool {
    a.1 < b.1 || (a.1 == b.1 && a.0 < b.0)
}

/// A cell within distance `radius` of `(ox, oy)` lies in the square of
/// half-width `radius` around it.
proof fn lemma_in_radius_box(ox: int, oy: int, radius: int, x: int, y: int)
    requires
        in_radius(ox, oy, radius, x, y),
    ensures
        ox - radius <= x <= ox + radius,
        oy - radius <= y <= oy + radius,
{
    let dx = x - ox;
    let dy = y - oy;
    assert(0 <= dy * dy) by (nonlinear_arith);
    assert(0 <= dx * dx) by (nonlinear_arith);
    if dx > radius || -dx > radius {
        assert(dx * dx > radius * radius) by (nonlinear_arith)
            requires
                dx > radius || -dx > radius,
                0 <= radius,
        ;
    }
    if dy > radius || -dy > radius {
        assert(dy * dy > radius * radius) by (nonlinear_arith)
            requires
                dy > radius || -dy > radius,
                0 <= radius,
        ;
    }
}

/// Inside the square of half-width `radius` (at most `isize::MAX`), squared
/// distances fit in `i128`.
proof fn lemma_box_square_bounds(
    dx: int,
    dy: int,
    radius: int,
    ox: int,
    oy: int,
    x: int,
    y: int,
    x_lo: int,
    x_hi: int,
    y_lo: int,
    y_hi: int,
)
    requires
        0 <= radius <= isize::MAX,
        dx == x - ox,
        dy == y - oy,
        x_lo <= x <= x_hi,
        y_lo <= y <= y_hi,
        ox - radius <= x_lo,
        x_hi <= ox + radius,
        oy - radius <= y_lo,
        y_hi <= oy + radius,
    ensures
        0 <= dx * dx <= radius * radius,
        0 <= dy * dy <= radius * radius,
        radius * radius < 0x4000_0000_0000_0000_0000_0000_0000_0000,
{
    assert(0 <= dx * dx <= radius * radius) by (nonlinear_arith)
        requires
            -radius <= dx <= radius,
    ;
    assert(0 <= dy * dy <= radius * radius) by (nonlinear_arith)
        requires
            -radius <= dy <= radius,
    ;
    assert(radius * radius < 0x4000_0000_0000_0000_0000_0000_0000_0000) by (nonlinear_arith)
        requires
            0 <= radius < 0x8000_0000_0000_0000,
    ;
}

/// What a sequence contains after a push.
pub(crate) proof fn lemma_push_contains<T>(s: Seq<T>, v: T, p: T)
    ensures
        s.push(v).contains(p) <==> s.contains(p) || p == v,
{
    if s.contains(p) {
        let k = choose|k: int| 0 <= k < s.len() && s[k] == p;
        assert(s.push(v)[k] == p);
    }
    if p == v {
        assert(s.push(v)[s.len() as int] == p);
    }
    if s.push(v).contains(p) && p != v {
        let k = choose|k: int| 0 <= k < s.len() + 1 && s.push(v)[k] == p;
        assert(s[k] == p);
    }
}

/// Facts about rounded division by a positive `q` with `0 <= p <= d * q`.
proof fn lemma_round_div(p: int, q: int, d: int)
    requires
        0 < q,
        0 <= d,
        0 <= p <= d * q,
    ensures
        0 <= round_div(p, q) <= d,
        p == d * q ==> round_div(p, q) == d,
{
    lemma_fundamental_div_mod(p, q);
    let k = p / q;
    let m = p % q;
    lemma_round_split(p, q, k, m);
    assert(k <= d) by (nonlinear_arith)
        requires
            p == q * k + m,
            0 <= m,
            p <= d * q,
            0 < q,
    ;
    assert(0 <= k) by (nonlinear_arith)
        requires
            p == q * k + m,
            m < q,
            0 <= p,
            0 < q,
    ;
    if p == d * q {
        lemma_fundamental_div_mod_converse(p, q, d, 0);
    }
    if k == d {
        assert(q * k == d * q) by (nonlinear_arith)
            requires
                k == d,
        ;
    }
}

/// Along the major axis, step `i` of a line is `i` cells from its start.
proof fn lemma_major_step(i: int, n: int)
    requires
        0 < n,
        0 <= i,
    ensures
        round_div(i * n, n) == i,
{
    assert(2 * (i * n) + n == i * (2 * n) + n) by (nonlinear_arith);
    lemma_fundamental_div_mod_converse(2 * (i * n) + n, 2 * n, i, n);
}

/// Rounded position `round(i * d / n)` along one axis, for `i <= n` and
/// `d <= n`.
fn rounded_step(i: usize, d: usize, n: usize) -> (r: usize)
    requires
        0 < n,
        i <= n,
        d <= n,
    ensures
        r == round_div(i * d, n as int),
        r <= d,
{
    proof {
        assert(0 <= i * d <= d * n) by (nonlinear_arith)
            requires
                i <= n,
                0 <= d,
                0 <= i,
        ;
        assert(i * d <= u128::MAX) by (nonlinear_arith)
            requires
                i <= usize::MAX,
                d <= usize::MAX,
                0 <= i,
                0 <= d,
        ;
        lemma_round_div(i * d, n as int, d as int);
    }
    let p: u128 = i as u128 * d as u128;
    let q: u128 = p / n as u128;
    let m: u128 = p % n as u128;
    proof {
        let pi = p as int;
        let ni = n as int;
        lemma_fundamental_div_mod(pi, ni);
        lemma_round_split(pi, ni, q as int, m as int);
    }
    if 2 * m >= n as u128 {
        (q + 1) as usize
    } else {
        q as usize
    }
}

/// One coordinate of step `i` of `n` from `a` to `b`.
fn line_coordinate(a: usize, b: usize, i: usize, n: usize) -> (r: usize)
    requires
        i <= n,
        abs_diff(a as int, b as int) <= n,
    ensures
        r == line_coord(a as int, b as int, i as int, n as int),
{
    if n == 0 {
        a
    } else if a <= b {
        a + rounded_step(i, b - a, n)
    } else {
        a - rounded_step(i, a - b, n)
    }
}

/// A line from a cell to itself is that one cell.
pub proof fn lemma_line_single_cell(x: int, y: int)
    ensures
        line_steps(x, y, x, y) + 1 == 1,
        line_cell(x, y, x, y, 0) == (x, y),
{
}

/// The lines from `A` to `B` and from `B` to `A` have the same number of
/// cells.
pub proof fn lemma_line_length_symmetric(x0: int, y0: int, x1: int, y1: int)
    ensures
        line_steps(x0, y0, x1, y1) == line_steps(x1, y1, x0, y0),
{
}

/// A line starts at its first end and finishes at its second.
pub proof fn lemma_line_ends(x0: int, y0: int, x1: int, y1: int)
    ensures
        line_cell(x0, y0, x1, y1, 0) == (x0, y0),
        line_cell(x0, y0, x1, y1, line_steps(x0, y0, x1, y1)) == (x1, y1),
{
    let n = line_steps(x0, y0, x1, y1);
    if n > 0 {
        lemma_coord_ends(x0, x1, n);
        lemma_coord_ends(y0, y1, n);
    }
}

/// One axis of [`lemma_line_ends`].
proof fn lemma_coord_ends(a: int, b: int, n: int)
    requires
        0 < n,
        abs_diff(a, b) <= n,
    ensures
        line_coord(a, b, 0, n) == a,
        line_coord(a, b, n, n) == b,
{
    let d = abs_diff(a, b);
    assert(0 * (b - a) == 0 && 0 * (a - b) == 0);
    lemma_fundamental_div_mod_converse(2 * 0 + n, 2 * n, 0, n);
    assert(n * d == d * n) by (nonlinear_arith);
    lemma_round_div(n * d, n, d);
}

/// A line visits each of its cells once: distinct steps give distinct
/// cells.
pub proof fn lemma_line_cells_distinct(x0: int, y0: int, x1: int, y1: int, i: int, j: int)
    requires
        0 <= i < j <= line_steps(x0, y0, x1, y1),
    ensures
        line_cell(x0, y0, x1, y1, i) != line_cell(x0, y0, x1, y1, j),
{
    let n = line_steps(x0, y0, x1, y1);
    lemma_major_step(i, n);
    lemma_major_step(j, n);
    assert(i * n == i * (n as int));
}

/// The cells within distance zero of an origin are the origin alone.
pub proof fn lemma_radius_zero(ox: int, oy: int, x: int, y: int)
    ensures
        in_radius(ox, oy, 0, x, y) <==> (x == ox && y == oy),
{
    let dx = x - ox;
    let dy = y - oy;
    assert(0 <= dx * dx) by (nonlinear_arith);
    assert(0 <= dy * dy) by (nonlinear_arith);
    if dx != 0 {
        assert(dx * dx > 0) by (nonlinear_arith)
            requires
                dx != 0,
        ;
    }
    if dy != 0 {
        assert(dy * dy > 0) by (nonlinear_arith)
            requires
                dy != 0,
        ;
    }
}

impl TileMap {
    /// The cells of the straight segment from `(x0, y0)` to `(x1, y1)`, in
    /// order from start to end: one cell for each step along the longer
    /// axis, each at the nearest cell to the segment (see [`line_cell`]).
    pub fn tiles_on_line_between(&self, x0: usize, y0: usize, x1: usize, y1: usize) -> (r: Vec<
        (usize, usize),
    >)
        ensures
            r@.len() == line_steps(x0 as int, y0 as int, x1 as int, y1 as int) + 1,
            forall|i: int|
                0 <= i < r@.len() ==> (#[trigger] r@[i]).0 == line_cell(
                    x0 as int,
                    y0 as int,
                    x1 as int,
                    y1 as int,
                    i,
                ).0 && r@[i].1 == line_cell(x0 as int, y0 as int, x1 as int, y1 as int, i).1,
    {
        let dx = if x0 <= x1 {
            x1 - x0
        } else {
            x0 - x1
        };
        let dy = if y0 <= y1 {
            y1 - y0
        } else {
            y0 - y1
        };
        let n = if dx >= dy {
            dx
        } else {
            dy
        };
        let mut cells: Vec<(usize, usize)> = Vec::new();
        let mut i: usize = 0;
        loop
            invariant_except_break
                cells@.len() == i,
            invariant
                i <= n,
                n == line_steps(x0 as int, y0 as int, x1 as int, y1 as int),
                forall|j: int|
                    0 <= j < cells@.len() ==> (#[trigger] cells@[j]).0 == line_cell(
                        x0 as int,
                        y0 as int,
                        x1 as int,
                        y1 as int,
                        j,
                    ).0 && cells@[j].1 == line_cell(x0 as int, y0 as int, x1 as int, y1 as int, j).1,
            ensures
                cells@.len() == n + 1,
            decreases n - i,
        {
            let x = line_coordinate(x0, x1, i, n);
            let y = line_coordinate(y0, y1, i, n);
            cells.push((x, y));
            if i == n {
                break;
            }
            i += 1;
        }
        cells
    }

    /// The on-grid cells within distance `radius` of `(origin_x, origin_y)`
    /// (see [`in_radius`]), each once, in row-major order. A negative radius
    /// gives no cells.
    pub fn tiles_on_radius(&self, origin_x: isize, origin_y: isize, radius: isize) -> (r: Vec<
        (usize, usize),
    >)
        ensures
            forall|i: int|
                0 <= i < r@.len() ==> self.in_bounds((#[trigger] r@[i]).0 as int, r@[i].1 as int)
                    && in_radius(
                    origin_x as int,
                    origin_y as int,
                    radius as int,
                    r@[i].0 as int,
                    r@[i].1 as int,
                ),
            forall|x: int, y: int|
                self.in_bounds(x, y) && in_radius(
                    origin_x as int,
                    origin_y as int,
                    radius as int,
                    x,
                    y,
                ) ==> #[trigger] r@.contains((x as usize, y as usize)),
            forall|i: int, j: int|
                0 <= i < j < r@.len() ==> row_major_before(#[trigger] r@[i], #[trigger] r@[j]),
    {
        let mut cells: Vec<(usize, usize)> = Vec::new();
        if radius < 0 || self.width == 0 || self.height == 0 {
            return cells;
        }
        let ox = origin_x as i128;
        let oy = origin_y as i128;
        let rad = radius as i128;
        let x_lo: i128 = if ox - rad > 0 {
            ox - rad
        } else {
            0
        };
        let x_hi: i128 = if ox + rad < self.width as i128 - 1 {
            ox + rad
        } else {
            self.width as i128 - 1
        };
        let y_lo: i128 = if oy - rad > 0 {
            oy - rad
        } else {
            0
        };
        let y_hi: i128 = if oy + rad < self.height as i128 - 1 {
            oy + rad
        } else {
            self.height as i128 - 1
        };
        if x_lo > x_hi || y_lo > y_hi {
            proof {
                assert forall|x: int, y: int|
                    self.in_bounds(x, y) && in_radius(
                        origin_x as int,
                        origin_y as int,
                        radius as int,
                        x,
                        y,
                    ) implies #[trigger] cells@.contains((x as usize, y as usize)) by {
                    lemma_in_radius_box(ox as int, oy as int, rad as int, x, y);
                }
            }
            return cells;
        }
        let x_lo = x_lo as usize;
        let x_hi = x_hi as usize;
        let y_lo = y_lo as usize;
        let y_hi = y_hi as usize;
        proof {
            assert forall|a: int, b: int|
                self.in_bounds(a, b) && b < y_lo && in_radius(ox as int, oy as int, rad as int, a, b)
                    implies #[trigger] cells@.contains((a as usize, b as usize)) by {
                lemma_in_radius_box(ox as int, oy as int, rad as int, a, b);
            }
        }
        let mut y: usize = y_lo;
        while y <= y_hi
            invariant
                x_lo <= x_hi < self.width,
                y_lo <= y <= y_hi + 1,
                y_hi < self.height,
                ox - rad <= x_lo,
                x_hi <= ox + rad,
                oy - rad <= y_lo,
                y_hi <= oy + rad,
                x_lo == 0 || x_lo == ox - rad,
                x_hi == self.width - 1 || x_hi == ox + rad,
                y_hi == self.height - 1 || y_hi == oy + rad,
                ox == origin_x,
                oy == origin_y,
                rad == radius,
                0 <= rad,
                forall|i: int|
                    0 <= i < cells@.len() ==> self.in_bounds(
                        (#[trigger] cells@[i]).0 as int,
                        cells@[i].1 as int,
                    ) && in_radius(ox as int, oy as int, rad as int, cells@[i].0 as int, cells@[i].1 as int)
                        && cells@[i].1 < y,
                forall|a: int, b: int|
                    self.in_bounds(a, b) && b < y && in_radius(ox as int, oy as int, rad as int, a, b)
                        ==> #[trigger] cells@.contains((a as usize, b as usize)),
                forall|i: int, j: int|
                    0 <= i < j < cells@.len() ==> row_major_before(
                        #[trigger] cells@[i],
                        #[trigger] cells@[j],
                    ),
            decreases y_hi + 1 - y,
        {
            proof {
                assert forall|a: int, b: int|
                    self.in_bounds(a, b) && (b < y || (b == y && a < x_lo)) && in_radius(
                        ox as int,
                        oy as int,
                        rad as int,
                        a,
                        b,
                    ) implies #[trigger] cells@.contains((a as usize, b as usize)) by {
                    if b == y {
                        lemma_in_radius_box(ox as int, oy as int, rad as int, a, b);
                    }
                }
            }
            let mut x: usize = x_lo;
            while x <= x_hi
                invariant
                    x_lo <= x <= x_hi + 1,
                    x_hi < self.width,
                    y_lo <= y <= y_hi < self.height,
                    ox - rad <= x_lo,
                    x_hi <= ox + rad,
                    oy - rad <= y_lo,
                    y_hi <= oy + rad,
                    x_hi == self.width - 1 || x_hi == ox + rad,
                    ox == origin_x,
                    oy == origin_y,
                    rad == radius,
                    0 <= rad,
                    forall|i: int|
                        0 <= i < cells@.len() ==> self.in_bounds(
                            (#[trigger] cells@[i]).0 as int,
                            cells@[i].1 as int,
                        ) && in_radius(ox as int, oy as int, rad as int, cells@[i].0 as int, cells@[i].1 as int)
                            && (cells@[i].1 < y || (cells@[i].1 == y && cells@[i].0 < x)),
                    forall|a: int, b: int|
                        self.in_bounds(a, b) && (b < y || (b == y && a < x)) && in_radius(
                            ox as int,
                            oy as int,
                            rad as int,
                            a,
                            b,
                        ) ==> #[trigger] cells@.contains((a as usize, b as usize)),
                    forall|i: int, j: int|
                        0 <= i < j < cells@.len() ==> row_major_before(
                            #[trigger] cells@[i],
                            #[trigger] cells@[j],
                        ),
                decreases x_hi + 1 - x,
            {
                let dx: i128 = x as i128 - ox;
                let dy: i128 = y as i128 - oy;
                proof {
                    lemma_box_square_bounds(
                        dx as int,
                        dy as int,
                        rad as int,
                        ox as int,
                        oy as int,
                        x as int,
                        y as int,
                        x_lo as int,
                        x_hi as int,
                        y_lo as int,
                        y_hi as int,
                    );
                }
                let ghost before = cells@;
                if dx * dx + dy * dy <= rad * rad {
                    cells.push((x, y));
                    proof {
                        assert forall|a: int, b: int|
                            self.in_bounds(a, b) && (b < y || (b == y && a < x + 1)) && in_radius(
                                ox as int,
                                oy as int,
                                rad as int,
                                a,
                                b,
                            ) implies #[trigger] cells@.contains((a as usize, b as usize)) by {
                            lemma_push_contains(before, (x, y), (a as usize, b as usize));
                        }
                    }
                }
                x += 1;
            }
            proof {
                assert forall|a: int, b: int|
                    self.in_bounds(a, b) && b < y + 1 && in_radius(ox as int, oy as int, rad as int, a, b)
                        implies #[trigger] cells@.contains((a as usize, b as usize)) by {
                    if b == y && a > x_hi {
                        lemma_in_radius_box(ox as int, oy as int, rad as int, a, b);
                    }
                }
            }
            y += 1;
        }
        proof {
            assert forall|a: int, b: int|
                self.in_bounds(a, b) && in_radius(ox as int, oy as int, rad as int, a, b)
                    implies #[trigger] cells@.contains((a as usize, b as usize)) by {
                if b > y_hi {
                    lemma_in_radius_box(ox as int, oy as int, rad as int, a, b);
                }
            }
        }
        cells
    }
}

} // verus!
