//! Pan and zoom state, and the mapping between screen pixels and grid
//! coordinates.
//!
//! Screen coordinates are whole pixels. The zoom scale is held in
//! hundredths, so a scale of `100` draws one grid unit as [`TILE_SIZE`]
//! pixels.
use vstd::prelude::*;
use vstd::arithmetic::div_mod::{lemma_fundamental_div_mod, lemma_fundamental_div_mod_converse};

verus! {

/// Screen pixels covered by one grid unit at a scale of `100`.
pub const TILE_SIZE: i64 = 32;

/// Smallest zoom scale, in hundredths.
pub const SCALE_MIN: u32 = 100;

/// Largest zoom scale, in hundredths.
pub const SCALE_MAX: u32 = 500;

/// Pan offset (screen pixels) and zoom scale (hundredths).
#[derive(Clone, Copy, Debug, PartialEq, Eq, Structural)]
pub struct Viewport {
    pub offset_x: i32,
    pub offset_y: i32,
    pub scale: u32,
}

/// `v` clamped to `[lo, hi]`.
pub open spec fn clamp(v: int, lo: int, hi: int) -> int {
    if v < lo {
        lo
    } else if v > hi {
        hi
    } else {
        v
    }
}

/// Screen coordinate of grid coordinate `g` along one axis: scaled, then
/// panned (scaled positions are rounded down to whole pixels).
pub open spec fn view_coord(offset: int, scale: int, g: int) -> int {
    offset + (g * TILE_SIZE * scale) / 100
}

/// Grid coordinate nearest to screen coordinate `v` along one axis:
/// un-panned, then un-scaled, rounding halves up.
pub open spec fn grid_coord(offset: int, scale: int, v: int) -> int {
    ((v - offset) * 200 + TILE_SIZE * scale) / (2 * TILE_SIZE * scale)
}

/// Floor division of `n` by a positive `d`.
fn floor_div(n: i128, d: i128) -> (r: i128)
    requires
        0 < d,
        -0x1_0000_0000_0000_0000_0000_0000_0000 < n < 0x1_0000_0000_0000_0000_0000_0000_0000,
    ensures
        r == n / d,
{
    if n >= 0 {
        let q = (n as u128 / d as u128) as i128;
        q
    } else {
        let m: u128 = (-n - 1) as u128;
        let q: u128 = m / d as u128;
        proof {
            let mi = m as int;
            let di = d as int;
            lemma_fundamental_div_mod(mi, di);
            let r = mi % di;
            assert(0 <= r < di);
            assert(n == (-(q as int) - 1) * di + (di - r - 1)) by (nonlinear_arith)
                requires
                    mi == di * (q as int) + r,
                    n == -mi - 1,
            ;
            lemma_fundamental_div_mod_converse(n as int, di, -(q as int) - 1, di - r - 1);
            assert(q as int <= mi) by (nonlinear_arith)
                requires
                    mi == di * (q as int) + r,
                    di >= 1,
                    0 <= r,
                    q >= 0,
            ;
        }
        -(q as i128) - 1
    }
}

/// Bounds on the floor division of `n` by a divisor `d` of at least `k`.
proof fn lemma_floor_div_bound(n: int, d: int, k: int)
    requires
        1 <= k <= d,
    ensures
        0 <= n ==> 0 <= n / d && k * (n / d) <= n,
        n < 0 ==> n / d < 0 && n - k < k * (n / d),
{
    lemma_fundamental_div_mod(n, d);
    let q = n / d;
    let r = n % d;
    if q >= 0 {
        assert(k * q <= d * q) by (nonlinear_arith)
            requires
                q >= 0,
                d >= k,
        ;
        assert(0 <= d * q) by (nonlinear_arith)
            requires
                q >= 0,
                d >= 1,
        ;
    } else {
        assert(d * (q + 1) <= k * (q + 1)) by (nonlinear_arith)
            requires
                q + 1 <= 0,
                d >= k,
        ;
        assert(d * q + r < d * (q + 1)) by (nonlinear_arith)
            requires
                r < d,
        ;
        assert(k * (q + 1) == k * q + k) by (nonlinear_arith);
    }
}

impl Viewport {
    /// The zoom scale lies within `[SCALE_MIN, SCALE_MAX]`.
    pub open spec fn wf(&self) -> bool {
        SCALE_MIN <= self.scale <= SCALE_MAX
    }

    /// An unpanned viewport at the smallest zoom scale.
    pub fn new() -> (r: Viewport)
        ensures
            r.wf(),
            r.offset_x == 0,
            r.offset_y == 0,
            r.scale == SCALE_MIN,
    {
        Viewport { offset_x: 0, offset_y: 0, scale: SCALE_MIN }
    }

    /// Changes the zoom scale by `delta` hundredths, clamped to
    /// `[SCALE_MIN, SCALE_MAX]`.
    pub fn zoom_by(&mut self, delta: i32)
        ensures
            final(self).wf(),
            final(self).offset_x == old(self).offset_x,
            final(self).offset_y == old(self).offset_y,
            final(self).scale == clamp(
                old(self).scale + delta,
                SCALE_MIN as int,
                SCALE_MAX as int,
            ),
    {
        let s: i64 = self.scale as i64 + delta as i64;
        if s < SCALE_MIN as i64 {
            self.scale = SCALE_MIN;
        } else if s > SCALE_MAX as i64 {
            self.scale = SCALE_MAX;
        } else {
            self.scale = s as u32;
        }
    }

    /// Moves the pan offset by `(dx, dy)` screen pixels, saturating at the
    /// bounds of `i32`.
    pub fn pan_by(&mut self, dx: i32, dy: i32)
        ensures
            final(self).scale == old(self).scale,
            final(self).offset_x == clamp(old(self).offset_x + dx, i32::MIN as int, i32::MAX as int),
            final(self).offset_y == clamp(old(self).offset_y + dy, i32::MIN as int, i32::MAX as int),
    {
        self.offset_x = saturate_i32(self.offset_x as i64 + dx as i64);
        self.offset_y = saturate_i32(self.offset_y as i64 + dy as i64);
    }

    /// Screen position of the grid point `(gx, gy)`.
    pub fn grid_to_view(&self, gx: i32, gy: i32) -> (r: (i64, i64))
        requires
            self.wf(),
        ensures
            r.0 == view_coord(self.offset_x as int, self.scale as int, gx as int),
            r.1 == view_coord(self.offset_y as int, self.scale as int, gy as int),
    {
        (
            to_view(self.offset_x, self.scale, gx),
            to_view(self.offset_y, self.scale, gy),
        )
    }

    /// Grid point nearest to the screen position `(sx, sy)`. The layer is
    /// accepted for per-layer depth adjustment and does not move the
    /// result.
    pub fn view_to_grid(&self, sx: i64, sy: i64, layer: i8) -> (r: (i64, i64))
        requires
            self.wf(),
        ensures
            r.0 == grid_coord(self.offset_x as int, self.scale as int, sx as int),
            r.1 == grid_coord(self.offset_y as int, self.scale as int, sy as int),
    {
        (to_grid(self.offset_x, self.scale, sx), to_grid(self.offset_y, self.scale, sy))
    }
}

/// `v` clamped to the range of `i32`.
fn saturate_i32(v: i64) -> (r: i32)
    ensures
        r == clamp(v as int, i32::MIN as int, i32::MAX as int),
{
    if v < i32::MIN as i64 {
        i32::MIN
    } else if v > i32::MAX as i64 {
        i32::MAX
    } else {
        v as i32
    }
}

/// One axis of [`Viewport::grid_to_view`].
fn to_view(offset: i32, scale: u32, g: i32) -> (r: i64)
    requires
        SCALE_MIN <= scale <= SCALE_MAX,
    ensures
        r == view_coord(offset as int, scale as int, g as int),
{
    proof {
        assert(-0x100_0000_0000 <= g as int * scale as int <= 0x100_0000_0000) by (nonlinear_arith)
            requires
                i32::MIN <= g <= i32::MAX,
                100 <= scale <= 500,
        ;
    }
    let gs: i64 = g as i64 * scale as i64;
    let p: i128 = gs as i128 * 32;
    proof {
        assert(p == g as int * TILE_SIZE * scale as int) by (nonlinear_arith)
            requires
                p == gs * 32,
                gs == g as int * scale as int,
                TILE_SIZE == 32,
        ;
    }
    let q = floor_div(p, 100);
    proof {
        lemma_floor_div_bound(p as int, 100, 100);
    }
    (offset as i128 + q) as i64
}

/// One axis of [`Viewport::view_to_grid`].
fn to_grid(offset: i32, scale: u32, v: i64) -> (r: i64)
    requires
        SCALE_MIN <= scale <= SCALE_MAX,
    ensures
        r == grid_coord(offset as int, scale as int, v as int),
{
    let d: i128 = scale as i128 * 32;
    let n: i128 = (v as i128 - offset as i128) * 200 + d;
    let q = floor_div(n, 2 * d);
    proof {
        lemma_floor_div_bound(n as int, 2 * d as int, 6400);
        assert(2 * d == 2 * TILE_SIZE * scale) by (nonlinear_arith)
            requires
                d == scale * 32,
                TILE_SIZE == 32,
        ;
    }
    q as i64
}

/// Mapping a grid point to the screen and back yields the same grid point,
/// for every pan offset and every zoom scale in range.
pub proof fn lemma_view_round_trip(offset: int, scale: int, g: int)
    requires
        SCALE_MIN <= scale <= SCALE_MAX,
    ensures
        grid_coord(offset, scale, view_coord(offset, scale, g)) == g,
{
    let d = TILE_SIZE * scale;
    let s = g * d;
    assert(g * TILE_SIZE * scale == s) by (nonlinear_arith)
        requires
            d == TILE_SIZE * scale,
            s == g * d,
    ;
    lemma_fundamental_div_mod(s, 100);
    let a = (s / 100) * 100;
    assert(s - 100 < a <= s);
    let v = view_coord(offset, scale, g);
    assert(v - offset == s / 100);
    let n = (v - offset) * 200 + TILE_SIZE * scale;
    assert(n == a * 2 + d);
    assert(2 * TILE_SIZE * scale == 2 * d) by (nonlinear_arith)
        requires
            d == TILE_SIZE * scale,
    ;
    assert(g * (2 * d) == 2 * s) by (nonlinear_arith)
        requires
            s == g * d,
    ;
    assert(3200 <= d);
    lemma_fundamental_div_mod_converse(n, 2 * d, g, n - g * (2 * d));
    assert(grid_coord(offset, scale, v) == n / (2 * d));
}

} // verus!
