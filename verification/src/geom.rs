//! Screen geometry shared by every view: the panel size, the inclusive
//! pixel rectangle and its operations, and point-in-rect tests.

use vstd::prelude::*;

verus! {

/// Panel width in pixels (reMarkable 2, portrait).
pub const SCREEN_W: i32 = 1404;

/// Panel height in pixels.
pub const SCREEN_H: i32 = 1872;

/// An axis-aligned pixel rectangle; both corners are inclusive.
#[derive(Clone, Copy, PartialEq, Eq, Structural, Debug)]
pub struct Rect {
    pub x0: i32,
    pub y0: i32,
    pub x1: i32,
    pub y1: i32,
}

/// The smallest value of `v` clamped into `[lo, hi]` (`lo <= hi`).
pub open spec fn clamp_spec(v: int, lo: int, hi: int) -> int {
    if v < lo {
        lo
    } else if v > hi {
        hi
    } else {
        v
    }
}

pub open spec fn min_spec(a: int, b: int) -> int {
    if a <= b {
        a
    } else {
        b
    }
}

pub open spec fn max_spec(a: int, b: int) -> int {
    if a >= b {
        a
    } else {
        b
    }
}

/// Integer division rounding toward zero (Rust's `/` on signed values),
/// for a positive divisor.
pub open spec fn trunc_div(a: int, b: int) -> int {
    if a >= 0 {
        a / b
    } else {
        -((-a) / b)
    }
}

/// Is the point inside the inclusive rectangle?
pub open spec fn rect_contains(r: Rect, x: int, y: int) -> bool {
    r.x0 <= x <= r.x1 && r.y0 <= y <= r.y1
}

/// The rectangle shifted outwards by `p` on every side, as integers.
pub open spec fn padded(r: Rect, p: int) -> (int, int, int, int) {
    (r.x0 - p, r.y0 - p, r.x1 + p, r.y1 + p)
}

/// Coordinates small enough that padding and size arithmetic cannot
/// overflow an `i32`.
pub open spec fn rect_in_range(r: Rect) -> bool {
    -0x1000_0000 <= r.x0 <= 0x1000_0000 && -0x1000_0000 <= r.y0 <= 0x1000_0000
        && -0x1000_0000 <= r.x1 <= 0x1000_0000 && -0x1000_0000 <= r.y1 <= 0x1000_0000
}

impl Rect {
    /// The bounding rectangle of both.
    pub fn union(self, o: Rect) -> (r: Rect)
        ensures
            r.x0 == min_spec(self.x0 as int, o.x0 as int),
            r.y0 == min_spec(self.y0 as int, o.y0 as int),
            r.x1 == max_spec(self.x1 as int, o.x1 as int),
            r.y1 == max_spec(self.y1 as int, o.y1 as int),
    {
        Rect {
            x0: if self.x0 <= o.x0 { self.x0 } else { o.x0 },
            y0: if self.y0 <= o.y0 { self.y0 } else { o.y0 },
            x1: if self.x1 >= o.x1 { self.x1 } else { o.x1 },
            y1: if self.y1 >= o.y1 { self.y1 } else { o.y1 },
        }
    }

    /// Grow by `p` on every side (shrink for a negative `p`).
    pub fn pad(self, p: i32) -> (r: Rect)
        requires
            i32::MIN <= self.x0 - p,
            i32::MIN <= self.y0 - p,
            self.x1 + p <= i32::MAX,
            self.y1 + p <= i32::MAX,
            self.x0 - p <= i32::MAX,
            self.y0 - p <= i32::MAX,
            i32::MIN <= self.x1 + p,
            i32::MIN <= self.y1 + p,
        ensures
            (r.x0 as int, r.y0 as int, r.x1 as int, r.y1 as int) == padded(self, p as int),
    {
        Rect { x0: self.x0 - p, y0: self.y0 - p, x1: self.x1 + p, y1: self.y1 + p }
    }

    /// Clamp every corner onto the panel.
    pub fn clamp_screen(self) -> (r: Rect)
        ensures
            r.x0 == clamp_spec(self.x0 as int, 0, SCREEN_W - 1),
            r.y0 == clamp_spec(self.y0 as int, 0, SCREEN_H - 1),
            r.x1 == clamp_spec(self.x1 as int, 0, SCREEN_W - 1),
            r.y1 == clamp_spec(self.y1 as int, 0, SCREEN_H - 1),
    {
        Rect {
            x0: clamp_i32(self.x0, 0, SCREEN_W - 1),
            y0: clamp_i32(self.y0, 0, SCREEN_H - 1),
            x1: clamp_i32(self.x1, 0, SCREEN_W - 1),
            y1: clamp_i32(self.y1, 0, SCREEN_H - 1),
        }
    }

    /// Width in pixels (corners inclusive).
    pub fn w(&self) -> (r: i32)
        requires
            i32::MIN <= self.x1 - self.x0 < i32::MAX,
        ensures
            r == self.x1 - self.x0 + 1,
    {
        self.x1 - self.x0 + 1
    }

    /// Height in pixels (corners inclusive).
    pub fn h(&self) -> (r: i32)
        requires
            i32::MIN <= self.y1 - self.y0 < i32::MAX,
        ensures
            r == self.y1 - self.y0 + 1,
    {
        self.y1 - self.y0 + 1
    }
}

/// `v` clamped into `[lo, hi]`.
pub fn clamp_i32(v: i32, lo: i32, hi: i32) -> (r: i32)
    requires
        lo <= hi,
    ensures
        r == clamp_spec(v as int, lo as int, hi as int),
{
    if v < lo {
        lo
    } else if v > hi {
        hi
    } else {
        v
    }
}

/// Half-open hit test: `rx <= x < rx + rw` and `ry <= y < ry + rh`.
pub fn in_rect(x: i32, y: i32, rx: i32, ry: i32, rw: i32, rh: i32) -> (b: bool)
    ensures
        b == (rx <= x < rx + rw && ry <= y < ry + rh),
{
    x as i64 >= rx as i64 && (x as i64) < rx as i64 + rw as i64 && y as i64 >= ry as i64
        && (y as i64) < ry as i64 + rh as i64
}

/// A row-major index splits into its column and row.
pub proof fn lemma_cell(d: int, w: int, n: int)
    requires
        0 < w,
        0 <= d < n,
        n % w == 0,
    ensures
        0 <= d % w < w,
        0 <= d / w < n / w,
        d == (d / w) * w + d % w,
{
    assert(0 <= d % w < w && d == (d / w) * w + d % w && n == (n / w) * w + n % w) by (nonlinear_arith)
        requires
            0 < w,
            0 <= d,
            0 <= n,
    ;
    assert(d / w < n / w) by (nonlinear_arith)
        requires
            0 < w,
            0 <= d < n,
            n % w == 0,
            d == (d / w) * w + d % w,
            0 <= d % w < w,
            n == (n / w) * w + n % w,
    ;
}

/// The column and row of a row-major index come back from it.
pub proof fn lemma_split(i: int, j: int, w: int)
    requires
        0 < w,
        0 <= i < w,
        0 <= j,
    ensures
        (j * w + i) % w == i,
        (j * w + i) / w == j,
{
    assert((j * w + i) % w == i && (j * w + i) / w == j) by (nonlinear_arith)
        requires
            0 < w,
            0 <= i < w,
            0 <= j,
    ;
}

} // verus!
