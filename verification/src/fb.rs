//! The panel framebuffer as plain memory: 1404x1872 RGB565 pixels, row
//! major, plus a vertical clip band that every primitive honours, so
//! re-rendering one band can never bleed into its neighbours.
//!
//! The app copies `pixels()` into the shared-memory buffer the display
//! server hands out; everything drawn here is pure memory writes.

use vstd::prelude::*;
use crate::geom::{SCREEN_W, SCREEN_H, max_spec, min_spec};

verus! {

pub const WHITE: u16 = 0xFFFF;
pub const BLACK: u16 = 0x0000;
pub const GRAY: u16 = 0x8410;
/// Light gray, for subtle borders.
pub const LIGHT: u16 = 0xC618;

/// Number of pixels on the panel.
pub open spec fn npix() -> int {
    SCREEN_W * SCREEN_H
}

/// Is (c, r) a pixel of the panel?
pub open spec fn on_screen(c: int, r: int) -> bool {
    0 <= c < SCREEN_W && 0 <= r < SCREEN_H
}

/// The pixel at column `c`, row `r` of a row-major panel image.
pub open spec fn pix(s: Seq<u16>, c: int, r: int) -> u16 {
    s[r * SCREEN_W + c]
}

pub struct Framebuffer {
    px: Vec<u16>,
    /* first row drawing may touch, and one past the last */
    clip_y0: i32,
    clip_y1: i32,
}

/// RGB565 for an 8-bit gray level.
pub open spec fn gray565_spec(g: u8) -> u16 {
    (((g as u16) >> 3u16) << 11u16) | (((g as u16) >> 2u16) << 5u16) | ((g as u16) >> 3u16)
}

/// RGB565 for an 8-bit gray level (5/6/5 bits of the same level).
pub fn gray_to_565(g: u8) -> (c: u16)
    ensures
        c == gray565_spec(g),
{
    let g = g as u16;
    ((g >> 3u16) << 11u16) | ((g >> 2u16) << 5u16) | (g >> 3u16)
}

/// The 8-bit luminance of an RGB565 pixel, taken from its green channel.
pub open spec fn lum565_spec(c: u16) -> u8 {
    ((((c >> 5u16) & 0x3Fu16) as int) * 255 / 63) as u8
}

pub fn lum_of_565(c: u16) -> (l: u8)
    ensures
        l == lum565_spec(c),
{
    let g = (c >> 5u16) & 0x3Fu16;
    assert(g <= 0x3F) by (bit_vector)
        requires
            g == (c >> 5u16) & 0x3Fu16,
    ;
    ((g as u32) * 255 / 63) as u8
}

impl Framebuffer {
    /// Sizes and clip band are consistent.
    pub open spec fn wf(&self) -> bool {
        &&& self.view_px().len() == npix()
        &&& 0 <= self.clip0()
        &&& self.clip1() <= SCREEN_H
    }

    /// First row drawing may touch.
    pub closed spec fn clip0(&self) -> int {
        self.clip_y0 as int
    }

    /// One past the last row drawing may touch.
    pub closed spec fn clip1(&self) -> int {
        self.clip_y1 as int
    }

    /// The panel image, row major.
    pub closed spec fn view_px(&self) -> Seq<u16> {
        self.px@
    }

    /// Is (c, r) inside the panel and the clip band?
    pub open spec fn visible(&self, c: int, r: int) -> bool {
        0 <= c < SCREEN_W && self.clip0() <= r < self.clip1()
    }

    /// A panel filled with one color and no clipping.
    pub fn new(fill: u16) -> (fb: Framebuffer)
        ensures
            fb.wf(),
            fb.clip0() == 0,
            fb.clip1() == SCREEN_H,
            forall|i: int| 0 <= i < npix() ==> #[trigger] fb.view_px()[i] == fill,
    {
        let mut px: Vec<u16> = Vec::new();
        let n: usize = 1404 * 1872;
        while px.len() < n
            invariant
                px@.len() <= n,
                n == npix(),
                forall|i: int| 0 <= i < px@.len() ==> #[trigger] px@[i] == fill,
            decreases n - px.len(),
        {
            px.push(fill);
        }
        Framebuffer { px, clip_y0: 0, clip_y1: SCREEN_H }
    }

    /// Read-only access to the pixels (row major).
    pub fn pixels(&self) -> (p: &Vec<u16>)
        ensures
            p@ == self.view_px(),
    {
        &self.px
    }

    /// Restrict all drawing to rows `y0..y1` (the panel stays the x bound).
    pub fn set_clip(&mut self, y0: i32, y1: i32)
        requires
            old(self).wf(),
        ensures
            final(self).wf(),
            final(self).clip0() == max_spec(y0 as int, 0),
            final(self).clip1() == min_spec(y1 as int, SCREEN_H as int),
            final(self).view_px() == old(self).view_px(),
    {
        self.clip_y0 = if y0 >= 0 { y0 } else { 0 };
        self.clip_y1 = if y1 <= SCREEN_H { y1 } else { SCREEN_H };
    }

    /// Drop the clip band: the whole panel is drawable again.
    pub fn clear_clip(&mut self)
        requires
            old(self).wf(),
        ensures
            final(self).wf(),
            final(self).clip0() == 0,
            final(self).clip1() == SCREEN_H,
            final(self).view_px() == old(self).view_px(),
    {
        self.clip_y0 = 0;
        self.clip_y1 = SCREEN_H;
    }

    /// Set one pixel, if it is on the panel and inside the clip band.
    pub fn px(&mut self, x: i32, y: i32, c: u16)
        requires
            old(self).wf(),
        ensures
            final(self).wf(),
            final(self).clip0() == old(self).clip0(),
            final(self).clip1() == old(self).clip1(),
            final(self).view_px() == if old(self).visible(x as int, y as int) {
                old(self).view_px().update(y * SCREEN_W + x, c)
            } else {
                old(self).view_px()
            },
    {
        if 0 <= x && x < SCREEN_W && y >= self.clip_y0 && y < self.clip_y1 {
            let idx = (y as usize) * 1404 + (x as usize);
            self.px.set(idx, c);
        }
    }

    /// Fill the rectangle of `w` x `h` pixels at (x, y), clipped to the
    /// panel and the clip band.
    pub fn fill_rect(&mut self, x: i32, y: i32, w: i32, h: i32, c: u16)
        requires
            old(self).wf(),
        ensures
            final(self).wf(),
            final(self).clip0() == old(self).clip0(),
            final(self).clip1() == old(self).clip1(),
            forall|cc: int, r: int|
                on_screen(cc, r) ==> #[trigger] pix(final(self).view_px(), cc, r) == if old(
                    self,
                ).visible(cc, r) && x <= cc < x + w && y <= r < y + h {
                    c
                } else {
                    pix(old(self).view_px(), cc, r)
                },
    {
        let ghost old_px = self.px@;
        let xe: i64 = x as i64 + w as i64;
        let ye: i64 = y as i64 + h as i64;
        let x0: i64 = if x >= 0 { x as i64 } else { 0 };
        let x1: i64 = if xe <= 1404 { xe } else { 1404 };
        let y0: i64 = if y >= self.clip_y0 { y as i64 } else { self.clip_y0 as i64 };
        let y1: i64 = if ye <= self.clip_y1 as i64 { ye } else { self.clip_y1 as i64 };
        if x0 >= x1 {
            return;
        }
        let mut row: i64 = y0;
        while row < y1
            invariant
                self.wf(),
                self.clip_y0 == old(self).clip0(),
                self.clip_y1 == old(self).clip1(),
                old_px == old(self).px@,
                0 <= x0 < x1 <= SCREEN_W,
                self.clip_y0 <= y0,
                y1 <= self.clip_y1,
                y0 <= row,
                row == y0 || row <= y1,
                x0 == max_spec(x as int, 0),
                x1 == min_spec(x + w, SCREEN_W as int),
                y0 == max_spec(y as int, self.clip_y0 as int),
                y1 == min_spec(y + h, self.clip_y1 as int),
                forall|cc: int, r: int|
                    on_screen(cc, r) ==> #[trigger] pix(self.px@, cc, r) == if y0 <= r < row && x0
                        <= cc < x1 {
                        c
                    } else {
                        pix(old_px, cc, r)
                    },
            decreases y1 - row,
        {
            let mut col: i64 = x0;
            while col < x1
                invariant
                    self.wf(),
                    self.clip_y0 == old(self).clip0(),
                    self.clip_y1 == old(self).clip1(),
                    0 <= x0 <= col <= x1 <= SCREEN_W,
                    0 <= y0 <= row < y1 <= SCREEN_H,
                    forall|cc: int, r: int|
                        on_screen(cc, r) ==> #[trigger] pix(self.px@, cc, r) == if (y0 <= r < row
                            && x0 <= cc < x1) || (r == row && x0 <= cc < col) {
                            c
                        } else {
                            pix(old_px, cc, r)
                        },
                decreases x1 - col,
            {
                let idx = (row as usize) * 1404 + (col as usize);
                let ghost before = self.px@;
                self.px.set(idx, c);
                assert forall|cc: int, r: int| on_screen(cc, r) implies #[trigger] pix(self.px@, cc, r)
                    == if (y0 <= r < row && x0 <= cc < x1) || (r == row && x0 <= cc < col + 1) {
                    c
                } else {
                    pix(old_px, cc, r)
                } by {
                    if r * SCREEN_W + cc == idx {
                        assert(r == row && cc == col);
                    } else {
                        assert(pix(self.px@, cc, r) == pix(before, cc, r));
                    }
                }
                col += 1;
            }
            row += 1;
        }
    }
}

/// Source row `j` of a `w`-wide bitmap lies inside a buffer of `len`.
pub open spec fn src_row_ok(j: int, w: int, len: int) -> bool {
    (j + 1) * w <= len
}

/// Is (c, r) inside the `w` x `h` box at (x, y)?
pub open spec fn in_box(c: int, r: int, x: int, y: int, w: int, h: int) -> bool {
    x <= c < x + w && y <= r < y + h
}

/// Is (c, r) on the disc of radius `rad` around (cx, cy)? (Empty for a
/// negative radius.)
pub open spec fn in_disc(c: int, r: int, cx: int, cy: int, rad: int) -> bool {
    -rad <= c - cx <= rad && -rad <= r - cy <= rad && (c - cx) * (c - cx) + (r - cy) * (r - cy)
        <= rad * rad
}

/// Darken an RGB565 pixel by 8-bit black coverage `a`: its green-channel
/// luminance scaled by `(255 - a) / 255`, written back as gray.
pub open spec fn blend565(p: u16, a: u8) -> u16 {
    let bg = (((p >> 5u16) & 0x3Fu16) as int) * 255 / 63;
    gray565_spec((bg * (255 - a) / 255) as u8)
}

proof fn lemma_row_index(r: int, c: int, row: int, col: int)
    requires
        0 <= c < SCREEN_W,
        0 <= col < SCREEN_W,
        r * SCREEN_W + c == row * SCREEN_W + col,
    ensures
        r == row && c == col,
{
}

impl Framebuffer {
    /// A `t`-pixel frame just inside the `w` x `h` box at (x, y).
    pub fn rect_outline(&mut self, x: i32, y: i32, w: i32, h: i32, t: i32, c: u16)
        requires
            old(self).wf(),
            i32::MIN <= y + h - t <= i32::MAX,
            i32::MIN <= y + h <= i32::MAX,
            i32::MIN <= x + w - t <= i32::MAX,
            i32::MIN <= x + w <= i32::MAX,
        ensures
            final(self).wf(),
            final(self).clip0() == old(self).clip0(),
            final(self).clip1() == old(self).clip1(),
            forall|cc: int, r: int|
                on_screen(cc, r) ==> #[trigger] pix(final(self).view_px(), cc, r) == if old(
                    self,
                ).visible(cc, r) && (in_box(cc, r, x as int, y as int, w as int, t as int)
                    || in_box(cc, r, x as int, y + h - t, w as int, t as int) || in_box(
                    cc,
                    r,
                    x as int,
                    y as int,
                    t as int,
                    h as int,
                ) || in_box(cc, r, x + w - t, y as int, t as int, h as int)) {
                    c
                } else {
                    pix(old(self).view_px(), cc, r)
                },
    {
        self.fill_rect(x, y, w, t, c);
        self.fill_rect(x, y + h - t, w, t, c);
        self.fill_rect(x, y, t, h, c);
        self.fill_rect(x + w - t, y, t, h, c);
    }

    /// A filled disc of radius `r` around (cx, cy), clipped.
    pub fn disc(&mut self, cx: i32, cy: i32, r: i32, c: u16)
        requires
            old(self).wf(),
            r < 32768,
            r < 0 || (i32::MIN <= cx - r && cx + r <= i32::MAX && i32::MIN <= cy - r && cy + r
                <= i32::MAX),
        ensures
            final(self).wf(),
            final(self).clip0() == old(self).clip0(),
            final(self).clip1() == old(self).clip1(),
            forall|cc: int, rr: int|
                on_screen(cc, rr) ==> #[trigger] pix(final(self).view_px(), cc, rr) == if old(
                    self,
                ).visible(cc, rr) && in_disc(cc, rr, cx as int, cy as int, r as int) {
                    c
                } else {
                    pix(old(self).view_px(), cc, rr)
                },
    {
        let ghost old_px = self.view_px();
        if r < 0 {
            return;
        }
        let mut j: i32 = -r;
        while j <= r
            invariant
                self.wf(),
                self.clip0() == old(self).clip0(),
                self.clip1() == old(self).clip1(),
                old_px == old(self).view_px(),
                0 <= r < 32768,
                -r <= j <= r + 1,
                i32::MIN <= cx - r && cx + r <= i32::MAX && i32::MIN <= cy - r && cy + r <= i32::MAX,
                forall|cc: int, rr: int|
                    on_screen(cc, rr) ==> #[trigger] pix(self.view_px(), cc, rr) == if self.visible(
                        cc,
                        rr,
                    ) && in_disc(cc, rr, cx as int, cy as int, r as int) && rr - cy < j {
                        c
                    } else {
                        pix(old_px, cc, rr)
                    },
            decreases r + 1 - j,
        {
            let mut i: i32 = -r;
            while i <= r
                invariant
                    self.wf(),
                    self.clip0() == old(self).clip0(),
                    self.clip1() == old(self).clip1(),
                    0 <= r < 32768,
                    -r <= j <= r,
                    -r <= i <= r + 1,
                    i32::MIN <= cx - r && cx + r <= i32::MAX && i32::MIN <= cy - r && cy + r
                        <= i32::MAX,
                    forall|cc: int, rr: int|
                        on_screen(cc, rr) ==> #[trigger] pix(self.view_px(), cc, rr) == if self.visible(
                            cc,
                            rr,
                        ) && in_disc(cc, rr, cx as int, cy as int, r as int) && (rr - cy < j || (rr
                            - cy == j && cc - cx < i)) {
                            c
                        } else {
                            pix(old_px, cc, rr)
                        },
                decreases r + 1 - i,
            {
                proof {
                    assert(i * i <= r * r) by (nonlinear_arith)
                        requires -r <= i <= r;
                    assert(j * j <= r * r) by (nonlinear_arith)
                        requires -r <= j <= r;
                    assert(r * r < 0x4000_0000) by (nonlinear_arith)
                        requires 0 <= r < 32768;
                    assert(i * i >= 0 && j * j >= 0) by (nonlinear_arith);
                }
                if i * i + j * j <= r * r {
                    let ghost before = self.view_px();
                    self.px(cx + i, cy + j, c);
                    assert forall|cc: int, rr: int| on_screen(cc, rr) implies #[trigger] pix(
                        self.view_px(),
                        cc,
                        rr,
                    ) == if self.visible(cc, rr) && in_disc(cc, rr, cx as int, cy as int, r as int)
                        && (rr - cy < j || (rr - cy == j && cc - cx < i + 1)) {
                        c
                    } else {
                        pix(old_px, cc, rr)
                    } by {
                        if self.visible(cx + i, cy + j) && rr * SCREEN_W + cc == (cy + j) * SCREEN_W
                            + (cx + i) {
                            lemma_row_index(rr, cc, cy + j, cx + i);
                        } else {
                            assert(pix(self.view_px(), cc, rr) == pix(before, cc, rr));
                        }
                    }
                } else {
                    assert forall|cc: int, rr: int| on_screen(cc, rr) implies #[trigger] pix(
                        self.view_px(),
                        cc,
                        rr,
                    ) == if self.visible(cc, rr) && in_disc(cc, rr, cx as int, cy as int, r as int)
                        && (rr - cy < j || (rr - cy == j && cc - cx < i + 1)) {
                        c
                    } else {
                        pix(old_px, cc, rr)
                    } by {
                        if rr - cy == j && cc - cx == i {
                            assert(!in_disc(cc, rr, cx as int, cy as int, r as int));
                        }
                    }
                }
                i += 1;
            }
            j += 1;
        }
    }

    /// Copy an 8-bit grayscale image (row major, `w` wide) to (x, y) as
    /// RGB565, clipped. Rows outside the clip band are not read.
    pub fn blit_gray(&mut self, x: i32, y: i32, w: i32, h: i32, gray: &[u8])
        requires
            old(self).wf(),
            forall|j: int|
                0 <= j < h && old(self).clip0() <= y + j < old(self).clip1() && w > 0
                    ==> #[trigger] src_row_ok(j, w as int, gray@.len() as int),
        ensures
            final(self).wf(),
            final(self).clip0() == old(self).clip0(),
            final(self).clip1() == old(self).clip1(),
            forall|cc: int, rr: int|
                on_screen(cc, rr) ==> #[trigger] pix(final(self).view_px(), cc, rr) == if old(
                    self,
                ).visible(cc, rr) && in_box(cc, rr, x as int, y as int, w as int, h as int) {
                    gray565_spec(gray@[(rr - y) * w + (cc - x)])
                } else {
                    pix(old(self).view_px(), cc, rr)
                },
    {
        let ghost old_px = self.view_px();
        let mut j: i32 = 0;
        while j < h
            invariant
                self.wf(),
                self.clip0() == old(self).clip0(),
                self.clip1() == old(self).clip1(),
                old_px == old(self).view_px(),
                0 <= j,
                j <= h || (h < 0 && j == 0),
                forall|jj: int|
                    0 <= jj < h && self.clip0() <= y + jj < self.clip1() && w > 0
                        ==> #[trigger] src_row_ok(jj, w as int, gray@.len() as int),
                forall|cc: int, rr: int|
                    on_screen(cc, rr) ==> #[trigger] pix(self.view_px(), cc, rr) == if self.visible(
                        cc,
                        rr,
                    ) && in_box(cc, rr, x as int, y as int, w as int, j as int) {
                        gray565_spec(gray@[(rr - y) * w + (cc - x)])
                    } else {
                        pix(old_px, cc, rr)
                    },
            decreases h - j,
        {
            let sy: i64 = y as i64 + j as i64;
            if sy >= self.clip_y0 as i64 && sy < self.clip_y1 as i64 {
                assert(w > 0 ==> src_row_ok(j as int, w as int, gray@.len() as int));
                let mut i: i32 = 0;
                while i < w
                    invariant
                        self.wf(),
                        self.clip0() == old(self).clip0(),
                        self.clip1() == old(self).clip1(),
                        0 <= j < h,
                        0 <= i,
                        i <= w || (w <= 0 && i == 0),
                        sy == y + j,
                        self.clip0() <= sy < self.clip1(),
                        w > 0 ==> (j + 1) * w <= gray@.len(),
                        forall|cc: int, rr: int|
                            on_screen(cc, rr) ==> #[trigger] pix(self.view_px(), cc, rr) == if self.visible(
                                cc,
                                rr,
                            ) && (in_box(cc, rr, x as int, y as int, w as int, j as int) || (rr
                                == sy && x <= cc < x + i)) {
                                gray565_spec(gray@[(rr - y) * w + (cc - x)])
                            } else {
                                pix(old_px, cc, rr)
                            },
                    decreases w - i,
                {
                    proof {
                        assert(j * w + i < (j + 1) * w) by (nonlinear_arith)
                            requires 0 <= i < w;
                        assert(0 <= j * w) by (nonlinear_arith)
                            requires 0 <= j, 0 <= w;
                        assert(j * w + i < gray@.len());
                        assert(j * w <= 0x4000_0000_0000_0000) by (nonlinear_arith)
                            requires 0 <= j < 0x8000_0000, 0 <= w < 0x8000_0000;
                    }
                    let k: usize = (j as i64 * w as i64 + i as i64) as usize;
                    let g = gray[k];
                    let c = gray_to_565(g);
                    let ghost before = self.view_px();
                    let xi: i64 = x as i64 + i as i64;
                    if xi >= 0 && xi < 1404 {
                        self.px(xi as i32, sy as i32, c);
                    }
                    assert forall|cc: int, rr: int| on_screen(cc, rr) implies #[trigger] pix(
                        self.view_px(),
                        cc,
                        rr,
                    ) == if self.visible(cc, rr) && (in_box(cc, rr, x as int, y as int, w as int, j as int)
                        || (rr == sy && x <= cc < x + i + 1)) {
                        gray565_spec(gray@[(rr - y) * w + (cc - x)])
                    } else {
                        pix(old_px, cc, rr)
                    } by {
                        if rr == sy && cc == xi {
                            assert((rr - y) * w + (cc - x) == j * w + i);
                        } else if 0 <= xi < SCREEN_W && rr * SCREEN_W + cc == sy * SCREEN_W + xi {
                            lemma_row_index(rr, cc, sy as int, xi as int);
                        } else {
                            assert(pix(self.view_px(), cc, rr) == pix(before, cc, rr));
                        }
                    }
                    i += 1;
                }
            }
            j += 1;
        }
    }

    /// Blend an 8-bit coverage bitmap (`w` wide) as black over the current
    /// contents at (x, y): coverage 0 leaves a pixel alone, 255 makes it
    /// black, partial coverage darkens whatever is there. Rows outside the
    /// clip band are not read.
    pub fn blend_black(&mut self, x: i32, y: i32, w: i32, h: i32, cov: &[u8])
        requires
            old(self).wf(),
            forall|j: int|
                0 <= j < h && old(self).clip0() <= y + j < old(self).clip1() && w > 0
                    ==> #[trigger] src_row_ok(j, w as int, cov@.len() as int),
        ensures
            final(self).wf(),
            final(self).clip0() == old(self).clip0(),
            final(self).clip1() == old(self).clip1(),
            forall|cc: int, rr: int|
                on_screen(cc, rr) ==> #[trigger] pix(final(self).view_px(), cc, rr) == if old(
                    self,
                ).visible(cc, rr) && in_box(cc, rr, x as int, y as int, w as int, h as int) && cov@[(rr
                    - y) * w + (cc - x)] != 0 {
                    blend565(pix(old(self).view_px(), cc, rr), cov@[(rr - y) * w + (cc - x)])
                } else {
                    pix(old(self).view_px(), cc, rr)
                },
    {
        let ghost old_px = self.view_px();
        let mut row: i32 = 0;
        while row < h
            invariant
                self.wf(),
                self.clip0() == old(self).clip0(),
                self.clip1() == old(self).clip1(),
                old_px == old(self).view_px(),
                0 <= row,
                row <= h || (h < 0 && row == 0),
                forall|jj: int|
                    0 <= jj < h && self.clip0() <= y + jj < self.clip1() && w > 0
                        ==> #[trigger] src_row_ok(jj, w as int, cov@.len() as int),
                forall|cc: int, rr: int|
                    on_screen(cc, rr) ==> #[trigger] pix(self.view_px(), cc, rr) == if self.visible(
                        cc,
                        rr,
                    ) && in_box(cc, rr, x as int, y as int, w as int, row as int) && cov@[(rr - y)
                        * w + (cc - x)] != 0 {
                        blend565(pix(old_px, cc, rr), cov@[(rr - y) * w + (cc - x)])
                    } else {
                        pix(old_px, cc, rr)
                    },
            decreases h - row,
        {
            let py: i64 = y as i64 + row as i64;
            if py >= self.clip_y0 as i64 && py < self.clip_y1 as i64 {
                assert(w > 0 ==> src_row_ok(row as int, w as int, cov@.len() as int));
                let mut col: i32 = 0;
                while col < w
                    invariant
                        self.wf(),
                        self.clip0() == old(self).clip0(),
                        self.clip1() == old(self).clip1(),
                        0 <= row < h,
                        0 <= col,
                        col <= w || (w <= 0 && col == 0),
                        py == y + row,
                        self.clip0() <= py < self.clip1(),
                        w > 0 ==> (row + 1) * w <= cov@.len(),
                        forall|cc: int, rr: int|
                            on_screen(cc, rr) ==> #[trigger] pix(self.view_px(), cc, rr) == if self.visible(
                                cc,
                                rr,
                            ) && (in_box(cc, rr, x as int, y as int, w as int, row as int) || (rr
                                == py && x <= cc < x + col)) && cov@[(rr - y) * w + (cc - x)] != 0 {
                                blend565(pix(old_px, cc, rr), cov@[(rr - y) * w + (cc - x)])
                            } else {
                                pix(old_px, cc, rr)
                            },
                    decreases w - col,
                {
                    proof {
                        assert(row * w + col < (row + 1) * w) by (nonlinear_arith)
                            requires 0 <= col < w;
                        assert(0 <= row * w) by (nonlinear_arith)
                            requires 0 <= row, 0 <= w;
                        assert(row * w + col < cov@.len());
                        assert(row * w <= 0x4000_0000_0000_0000) by (nonlinear_arith)
                            requires 0 <= row < 0x8000_0000, 0 <= w < 0x8000_0000;
                    }
                    let k: usize = (row as i64 * w as i64 + col as i64) as usize;
                    let a = cov[k] as u32;
                    let sx: i64 = x as i64 + col as i64;
                    let ghost before = self.view_px();
                    if a != 0 && sx >= 0 && sx < 1404 {
                        let idx: usize = (py as usize) * 1404 + (sx as usize);
                        let p = self.px[idx];
                        let gch = (p >> 5u16) & 0x3Fu16;
                        assert(gch <= 0x3F) by (bit_vector)
                            requires gch == (p >> 5u16) & 0x3Fu16;
                        let bg = (gch as u32) * 255 / 63;
                        assert(bg <= 255) by (nonlinear_arith)
                            requires bg == (gch as u32) * 255 / 63, gch <= 63;
                        assert(bg * (255 - a) <= 65025) by (nonlinear_arith)
                            requires bg <= 255, a <= 255;
                        assert(bg * (255 - a) / 255 <= 255) by (nonlinear_arith)
                            requires bg * (255 - a) <= 65025;
                        let g = (bg * (255 - a) / 255) as u8;
                        let nc = gray_to_565(g);
                        assert(pix(before, sx as int, py as int) == p);
                        self.px.set(idx, nc);
                    }
                    assert forall|cc: int, rr: int| on_screen(cc, rr) implies #[trigger] pix(
                        self.view_px(),
                        cc,
                        rr,
                    ) == if self.visible(cc, rr) && (in_box(cc, rr, x as int, y as int, w as int, row as int)
                        || (rr == py && x <= cc < x + col + 1)) && cov@[(rr - y) * w + (cc - x)] != 0 {
                        blend565(pix(old_px, cc, rr), cov@[(rr - y) * w + (cc - x)])
                    } else {
                        pix(old_px, cc, rr)
                    } by {
                        if rr == py && cc == sx {
                            assert((rr - y) * w + (cc - x) == row * w + col);
                        } else if 0 <= sx < SCREEN_W && rr * SCREEN_W + cc == py * SCREEN_W + sx {
                            lemma_row_index(rr, cc, py as int, sx as int);
                        } else {
                            assert(pix(self.view_px(), cc, rr) == pix(before, cc, rr));
                        }
                    }
                    col += 1;
                }
            }
            row += 1;
        }
    }
}

/// The level a stroke actually stamps on screen: all ink is black except
/// near-white levels (the gray tag only matters in snapshots).
pub open spec fn screen_level(gray: u8) -> u8 {
    if gray < 250 {
        0
    } else {
        gray
    }
}

/// Stamp one disc of ink, darkest-wins: a pixel takes the ink color only
/// where the ink is darker than what is already there. Honours the clip
/// band.
pub fn stamp(fb: &mut Framebuffer, cx: i32, cy: i32, r: i32, gray: u8)
    requires
        old(fb).wf(),
        r < 32768,
        r < 0 || (i32::MIN <= cx - r && cx + r <= i32::MAX && i32::MIN <= cy - r && cy + r
            <= i32::MAX),
    ensures
        final(fb).wf(),
        final(fb).clip0() == old(fb).clip0(),
        final(fb).clip1() == old(fb).clip1(),
        forall|cc: int, rr: int|
            on_screen(cc, rr) ==> #[trigger] pix(final(fb).view_px(), cc, rr) == if old(fb).visible(
                cc,
                rr,
            ) && in_disc(cc, rr, cx as int, cy as int, r as int) && screen_level(gray)
                < lum565_spec(pix(old(fb).view_px(), cc, rr)) {
                gray565_spec(screen_level(gray))
            } else {
                pix(old(fb).view_px(), cc, rr)
            },
{
    let ghost old_px = fb.view_px();
    let g: u8 = if gray < 250 { 0 } else { gray };
    let c = gray_to_565(g);
    if r < 0 {
        return;
    }
    let mut j: i32 = -r;
    while j <= r
        invariant
            fb.wf(),
            fb.clip0() == old(fb).clip0(),
            fb.clip1() == old(fb).clip1(),
            old_px == old(fb).view_px(),
            g == screen_level(gray),
            c == gray565_spec(g),
            0 <= r < 32768,
            -r <= j <= r + 1,
            i32::MIN <= cx - r && cx + r <= i32::MAX && i32::MIN <= cy - r && cy + r <= i32::MAX,
            forall|cc: int, rr: int|
                on_screen(cc, rr) ==> #[trigger] pix(fb.view_px(), cc, rr) == if fb.visible(cc, rr)
                    && in_disc(cc, rr, cx as int, cy as int, r as int) && rr - cy < j && g
                    < lum565_spec(pix(old_px, cc, rr)) {
                    c
                } else {
                    pix(old_px, cc, rr)
                },
        decreases r + 1 - j,
    {
        let y = cy + j;
        if y >= fb.clip_y0 && y < fb.clip_y1 {
            let mut i: i32 = -r;
            while i <= r
                invariant
                    fb.wf(),
                    fb.clip0() == old(fb).clip0(),
                    fb.clip1() == old(fb).clip1(),
                    g == screen_level(gray),
                    c == gray565_spec(g),
                    0 <= r < 32768,
                    -r <= j <= r,
                    y == cy + j,
                    fb.clip0() <= y < fb.clip1(),
                    -r <= i <= r + 1,
                    i32::MIN <= cx - r && cx + r <= i32::MAX && i32::MIN <= cy - r && cy + r
                        <= i32::MAX,
                    forall|cc: int, rr: int|
                        on_screen(cc, rr) ==> #[trigger] pix(fb.view_px(), cc, rr) == if fb.visible(
                            cc,
                            rr,
                        ) && in_disc(cc, rr, cx as int, cy as int, r as int) && (rr - cy < j || (rr
                            - cy == j && cc - cx < i)) && g < lum565_spec(pix(old_px, cc, rr)) {
                            c
                        } else {
                            pix(old_px, cc, rr)
                        },
                decreases r + 1 - i,
            {
                proof {
                    assert(i * i <= r * r) by (nonlinear_arith)
                        requires -r <= i <= r;
                    assert(j * j <= r * r) by (nonlinear_arith)
                        requires -r <= j <= r;
                    assert(r * r < 0x4000_0000) by (nonlinear_arith)
                        requires 0 <= r < 32768;
                    assert(i * i >= 0 && j * j >= 0) by (nonlinear_arith);
                }
                let x = cx + i;
                let ghost before = fb.view_px();
                if x >= 0 && x < SCREEN_W && i * i + j * j <= r * r {
                    let idx: usize = (y as usize) * 1404 + (x as usize);
                    let cur = fb.px[idx];
                    assert(cur == pix(before, x as int, y as int));
                    assert(pix(before, x as int, y as int) == pix(old_px, x as int, y as int));
                    if g < lum_of_565(cur) {
                        fb.px.set(idx, c);
                    }
                }
                assert forall|cc: int, rr: int| on_screen(cc, rr) implies #[trigger] pix(
                    fb.view_px(),
                    cc,
                    rr,
                ) == if fb.visible(cc, rr) && in_disc(cc, rr, cx as int, cy as int, r as int) && (rr
                    - cy < j || (rr - cy == j && cc - cx < i + 1)) && g < lum565_spec(
                    pix(old_px, cc, rr),
                ) {
                    c
                } else {
                    pix(old_px, cc, rr)
                } by {
                    if rr == y && cc == x {
                    } else if 0 <= x < SCREEN_W && rr * SCREEN_W + cc == y * SCREEN_W + x {
                        lemma_row_index(rr, cc, y as int, x as int);
                    } else {
                        assert(pix(fb.view_px(), cc, rr) == pix(before, cc, rr));
                    }
                }
                i += 1;
            }
        }
        j += 1;
    }
}

/// Horizontal advance of one character of the 5x7 bitmap font, per unit
/// of scale.
pub const ADVANCE: i32 = 6;

/// Glyph height of the bitmap font, per unit of scale.
pub const CHAR_ROWS: i32 = 7;

/// Pixel width of `s` in the bitmap font at `scale`.
pub fn text_width(s: &str, scale: i32) -> (w: i32)
    requires
        s@.len() * ADVANCE * scale <= i32::MAX,
        s@.len() * ADVANCE * scale >= i32::MIN,
    ensures
        w == s@.len() * ADVANCE * scale,
{
    let n = crate::strs::chars_of(s).len();
    assert(n * 6 * scale == s@.len() * ADVANCE * scale);
    proof {
        assert(n < 0x8000_0000 || scale == 0) by (nonlinear_arith)
            requires n * 6 * scale <= i32::MAX, n * 6 * scale >= i32::MIN, n >= 0;
    }
    if scale == 0 {
        return 0;
    }
    (n as i64 * 6 * scale as i64) as i32
}

/// Is bit `row` of a glyph column set?
pub open spec fn glyph_bit(bits: u8, row: int) -> bool {
    (bits >> (row as u8)) & 1u8 == 1u8
}

/// Does cell (k, col, row) of the text (character k, glyph column col,
/// glyph row row) ink the pixel (c, r)?
pub open spec fn cell_inks(
    glyphs: Seq<[u8; 5]>,
    x: int,
    y: int,
    scale: int,
    k: int,
    col: int,
    row: int,
    c: int,
    r: int,
) -> bool {
    &&& 0 <= k < glyphs.len()
    &&& 0 <= col < 5
    &&& 0 <= row < 7
    &&& glyph_bit(glyphs[k]@[col], row)
    &&& in_box(c, r, x + k * ADVANCE * scale + col * scale, y + row * scale, scale, scale)
}

/// Cells strictly before (k0, col0, row0) in drawing order.
pub open spec fn cell_before(k: int, col: int, row: int, k0: int, col0: int, row0: int) -> bool {
    k < k0 || (k == k0 && col < col0) || (k == k0 && col == col0 && row < row0)
}

/// Is the pixel (c, r) inked by any cell drawn before (k0, col0, row0)?
pub open spec fn inked_before(
    glyphs: Seq<[u8; 5]>,
    x: int,
    y: int,
    scale: int,
    k0: int,
    col0: int,
    row0: int,
    c: int,
    r: int,
) -> bool {
    exists|k: int, col: int, row: int|
        cell_before(k, col, row, k0, col0, row0) && #[trigger] cell_inks(
            glyphs,
            x,
            y,
            scale,
            k,
            col,
            row,
            c,
            r,
        )
}

/// Is the pixel (c, r) inked by the text at all?
pub open spec fn text_inks(glyphs: Seq<[u8; 5]>, x: int, y: int, scale: int, c: int, r: int) -> bool {
    exists|k: int, col: int, row: int| #[trigger] cell_inks(glyphs, x, y, scale, k, col, row, c, r)
}

proof fn lemma_inked_step(
    glyphs: Seq<[u8; 5]>,
    x: int,
    y: int,
    scale: int,
    k0: int,
    col0: int,
    row0: int,
    c: int,
    r: int,
)
    requires
        0 <= row0 < 7,
    ensures
        inked_before(glyphs, x, y, scale, k0, col0, row0 + 1, c, r) == (inked_before(
            glyphs,
            x,
            y,
            scale,
            k0,
            col0,
            row0,
            c,
            r,
        ) || cell_inks(glyphs, x, y, scale, k0, col0, row0, c, r)),
{
    if inked_before(glyphs, x, y, scale, k0, col0, row0 + 1, c, r) {
        let (k, col, row) = choose|k: int, col: int, row: int|
            cell_before(k, col, row, k0, col0, row0 + 1) && #[trigger] cell_inks(
                glyphs,
                x,
                y,
                scale,
                k,
                col,
                row,
                c,
                r,
            );
        if !(k == k0 && col == col0 && row == row0) {
            assert(cell_before(k, col, row, k0, col0, row0));
        }
    }
    if cell_inks(glyphs, x, y, scale, k0, col0, row0, c, r) {
        assert(cell_before(k0, col0, row0, k0, col0, row0 + 1));
    }
}

proof fn lemma_inked_next_col(
    glyphs: Seq<[u8; 5]>,
    x: int,
    y: int,
    scale: int,
    k0: int,
    col0: int,
    c: int,
    r: int,
)
    ensures
        inked_before(glyphs, x, y, scale, k0, col0, 7, c, r) == inked_before(
            glyphs,
            x,
            y,
            scale,
            k0,
            col0 + 1,
            0,
            c,
            r,
        ),
{
    if inked_before(glyphs, x, y, scale, k0, col0 + 1, 0, c, r) {
        let (k, col, row) = choose|k: int, col: int, row: int|
            cell_before(k, col, row, k0, col0 + 1, 0) && #[trigger] cell_inks(
                glyphs,
                x,
                y,
                scale,
                k,
                col,
                row,
                c,
                r,
            );
        assert(cell_before(k, col, row, k0, col0, 7));
    }
    if inked_before(glyphs, x, y, scale, k0, col0, 7, c, r) {
        let (k, col, row) = choose|k: int, col: int, row: int|
            cell_before(k, col, row, k0, col0, 7) && #[trigger] cell_inks(
                glyphs,
                x,
                y,
                scale,
                k,
                col,
                row,
                c,
                r,
            );
        assert(cell_before(k, col, row, k0, col0 + 1, 0));
    }
}

proof fn lemma_inked_next_char(
    glyphs: Seq<[u8; 5]>,
    x: int,
    y: int,
    scale: int,
    k0: int,
    c: int,
    r: int,
)
    ensures
        inked_before(glyphs, x, y, scale, k0, 5, 0, c, r) == inked_before(
            glyphs,
            x,
            y,
            scale,
            k0 + 1,
            0,
            0,
            c,
            r,
        ),
{
    if inked_before(glyphs, x, y, scale, k0 + 1, 0, 0, c, r) {
        let (k, col, row) = choose|k: int, col: int, row: int|
            cell_before(k, col, row, k0 + 1, 0, 0) && #[trigger] cell_inks(
                glyphs,
                x,
                y,
                scale,
                k,
                col,
                row,
                c,
                r,
            );
        assert(cell_before(k, col, row, k0, 5, 0));
    }
    if inked_before(glyphs, x, y, scale, k0, 5, 0, c, r) {
        let (k, col, row) = choose|k: int, col: int, row: int|
            cell_before(k, col, row, k0, 5, 0) && #[trigger] cell_inks(
                glyphs,
                x,
                y,
                scale,
                k,
                col,
                row,
                c,
                r,
            );
        assert(cell_before(k, col, row, k0 + 1, 0, 0));
    }
}

impl Framebuffer {
    /// Draw one line of bitmap-font text at (x, y), `scale` pixels per
    /// font dot, from the glyph columns of its characters (5 columns of 7
    /// bits each, bit 0 on top). Returns the advance width.
    pub fn text(&mut self, x: i32, y: i32, glyphs: &[[u8; 5]], scale: i32, c: u16) -> (adv: i32)
        requires
            old(self).wf(),
            -0x2000_0000 <= x <= 0x2000_0000,
            -0x2000_0000 <= y <= 0x2000_0000,
            -0x2000_0000 <= glyphs@.len() * ADVANCE * scale <= 0x2000_0000,
            -0x2000_0000 <= CHAR_ROWS * scale <= 0x2000_0000,
        ensures
            final(self).wf(),
            final(self).clip0() == old(self).clip0(),
            final(self).clip1() == old(self).clip1(),
            adv == glyphs@.len() * ADVANCE * scale,
            forall|cc: int, rr: int|
                on_screen(cc, rr) ==> #[trigger] pix(final(self).view_px(), cc, rr) == if old(
                    self,
                ).visible(cc, rr) && text_inks(glyphs@, x as int, y as int, scale as int, cc, rr) {
                    c
                } else {
                    pix(old(self).view_px(), cc, rr)
                },
    {
        let ghost old_px = self.view_px();
        let ghost gs = glyphs@;
        let n = glyphs.len();
        let band = (y as i64) < self.clip_y1 as i64 && (y as i64 + 7 * scale as i64)
            > self.clip_y0 as i64;
        let mut k: usize = 0;
        let mut cx: i64 = x as i64;
        assert(0 * ADVANCE * scale == 0) by (nonlinear_arith);
        while k < n
            invariant
                self.wf(),
                self.clip0() == old(self).clip0(),
                self.clip1() == old(self).clip1(),
                old_px == old(self).view_px(),
                gs == glyphs@,
                n == glyphs@.len(),
                k <= n,
                cx == x + k * ADVANCE * scale,
                -0x2000_0000 <= x <= 0x2000_0000,
                -0x2000_0000 <= y <= 0x2000_0000,
                -0x2000_0000 <= n * ADVANCE * scale <= 0x2000_0000,
                -0x2000_0000 <= CHAR_ROWS * scale <= 0x2000_0000,
                band == (y < self.clip1() && y + 7 * scale > self.clip0()),
                forall|cc: int, rr: int|
                    on_screen(cc, rr) ==> #[trigger] pix(self.view_px(), cc, rr) == if self.visible(
                        cc,
                        rr,
                    ) && inked_before(gs, x as int, y as int, scale as int, k as int, 0, 0, cc, rr) {
                        c
                    } else {
                        pix(old_px, cc, rr)
                    },
            decreases n - k,
        {
            proof {
                assert(-0x2000_0000 <= k * ADVANCE * scale <= 0x2000_0000) by (nonlinear_arith)
                    requires
                        0 <= k < n,
                        -0x2000_0000 <= n * ADVANCE * scale <= 0x2000_0000,
                ;
            }
            let mut col: usize = 0;
            while col < 5
                invariant
                    self.wf(),
                    self.clip0() == old(self).clip0(),
                    self.clip1() == old(self).clip1(),
                    gs == glyphs@,
                    n == glyphs@.len(),
                    k < n,
                    col <= 5,
                    cx == x + k * ADVANCE * scale,
                    -0x2000_0000 <= x <= 0x2000_0000,
                    -0x2000_0000 <= y <= 0x2000_0000,
                    -0x2000_0000 <= k * ADVANCE * scale <= 0x2000_0000,
                    -0x2000_0000 <= CHAR_ROWS * scale <= 0x2000_0000,
                    band == (y < self.clip1() && y + 7 * scale > self.clip0()),
                    forall|cc: int, rr: int|
                        on_screen(cc, rr) ==> #[trigger] pix(self.view_px(), cc, rr) == if self.visible(
                            cc,
                            rr,
                        ) && inked_before(
                            gs,
                            x as int,
                            y as int,
                            scale as int,
                            k as int,
                            col as int,
                            0,
                            cc,
                            rr,
                        ) {
                            c
                        } else {
                            pix(old_px, cc, rr)
                        },
                decreases 5 - col,
            {
                let bits = glyphs[k][col];
                let mut row: i32 = 0;
                while row < 7
                    invariant
                        self.wf(),
                        self.clip0() == old(self).clip0(),
                        self.clip1() == old(self).clip1(),
                        gs == glyphs@,
                        n == glyphs@.len(),
                        k < n,
                        col < 5,
                        0 <= row <= 7,
                        bits == glyphs@[k as int][col as int],
                        cx == x + k * ADVANCE * scale,
                        -0x2000_0000 <= x <= 0x2000_0000,
                        -0x2000_0000 <= y <= 0x2000_0000,
                        -0x2000_0000 <= k * ADVANCE * scale <= 0x2000_0000,
                        -0x2000_0000 <= CHAR_ROWS * scale <= 0x2000_0000,
                        band == (y < self.clip1() && y + 7 * scale > self.clip0()),
                        forall|cc: int, rr: int|
                            on_screen(cc, rr) ==> #[trigger] pix(self.view_px(), cc, rr) == if self.visible(
                                cc,
                                rr,
                            ) && inked_before(
                                gs,
                                x as int,
                                y as int,
                                scale as int,
                                k as int,
                                col as int,
                                row as int,
                                cc,
                                rr,
                            ) {
                                c
                            } else {
                                pix(old_px, cc, rr)
                            },
                    decreases 7 - row,
                {
                    proof {
                        assert(-0x2000_0000 <= col * scale <= 0x2000_0000) by (nonlinear_arith)
                            requires
                                0 <= col < 5,
                                -0x2000_0000 <= CHAR_ROWS * scale <= 0x2000_0000,
                        ;
                        assert(-0x2000_0000 <= row * scale <= 0x2000_0000) by (nonlinear_arith)
                            requires
                                0 <= row < 7,
                                -0x2000_0000 <= CHAR_ROWS * scale <= 0x2000_0000,
                        ;
                    }
                    let ghost before = self.view_px();
                    let set = (bits >> (row as u8)) & 1u8 == 1u8;
                    let bx: i32 = (cx + col as i64 * scale as i64) as i32;
                    let by: i32 = y + row * scale;
                    if band && set {
                        self.fill_rect(bx, by, scale, scale, c);
                    }
                    assert forall|cc: int, rr: int| on_screen(cc, rr) implies #[trigger] pix(
                        self.view_px(),
                        cc,
                        rr,
                    ) == if self.visible(cc, rr) && inked_before(
                        gs,
                        x as int,
                        y as int,
                        scale as int,
                        k as int,
                        col as int,
                        row + 1,
                        cc,
                        rr,
                    ) {
                        c
                    } else {
                        pix(old_px, cc, rr)
                    } by {
                        lemma_inked_step(
                            gs,
                            x as int,
                            y as int,
                            scale as int,
                            k as int,
                            col as int,
                            row as int,
                            cc,
                            rr,
                        );
                        if !band && self.visible(cc, rr) && cell_inks(
                            gs,
                            x as int,
                            y as int,
                            scale as int,
                            k as int,
                            col as int,
                            row as int,
                            cc,
                            rr,
                        ) {
                            assert(false) by (nonlinear_arith)
                                requires
                                    !(y < self.clip1() && y + 7 * scale > self.clip0()),
                                    self.clip0() <= rr < self.clip1(),
                                    y + row * scale <= rr < y + row * scale + scale,
                                    0 <= row < 7,
                            ;
                        }
                    }
                    row += 1;
                }
                assert forall|cc: int, rr: int| on_screen(cc, rr) implies #[trigger] pix(
                    self.view_px(),
                    cc,
                    rr,
                ) == if self.visible(cc, rr) && inked_before(
                    gs,
                    x as int,
                    y as int,
                    scale as int,
                    k as int,
                    col + 1,
                    0,
                    cc,
                    rr,
                ) {
                    c
                } else {
                    pix(old_px, cc, rr)
                } by {
                    lemma_inked_next_col(gs, x as int, y as int, scale as int, k as int, col as int, cc, rr);
                }
                col += 1;
            }
            assert forall|cc: int, rr: int| on_screen(cc, rr) implies #[trigger] pix(
                self.view_px(),
                cc,
                rr,
            ) == if self.visible(cc, rr) && inked_before(
                gs,
                x as int,
                y as int,
                scale as int,
                k + 1,
                0,
                0,
                cc,
                rr,
            ) {
                c
            } else {
                pix(old_px, cc, rr)
            } by {
                lemma_inked_next_char(gs, x as int, y as int, scale as int, k as int, cc, rr);
            }
            proof {
                assert((k + 1) * ADVANCE * scale == k * ADVANCE * scale + 6 * scale) by (nonlinear_arith);
            }
            cx = cx + 6 * scale as i64;
            k += 1;
        }
        assert forall|cc: int, rr: int| on_screen(cc, rr) implies #[trigger] pix(
            self.view_px(),
            cc,
            rr,
        ) == if old(self).visible(cc, rr) && text_inks(gs, x as int, y as int, scale as int, cc, rr) {
            c
        } else {
            pix(old_px, cc, rr)
        } by {
            if text_inks(gs, x as int, y as int, scale as int, cc, rr) {
                let (kk, col, row) = choose|kk: int, col: int, row: int|
                    #[trigger] cell_inks(gs, x as int, y as int, scale as int, kk, col, row, cc, rr);
                assert(cell_before(kk, col, row, n as int, 0, 0));
            }
            if inked_before(gs, x as int, y as int, scale as int, n as int, 0, 0, cc, rr) {
                let (kk, col, row) = choose|kk: int, col: int, row: int|
                    cell_before(kk, col, row, n as int, 0, 0) && #[trigger] cell_inks(
                        gs,
                        x as int,
                        y as int,
                        scale as int,
                        kk,
                        col,
                        row,
                        cc,
                        rr,
                    );
            }
        }
        (cx - x as i64) as i32
    }
}

} // verus!
