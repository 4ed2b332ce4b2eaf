//! Lasso selection: capturing the pen-drawn loop, choosing the strokes
//! that lie wholly inside it, the selected strokes with the dashed ring
//! around them and a live drag offset, and the chip bar (DELETE / CUT)
//! above it. Loop points are in tenths of a pixel, like stroke samples.

use vstd::prelude::*;
use crate::geom::{Rect, SCREEN_W, SCREEN_H, clamp_i32, clamp_spec, min_spec, max_spec, trunc_div};
use crate::ink::{Owner, Page, PageV, Stroke, StrokeV, strokes_view, stroke_box, stroke_bbox, join_box, page_pts_ok, strokes_ok, pts_ok, COORD_LIM, ceil10};
use crate::fb::{Framebuffer, BLACK, on_screen, pix};

verus! {

/// Padding between the selected strokes and the ring.
pub const SEL_PAD: i32 = 12;

pub const DASH_ON: i32 = 8;

pub const DASH_OFF: i32 = 6;

pub const DASH_T: i32 = 2;

pub const CHIP_H: i32 = 64;

pub const CHIP_W: i32 = 170;

pub const CHIP_GAP: i32 = 10;

/// Number of chips in the bar.
pub const N_CHIPS: i32 = 2;

/// Width of the chip bar.
pub const CHIPS_W: i32 = N_CHIPS * CHIP_W + (N_CHIPS - 1) * CHIP_GAP;

#[derive(Clone, Copy, PartialEq, Eq, Structural, Debug)]
pub enum Chip {
    Delete,
    Cut,
}

/// An active selection: the strokes, their committed box, and a live drag
/// offset.
pub struct Selection {
    pub refs: Vec<(Owner, u64)>,
    /// Committed position (without the live offset).
    pub bbox: Rect,
    pub dx: i32,
    pub dy: i32,
    pub drag_from: Option<(i32, i32)>,
}

/// The ring (committed box moved by the offset, padded), as integers.
pub open spec fn ring_spec(s: Selection) -> (int, int, int, int) {
    (
        s.bbox.x0 + s.dx - SEL_PAD,
        s.bbox.y0 + s.dy - SEL_PAD,
        s.bbox.x1 + s.dx + SEL_PAD,
        s.bbox.y1 + s.dy + SEL_PAD,
    )
}

pub open spec fn fits_i32(v: int) -> bool {
    i32::MIN <= v <= i32::MAX
}

/// The ring's corners are `i32`s.
pub open spec fn ring_fits(s: Selection) -> bool {
    let r = ring_spec(s);
    fits_i32(r.0) && fits_i32(r.1) && fits_i32(r.2) && fits_i32(r.3)
}

/// Left edge of the chip bar: centred on the ring, kept 4 px inside the
/// panel.
pub open spec fn chips_x0(s: Selection) -> int {
    let r = ring_spec(s);
    clamp_spec(trunc_div(r.0 + r.2, 2) - CHIPS_W / 2, 4, SCREEN_W - CHIPS_W - 4)
}

/// Top of the chip bar: above the ring, or below it when there is no room
/// above.
pub open spec fn chips_y0(s: Selection) -> int {
    let r = ring_spec(s);
    if r.1 - CHIP_H - 14 >= 0 {
        r.1 - CHIP_H - 14
    } else {
        r.3 + 14
    }
}

/// The chip bar's corners are `i32`s.
pub open spec fn chips_fit(s: Selection) -> bool {
    ring_fits(s) && chips_y0(s) + CHIP_H <= i32::MAX
}

/// Chip `i` of the bar spans `[bx, bx + CHIP_W)` with `bx` this.
pub open spec fn chip_x(s: Selection, i: int) -> int {
    chips_x0(s) + i * (CHIP_W + CHIP_GAP)
}

/// The chip under (x, y), if any.
pub open spec fn chip_at_spec(s: Selection, x: int, y: int) -> Option<Chip> {
    if y < chips_y0(s) || y > chips_y0(s) + CHIP_H - 1 {
        None
    } else if chip_x(s, 0) <= x < chip_x(s, 0) + CHIP_W {
        Some(Chip::Delete)
    } else if chip_x(s, 1) <= x < chip_x(s, 1) + CHIP_W {
        Some(Chip::Cut)
    } else {
        None
    }
}

impl Selection {
    pub fn new(refs: Vec<(Owner, u64)>, bbox: Rect) -> (s: Selection)
        ensures
            s.refs@ == refs@,
            s.bbox == bbox,
            s.dx == 0,
            s.dy == 0,
            s.drag_from is None,
    {
        Selection { refs, bbox, dx: 0, dy: 0, drag_from: None }
    }

    /// The dashed ring's rectangle at the current drag offset.
    pub fn ring(&self) -> (r: Rect)
        requires
            ring_fits(*self),
        ensures
            (r.x0 as int, r.y0 as int, r.x1 as int, r.y1 as int) == ring_spec(*self),
    {
        let p = SEL_PAD as i64;
        Rect {
            x0: (self.bbox.x0 as i64 + self.dx as i64 - p) as i32,
            y0: (self.bbox.y0 as i64 + self.dy as i64 - p) as i32,
            x1: (self.bbox.x1 as i64 + self.dx as i64 + p) as i32,
            y1: (self.bbox.y1 as i64 + self.dy as i64 + p) as i32,
        }
    }

    /// Clamp a proposed drag offset so the ring stays on the panel.
    pub fn clamp_offset(&self, dx: i32, dy: i32) -> (o: (i32, i32))
        requires
            fits_i32(self.bbox.x0 - SEL_PAD),
            fits_i32(self.bbox.y0 - SEL_PAD),
            fits_i32(self.bbox.x1 + SEL_PAD),
            fits_i32(self.bbox.y1 + SEL_PAD),
            fits_i32(-(self.bbox.x0 - SEL_PAD)),
            fits_i32(-(self.bbox.y0 - SEL_PAD)),
            fits_i32(SCREEN_W - 1 - (self.bbox.x1 + SEL_PAD)),
            fits_i32(SCREEN_H - 1 - (self.bbox.y1 + SEL_PAD)),
            -(self.bbox.x0 - SEL_PAD) <= SCREEN_W - 1 - (self.bbox.x1 + SEL_PAD),
            -(self.bbox.y0 - SEL_PAD) <= SCREEN_H - 1 - (self.bbox.y1 + SEL_PAD),
        ensures
            o.0 == clamp_spec(
                dx as int,
                -(self.bbox.x0 - SEL_PAD),
                SCREEN_W - 1 - (self.bbox.x1 + SEL_PAD),
            ),
            o.1 == clamp_spec(
                dy as int,
                -(self.bbox.y0 - SEL_PAD),
                SCREEN_H - 1 - (self.bbox.y1 + SEL_PAD),
            ),
    {
        let r = self.bbox.pad(SEL_PAD);
        (
            clamp_i32(dx, -r.x0, SCREEN_W - 1 - r.x1),
            clamp_i32(dy, -r.y0, SCREEN_H - 1 - r.y1),
        )
    }

    /// The chip bar: above the ring, below it when the ring is too near
    /// the top.
    pub fn chips_rect(&self) -> (c: Rect)
        requires
            chips_fit(*self),
        ensures
            c.x0 == chips_x0(*self),
            c.y0 == chips_y0(*self),
            c.x1 == chips_x0(*self) + CHIPS_W - 1,
            c.y1 == chips_y0(*self) + CHIP_H - 1,
    {
        let r = self.ring();
        let w = CHIPS_W as i64;
        let mid: i64 = (r.x0 as i64 + r.x1 as i64) / 2;
        let want: i64 = mid - w / 2;
        let x0: i32 = if want < 4 {
            4
        } else if want > SCREEN_W as i64 - w - 4 {
            (SCREEN_W as i64 - w - 4) as i32
        } else {
            want as i32
        };
        let y0: i32 = if r.y0 as i64 - CHIP_H as i64 - 14 >= 0 {
            r.y0 - CHIP_H - 14
        } else {
            r.y1 + 14
        };
        assert(y0 == chips_y0(*self));
        Rect { x0, y0, x1: x0 + CHIPS_W - 1, y1: y0 + CHIP_H - 1 }
    }

    /// Everything the selection paints (ring strips and chips), for
    /// repaint and dismissal.
    pub fn chrome_rect(&self) -> (c: Rect)
        requires
            chips_fit(*self),
            fits_i32(ring_spec(*self).0 - (DASH_T + 2)),
            fits_i32(ring_spec(*self).1 - (DASH_T + 2)),
            fits_i32(ring_spec(*self).2 + (DASH_T + 2)),
            fits_i32(ring_spec(*self).3 + (DASH_T + 2)),
            fits_i32(chips_y0(*self) + CHIP_H - 1 + 4),
        ensures
            c.x0 == min_spec(ring_spec(*self).0 - 4, chips_x0(*self) - 4),
            c.y0 == min_spec(ring_spec(*self).1 - 4, chips_y0(*self) - 4),
            c.x1 == max_spec(ring_spec(*self).2 + 4, chips_x0(*self) + CHIPS_W - 1 + 4),
            c.y1 == max_spec(ring_spec(*self).3 + 4, chips_y0(*self) + CHIP_H - 1 + 4),
    {
        let a = self.ring().pad(DASH_T + 2);
        let b = self.chips_rect().pad(4);
        a.union(b)
    }

    /// The chip under a tap.
    pub fn chip_at(&self, x: i32, y: i32) -> (r: Option<Chip>)
        requires
            chips_fit(*self),
        ensures
            r == chip_at_spec(*self, x as int, y as int),
    {
        let c = self.chips_rect();
        if y < c.y0 || y > c.y1 {
            return None;
        }
        let bx = c.x0;
        if x >= bx && x < bx + CHIP_W {
            return Some(Chip::Delete);
        }
        let bx = bx + CHIP_W + CHIP_GAP;
        if x >= bx && x < bx + CHIP_W {
            return Some(Chip::Cut);
        }
        None
    }

    /// Is (x, y) on the ring or inside it?
    pub fn contains(&self, x: i32, y: i32) -> (b: bool)
        requires
            ring_fits(*self),
        ensures
            b == (ring_spec(*self).0 <= x <= ring_spec(*self).2 && ring_spec(*self).1 <= y
                <= ring_spec(*self).3),
    {
        let r = self.ring();
        x >= r.x0 && x <= r.x1 && y >= r.y0 && y <= r.y1
    }
}

/* ---- the dashed ring ----------------------------------------------------- */

/// Is column `c` on a dash of a dashed run starting at `a` (8 on, 6 off)?
pub open spec fn on_dash(c: int, a: int) -> bool {
    (c - a) % (DASH_ON + DASH_OFF) < DASH_ON
}

proof fn lemma_dash_phase(c: int, a: int, x: int, k: int)
    requires
        x == a + k * 14,
        k >= 0,
        x <= c < x + DASH_ON + DASH_OFF,
    ensures
        on_dash(c, a) == (c < x + DASH_ON),
{
    assert((c - a) % 14 == c - x) by (nonlinear_arith)
        requires
            c - a == k * 14 + (c - x),
            0 <= c - x < 14,
            k >= 0,
    ;
}

/// A dashed horizontal line, `DASH_T` thick, over columns `[x0, x1)` at
/// row `y`.
pub fn dash_h(fb: &mut Framebuffer, x0: i32, x1: i32, y: i32)
    requires
        old(fb).wf(),
    ensures
        final(fb).wf(),
        final(fb).clip0() == old(fb).clip0(),
        final(fb).clip1() == old(fb).clip1(),
        forall|cc: int, r: int|
            on_screen(cc, r) ==> #[trigger] pix(final(fb).view_px(), cc, r) == if old(fb).visible(
                cc,
                r,
            ) && x0 <= cc < x1 && y <= r < y + DASH_T && on_dash(cc, x0 as int) {
                BLACK
            } else {
                pix(old(fb).view_px(), cc, r)
            },
{
    let ghost start = fb.view_px();
    let mut x: i64 = x0 as i64;
    let ghost mut k: int = 0;
    while x < x1 as i64
        invariant
            fb.wf(),
            fb.clip0() == old(fb).clip0(),
            fb.clip1() == old(fb).clip1(),
            start == old(fb).view_px(),
            x == x0 + k * 14,
            k >= 0,
            forall|cc: int, r: int|
                on_screen(cc, r) ==> #[trigger] pix(fb.view_px(), cc, r) == if old(fb).visible(
                    cc,
                    r,
                ) && x0 <= cc < x1 && cc < x && y <= r < y + DASH_T && on_dash(cc, x0 as int) {
                    BLACK
                } else {
                    pix(start, cc, r)
                },
        decreases if x < x1 {
            x1 - x
        } else {
            0
        },
    {
        let seg: i64 = if x + DASH_ON as i64 <= x1 as i64 {
            x + DASH_ON as i64
        } else {
            x1 as i64
        };
        let ghost before = fb.view_px();
        fb.fill_rect(x as i32, y, (seg - x) as i32, DASH_T, BLACK);
        proof {
            assert forall|cc: int, r: int| on_screen(cc, r) implies #[trigger] pix(
                fb.view_px(),
                cc,
                r,
            ) == if old(fb).visible(cc, r) && x0 <= cc < x1 && cc < x + DASH_ON + DASH_OFF && y
                <= r < y + DASH_T && on_dash(cc, x0 as int) {
                BLACK
            } else {
                pix(start, cc, r)
            } by {
                if x <= cc < x + DASH_ON + DASH_OFF {
                    lemma_dash_phase(cc, x0 as int, x as int, k);
                }
            }
            k = k + 1;
        }
        x = x + (DASH_ON + DASH_OFF) as i64;
    }
}

/// A dashed vertical line, `DASH_T` thick, over rows `[y0, y1)` at
/// column `x`.
pub fn dash_v(fb: &mut Framebuffer, y0: i32, y1: i32, x: i32)
    requires
        old(fb).wf(),
    ensures
        final(fb).wf(),
        final(fb).clip0() == old(fb).clip0(),
        final(fb).clip1() == old(fb).clip1(),
        forall|cc: int, r: int|
            on_screen(cc, r) ==> #[trigger] pix(final(fb).view_px(), cc, r) == if old(fb).visible(
                cc,
                r,
            ) && y0 <= r < y1 && x <= cc < x + DASH_T && on_dash(r, y0 as int) {
                BLACK
            } else {
                pix(old(fb).view_px(), cc, r)
            },
{
    let ghost start = fb.view_px();
    let mut y: i64 = y0 as i64;
    let ghost mut k: int = 0;
    while y < y1 as i64
        invariant
            fb.wf(),
            fb.clip0() == old(fb).clip0(),
            fb.clip1() == old(fb).clip1(),
            start == old(fb).view_px(),
            y == y0 + k * 14,
            k >= 0,
            forall|cc: int, r: int|
                on_screen(cc, r) ==> #[trigger] pix(fb.view_px(), cc, r) == if old(fb).visible(
                    cc,
                    r,
                ) && y0 <= r < y1 && r < y && x <= cc < x + DASH_T && on_dash(r, y0 as int) {
                    BLACK
                } else {
                    pix(start, cc, r)
                },
        decreases if y < y1 {
            y1 - y
        } else {
            0
        },
    {
        let seg: i64 = if y + DASH_ON as i64 <= y1 as i64 {
            y + DASH_ON as i64
        } else {
            y1 as i64
        };
        fb.fill_rect(x, y as i32, DASH_T, (seg - y) as i32, BLACK);
        proof {
            assert forall|cc: int, r: int| on_screen(cc, r) implies #[trigger] pix(
                fb.view_px(),
                cc,
                r,
            ) == if old(fb).visible(cc, r) && y0 <= r < y1 && r < y + DASH_ON + DASH_OFF && x
                <= cc < x + DASH_T && on_dash(r, y0 as int) {
                BLACK
            } else {
                pix(start, cc, r)
            } by {
                if y <= r < y + DASH_ON + DASH_OFF {
                    lemma_dash_phase(r, y0 as int, y as int, k);
                }
            }
            k = k + 1;
        }
        y = y + (DASH_ON + DASH_OFF) as i64;
    }
}

/* ---- capturing the loop ------------------------------------------------------ */

/// Capture keeps a point only this far (tenths) from the previous one.
pub const LASSO_MIN_SEG: i32 = 40;

/// A loop needs this many points...
pub const LASSO_MIN_PTS: usize = 8;

/// ...and this extent (pixels) in one direction.
pub const LASSO_MIN_BOX: i32 = 20;

/// The pen-drawn loop while capturing, in tenths of a pixel.
#[derive(Debug)]
pub struct Lasso {
    pub pts: Vec<(i32, i32)>,
}

/// Loop points stay within the coordinate limit.
pub open spec fn loop_ok(pts: Seq<(i32, i32)>) -> bool {
    forall|k: int| 0 <= k < pts.len() ==> -COORD_LIM <= (#[trigger] pts[k]).0 <= COORD_LIM && -COORD_LIM <= pts[k].1 <= COORD_LIM
}

/// The pixel box of loop points: near edges rounded toward zero, far
/// edges up.
pub open spec fn loop_box(pts: Seq<(i32, i32)>) -> Rect
    decreases pts.len(),
{
    if pts.len() <= 1 {
        Rect {
            x0: trunc_div(pts[0].0 as int, 10) as i32,
            y0: trunc_div(pts[0].1 as int, 10) as i32,
            x1: ceil10(pts[0].0 as int) as i32,
            y1: ceil10(pts[0].1 as int) as i32,
        }
    } else {
        let b = loop_box(pts.drop_last());
        let (x, y) = pts.last();
        Rect {
            x0: min_spec(b.x0 as int, trunc_div(x as int, 10)) as i32,
            y0: min_spec(b.y0 as int, trunc_div(y as int, 10)) as i32,
            x1: max_spec(b.x1 as int, ceil10(x as int)) as i32,
            y1: max_spec(b.y1 as int, ceil10(y as int)) as i32,
        }
    }
}

fn box_of_point(x: i32, y: i32) -> (r: Rect)
    requires
        -COORD_LIM <= x <= COORD_LIM && -COORD_LIM <= y <= COORD_LIM,
    ensures
        r == (Rect { x0: trunc_div(x as int, 10) as i32, y0: trunc_div(y as int, 10) as i32, x1: ceil10(x as int) as i32, y1: ceil10(y as int) as i32 }),
{
    Rect {
        x0: x / 10,
        y0: y / 10,
        x1: if x >= 0 { (x + 9) / 10 } else { -((-x) / 10) },
        y1: if y >= 0 { (y + 9) / 10 } else { -((-y) / 10) },
    }
}

proof fn lemma_loop_box_range(pts: Seq<(i32, i32)>)
    requires
        pts.len() > 0,
        loop_ok(pts),
    ensures
        -COORD_LIM <= loop_box(pts).x0 <= loop_box(pts).x1 <= COORD_LIM,
        -COORD_LIM <= loop_box(pts).y0 <= loop_box(pts).y1 <= COORD_LIM,
    decreases pts.len(),
{
    if pts.len() > 1 {
        let pre = pts.drop_last();
        assert forall|k: int| 0 <= k < pre.len() implies -COORD_LIM <= (#[trigger] pre[k]).0 <= COORD_LIM && -COORD_LIM <= pre[k].1 <= COORD_LIM by {
            assert(pre[k] == pts[k]);
        }
        lemma_loop_box_range(pre);
        assert(-COORD_LIM <= pts[pts.len() - 1].0 <= COORD_LIM);
    } else {
        assert(-COORD_LIM <= pts[0].0 <= COORD_LIM);
    }
}

impl Lasso {
    pub fn new(x: i32, y: i32) -> (l: Lasso)
        ensures
            l.pts@ == seq![(x, y)],
    {
        let mut v: Vec<(i32, i32)> = Vec::new();
        v.push((x, y));
        Lasso { pts: v }
    }

    /// Keep a point when it moved far enough; returns the previous point
    /// (a trail segment to draw) when it was kept.
    pub fn extend(&mut self, x: i32, y: i32) -> (r: Option<(i32, i32)>)
        requires
            old(self).pts@.len() > 0,
        ensures
            ({
                let (px, py) = old(self).pts@.last();
                let far = max_spec(crate::touch::abs(x - px), crate::touch::abs(y - py)) >= LASSO_MIN_SEG;
                &&& far ==> r == Some((px, py)) && final(self).pts@ == old(self).pts@.push((x, y))
                &&& !far ==> r is None && final(self).pts@ == old(self).pts@
            }),
    {
        let n = self.pts.len();
        let (px, py) = self.pts[n - 1];
        let dx = x as i64 - px as i64;
        let dy = y as i64 - py as i64;
        let adx = if dx < 0 { -dx } else { dx };
        let ady = if dy < 0 { -dy } else { dy };
        let m = if adx >= ady { adx } else { ady };
        if m < LASSO_MIN_SEG as i64 {
            return None;
        }
        self.pts.push((x, y));
        Some((px, py))
    }

    /// The loop's pixel box.
    pub fn bbox(&self) -> (r: Rect)
        requires
            self.pts@.len() > 0,
            loop_ok(self.pts@),
        ensures
            r == loop_box(self.pts@),
    {
        Lasso::bbox_of(&self.pts)
    }

    /// Big enough to mean anything?
    pub fn viable(&self) -> (b: bool)
        requires
            self.pts@.len() > 0,
            loop_ok(self.pts@),
        ensures
            b == (self.pts@.len() >= LASSO_MIN_PTS && (loop_box(self.pts@).x1 - loop_box(self.pts@).x0 + 1
                >= LASSO_MIN_BOX || loop_box(self.pts@).y1 - loop_box(self.pts@).y0 + 1 >= LASSO_MIN_BOX)),
    {
        let b = self.bbox();
        proof {
            lemma_loop_box_range(self.pts@);
        }
        self.pts.len() >= LASSO_MIN_PTS && (b.w() >= LASSO_MIN_BOX || b.h() >= LASSO_MIN_BOX)
    }
}

/* ---- choosing what the loop holds ---------------------------------------------- */

/// Does the edge from vertex `j` to vertex `i` cross the ray from (x, y)
/// towards +x? (Exact arithmetic: the crossing's x is compared without
/// dividing.)
pub open spec fn crosses(a: (i32, i32), b: (i32, i32), x: int, y: int) -> bool {
    let (xi, yi) = (a.0 as int, a.1 as int);
    let (xj, yj) = (b.0 as int, b.1 as int);
    ((yi > y) != (yj > y)) && if yj > yi {
        (x - xi) * (yj - yi) < (xj - xi) * (y - yi)
    } else {
        (x - xi) * (yj - yi) > (xj - xi) * (y - yi)
    }
}

/// Even-odd rule over the first `k` edges (edge `i` joins vertex `i`
/// with the one before it, the loop closing from the last vertex).
pub open spec fn inside_upto(poly: Seq<(i32, i32)>, k: int, x: int, y: int) -> bool
    decreases k,
{
    if k <= 0 {
        false
    } else {
        let i = k - 1;
        let j = if i == 0 { poly.len() - 1 } else { i - 1 };
        inside_upto(poly, k - 1, x, y) != crosses(poly[i], poly[j], x, y)
    }
}

/// Is the point inside the (auto-closed) loop, by the even-odd rule?
pub open spec fn in_loop(poly: Seq<(i32, i32)>, x: int, y: int) -> bool {
    inside_upto(poly, poly.len() as int, x, y)
}

fn crosses_exec(a: (i32, i32), b: (i32, i32), x: i32, y: i32) -> (c: bool)
    requires
        -COORD_LIM <= a.0 <= COORD_LIM && -COORD_LIM <= a.1 <= COORD_LIM,
        -COORD_LIM <= b.0 <= COORD_LIM && -COORD_LIM <= b.1 <= COORD_LIM,
        -COORD_LIM <= x <= COORD_LIM && -COORD_LIM <= y <= COORD_LIM,
    ensures
        c == crosses(a, b, x as int, y as int),
{
    let (xi, yi, xj, yj) = (a.0 as i128, a.1 as i128, b.0 as i128, b.1 as i128);
    let (xx, yy) = (x as i128, y as i128);
    if (yi > yy) == (yj > yy) {
        return false;
    }
    assert(-0x1_0000_0000_0000_0000 <= (xx - xi) * (yj - yi) <= 0x1_0000_0000_0000_0000) by (nonlinear_arith)
        requires
            -0x2000_0000 <= xx - xi <= 0x2000_0000,
            -0x2000_0000 <= yj - yi <= 0x2000_0000,
    ;
    assert(-0x1_0000_0000_0000_0000 <= (xj - xi) * (yy - yi) <= 0x1_0000_0000_0000_0000) by (nonlinear_arith)
        requires
            -0x2000_0000 <= xj - xi <= 0x2000_0000,
            -0x2000_0000 <= yy - yi <= 0x2000_0000,
    ;
    let l = (xx - xi) * (yj - yi);
    let rgt = (xj - xi) * (yy - yi);
    if yj > yi {
        l < rgt
    } else {
        l > rgt
    }
}

/// Is the point inside the loop?
fn point_in_loop(poly: &Vec<(i32, i32)>, x: i32, y: i32) -> (b: bool)
    requires
        poly@.len() > 0,
        loop_ok(poly@),
        -COORD_LIM <= x <= COORD_LIM && -COORD_LIM <= y <= COORD_LIM,
    ensures
        b == in_loop(poly@, x as int, y as int),
{
    let n = poly.len();
    let mut inside = false;
    let mut i: usize = 0;
    while i < n
        invariant
            n == poly@.len(),
            n > 0,
            i <= n,
            loop_ok(poly@),
            -COORD_LIM <= x <= COORD_LIM && -COORD_LIM <= y <= COORD_LIM,
            inside == inside_upto(poly@, i as int, x as int, y as int),
        decreases n - i,
    {
        let j = if i == 0 { n - 1 } else { i - 1 };
        let a = poly[i];
        let b = poly[j];
        assert(-COORD_LIM <= poly@[i as int].0 <= COORD_LIM && -COORD_LIM <= poly@[j as int].0 <= COORD_LIM);
        if crosses_exec(a, b, x, y) {
            inside = !inside;
        }
        i += 1;
    }
    inside
}

/// Are all samples of the stroke inside the loop?
pub open spec fn all_inside(pts: Seq<crate::ink::Pt>, poly: Seq<(i32, i32)>) -> bool {
    forall|k: int| 0 <= k < pts.len() ==> in_loop(poly, (#[trigger] pts[k]).x as int, pts[k].y as int)
}

/// Is the stroke taken by the loop: it has a box inside the loop's box
/// and every sample inside the loop?
pub open spec fn taken(s: StrokeV, poly: Seq<(i32, i32)>) -> bool {
    match stroke_box(s) {
        Some(b) => {
            let lb = loop_box(poly);
            &&& lb.x0 <= b.x0 && b.x1 <= lb.x1 && lb.y0 <= b.y0 && b.y1 <= lb.y1
            &&& all_inside(s.pts, poly)
        },
        None => false,
    }
}

/// The references of the taken strokes of a layer, and their boxes'
/// union grown from `acc`.
pub open spec fn take_refs(ss: Seq<StrokeV>, owner: Owner, poly: Seq<(i32, i32)>) -> Seq<(Owner, u64)>
    decreases ss.len(),
{
    if ss.len() == 0 {
        Seq::empty()
    } else {
        let r = take_refs(ss.drop_last(), owner, poly);
        if taken(ss.last(), poly) {
            r.push((owner, ss.last().id))
        } else {
            r
        }
    }
}

pub open spec fn take_box(acc: Option<Rect>, ss: Seq<StrokeV>, poly: Seq<(i32, i32)>) -> Option<Rect>
    decreases ss.len(),
{
    if ss.len() == 0 {
        acc
    } else {
        let a = take_box(acc, ss.drop_last(), poly);
        if taken(ss.last(), poly) {
            join_box(a, stroke_box(ss.last()))
        } else {
            a
        }
    }
}

pub open spec fn patches_refs(ps: Seq<crate::ink::PatchV>, poly: Seq<(i32, i32)>) -> Seq<(Owner, u64)>
    decreases ps.len(),
{
    if ps.len() == 0 {
        Seq::empty()
    } else {
        patches_refs(ps.drop_last(), poly) + take_refs(ps.last().strokes, Owner::Patch(ps.last().id), poly)
    }
}

pub open spec fn patches_box(acc: Option<Rect>, ps: Seq<crate::ink::PatchV>, poly: Seq<(i32, i32)>) -> Option<Rect>
    decreases ps.len(),
{
    if ps.len() == 0 {
        acc
    } else {
        take_box(patches_box(acc, ps.drop_last(), poly), ps.last().strokes, poly)
    }
}

/// What a loop selects on a page: references to the strokes wholly inside
/// it (user strokes first), and the union of their boxes.
pub open spec fn select_spec(pv: PageV, poly: Seq<(i32, i32)>) -> (Seq<(Owner, u64)>, Option<Rect>) {
    (
        take_refs(pv.strokes, Owner::User, poly) + patches_refs(pv.patches, poly),
        patches_box(take_box(None, pv.strokes, poly), pv.patches, poly),
    )
}

fn stroke_taken(s: &Stroke, poly: &Vec<(i32, i32)>, lb: Rect) -> (t: bool)
    requires
        pts_ok(s.pts@),
        poly@.len() > 0,
        loop_ok(poly@),
        lb == loop_box(poly@),
    ensures
        t == taken(s@, poly@),
{
    let b = match stroke_bbox(s) {
        Some(b) => b,
        None => return false,
    };
    if b.x0 < lb.x0 || b.x1 > lb.x1 || b.y0 < lb.y0 || b.y1 > lb.y1 {
        return false;
    }
    let mut k: usize = 0;
    while k < s.pts.len()
        invariant
            k <= s.pts@.len(),
            pts_ok(s.pts@),
            poly@.len() > 0,
            loop_ok(poly@),
            forall|q: int| 0 <= q < k ==> in_loop(poly@, (#[trigger] s.pts@[q]).x as int, s.pts@[q].y as int),
        decreases s.pts.len() - k,
    {
        let p = s.pts[k];
        assert(pts_ok(s.pts@));
        assert(s.pts@[k as int] == p);
        if !point_in_loop(poly, p.x, p.y) {
            return false;
        }
        k += 1;
    }
    true
}

fn select_layer(ss: &Vec<Stroke>, owner: Owner, poly: &Vec<(i32, i32)>, lb: Rect, refs: &mut Vec<(Owner, u64)>, acc: Option<Rect>) -> (r: Option<Rect>)
    requires
        strokes_ok(strokes_view(ss@)),
        poly@.len() > 0,
        loop_ok(poly@),
        lb == loop_box(poly@),
    ensures
        final(refs)@ == old(refs)@ + take_refs(strokes_view(ss@), owner, poly@),
        r == take_box(acc, strokes_view(ss@), poly@),
{
    let ghost sv = strokes_view(ss@);
    let ghost r0 = refs@;
    let mut acc = acc;
    let ghost a0 = acc;
    let mut i: usize = 0;
    while i < ss.len()
        invariant
            i <= ss@.len(),
            sv == strokes_view(ss@),
            strokes_ok(sv),
            poly@.len() > 0,
            loop_ok(poly@),
            lb == loop_box(poly@),
            refs@ == r0 + take_refs(sv.take(i as int), owner, poly@),
            acc == take_box(a0, sv.take(i as int), poly@),
        decreases ss.len() - i,
    {
        assert(pts_ok(sv[i as int].pts));
        assert(sv.take(i + 1).drop_last() =~= sv.take(i as int));
        assert(sv.take(i + 1).last() == ss@[i as int]@);
        if stroke_taken(&ss[i], poly, lb) {
            let ghost q = refs@;
            refs.push((owner, ss[i].id));
            assert(refs@ =~= r0 + take_refs(sv.take(i + 1), owner, poly@));
            let b = stroke_bbox(&ss[i]);
            acc = match (acc, b) {
                (Some(g), Some(x)) => Some(g.union(x)),
                (Some(g), None) => Some(g),
                (None, y) => y,
            };
        }
        i += 1;
    }
    assert(sv.take(ss@.len() as int) =~= sv);
    acc
}

/// The strokes wholly inside the loop, as references, and the union of
/// their boxes.
pub fn select_strokes(page: &Page, poly: &Vec<(i32, i32)>) -> (r: (Vec<(Owner, u64)>, Option<Rect>))
    requires
        page_pts_ok(page@),
        poly@.len() > 0,
        loop_ok(poly@),
    ensures
        (r.0@, r.1) == select_spec(page@, poly@),
{
    let lb = Lasso::bbox_of(poly);
    let mut refs: Vec<(Owner, u64)> = Vec::new();
    let mut acc = select_layer(&page.strokes, Owner::User, poly, lb, &mut refs, None);
    let ghost pv = page@;
    let ghost ru = refs@;
    let ghost bu = acc;
    let mut k: usize = 0;
    while k < page.patches.len()
        invariant
            k <= page.patches@.len(),
            pv == page@,
            page_pts_ok(pv),
            poly@.len() > 0,
            loop_ok(poly@),
            lb == loop_box(poly@),
            ru == take_refs(pv.strokes, Owner::User, poly@),
            bu == take_box(None, pv.strokes, poly@),
            refs@ == ru + patches_refs(pv.patches.take(k as int), poly@),
            acc == patches_box(bu, pv.patches.take(k as int), poly@),
        decreases page.patches.len() - k,
    {
        assert(pv.patches[k as int] == page.patches@[k as int]@);
        assert(strokes_ok(pv.patches[k as int].strokes));
        assert(pv.patches.take(k + 1).drop_last() =~= pv.patches.take(k as int));
        assert(pv.patches.take(k + 1).last() == pv.patches[k as int]);
        let ghost q = refs@;
        acc = select_layer(&page.patches[k].strokes, Owner::Patch(page.patches[k].id), poly, lb, &mut refs, acc);
        assert(refs@ =~= ru + patches_refs(pv.patches.take(k + 1), poly@));
        k += 1;
    }
    assert(pv.patches.take(page.patches@.len() as int) =~= pv.patches);
    (refs, acc)
}

/// Each reference a layer yields names a stroke of that layer the loop takes.
proof fn lemma_take_refs_sound(ss: Seq<StrokeV>, owner: Owner, poly: Seq<(i32, i32)>)
    ensures
        forall|q: int| 0 <= q < take_refs(ss, owner, poly).len() ==> {
            &&& (#[trigger] take_refs(ss, owner, poly)[q]).0 == owner
            &&& exists|i: int| 0 <= i < ss.len() && ss[i].id == take_refs(ss, owner, poly)[q].1 && taken(ss[i], poly)
        },
    decreases ss.len(),
{
    if ss.len() > 0 {
        let pre = ss.drop_last();
        lemma_take_refs_sound(pre, owner, poly);
        let l = take_refs(pre, owner, poly);
        assert forall|q: int| 0 <= q < take_refs(ss, owner, poly).len() implies {
            &&& (#[trigger] take_refs(ss, owner, poly)[q]).0 == owner
            &&& exists|i: int| 0 <= i < ss.len() && ss[i].id == take_refs(ss, owner, poly)[q].1 && taken(ss[i], poly)
        } by {
            if q < l.len() {
                assert(take_refs(ss, owner, poly)[q] == l[q]);
                let i = choose|i: int| 0 <= i < pre.len() && pre[i].id == l[q].1 && taken(pre[i], poly);
                assert(ss[i] == pre[i]);
            } else {
                assert(ss[ss.len() - 1] == ss.last());
            }
        }
    }
}

/// Each reference the patches yield names a patch stroke the loop takes.
proof fn lemma_patches_refs_sound(ps: Seq<crate::ink::PatchV>, poly: Seq<(i32, i32)>)
    ensures
        forall|q: int| 0 <= q < patches_refs(ps, poly).len() ==> exists|j: int, i: int|
            #![trigger ps[j].strokes[i]]
            0 <= j < ps.len() && 0 <= i < ps[j].strokes.len() && #[trigger] patches_refs(ps, poly)[q] == (
            Owner::Patch(ps[j].id),
            ps[j].strokes[i].id,
        ) && taken(ps[j].strokes[i], poly),
    decreases ps.len(),
{
    if ps.len() > 0 {
        let pre = ps.drop_last();
        lemma_patches_refs_sound(pre, poly);
        let p = ps.last();
        let a = patches_refs(pre, poly);
        let b = take_refs(p.strokes, Owner::Patch(p.id), poly);
        lemma_take_refs_sound(p.strokes, Owner::Patch(p.id), poly);
        assert forall|q: int| 0 <= q < patches_refs(ps, poly).len() implies exists|j: int, i: int|
            #![trigger ps[j].strokes[i]]
            0 <= j < ps.len() && 0 <= i < ps[j].strokes.len() && #[trigger] patches_refs(ps, poly)[q] == (
            Owner::Patch(ps[j].id),
            ps[j].strokes[i].id,
        ) && taken(ps[j].strokes[i], poly) by {
            if q < a.len() {
                assert((a + b)[q] == a[q]);
                let (j, i) = choose|j: int, i: int|
                    #![trigger pre[j].strokes[i]]
                    0 <= j < pre.len() && 0 <= i < pre[j].strokes.len() && a[q] == (Owner::Patch(pre[j].id), pre[j].strokes[i].id)
                        && taken(pre[j].strokes[i], poly);
                assert(ps[j] == pre[j]);
                assert(ps[j].strokes[i] == pre[j].strokes[i]);
            } else {
                assert((a + b)[q] == b[q - a.len()]);
                assert(b[q - a.len()] == take_refs(p.strokes, Owner::Patch(p.id), poly)[q - a.len()]);
                let i = choose|i: int| 0 <= i < p.strokes.len() && p.strokes[i].id == b[q - a.len()].1 && taken(p.strokes[i], poly);
                assert(ps[ps.len() - 1] == p);
                assert(ps[ps.len() - 1].strokes[i] == p.strokes[i]);
            }
        }
    }
}

/// A layer yields no reference to an id none of whose strokes the loop takes.
proof fn lemma_take_refs_excl(ss: Seq<StrokeV>, owner: Owner, poly: Seq<(i32, i32)>, id: u64)
    requires
        forall|i: int| 0 <= i < ss.len() && (#[trigger] ss[i]).id == id ==> !taken(ss[i], poly),
    ensures
        !take_refs(ss, owner, poly).contains((owner, id)),
    decreases ss.len(),
{
    if ss.len() > 0 {
        let pre = ss.drop_last();
        assert forall|i: int| 0 <= i < pre.len() && (#[trigger] pre[i]).id == id implies !taken(pre[i], poly) by {
            assert(ss[i] == pre[i]);
        }
        lemma_take_refs_excl(pre, owner, poly, id);
        let l = take_refs(pre, owner, poly);
        assert(ss[ss.len() - 1] == ss.last());
        if take_refs(ss, owner, poly).contains((owner, id)) {
            let q = choose|q: int| 0 <= q < take_refs(ss, owner, poly).len() && take_refs(ss, owner, poly)[q] == (owner, id);
            if q < l.len() {
                assert(take_refs(ss, owner, poly)[q] == l[q]);
            }
        }
    }
}

/// Patches yield references under their own ids, never under the user layer.
proof fn lemma_patches_refs_not_user(ps: Seq<crate::ink::PatchV>, poly: Seq<(i32, i32)>, id: u64)
    ensures
        !patches_refs(ps, poly).contains((Owner::User, id)),
{
    lemma_patches_refs_sound(ps, poly);
    if patches_refs(ps, poly).contains((Owner::User, id)) {
        let q = choose|q: int| 0 <= q < patches_refs(ps, poly).len() && patches_refs(ps, poly)[q] == (Owner::User, id);
        assert(patches_refs(ps, poly)[q].0 == Owner::User);
    }
}

/// A lasso selects only strokes lying wholly inside the loop: every
/// reference it returns names a stroke of the named layer with that id
/// all of whose samples are inside the loop by the even-odd rule.
pub proof fn lemma_selected_wholly_inside(pv: PageV, poly: Seq<(i32, i32)>, q: int)
    requires
        0 <= q < select_spec(pv, poly).0.len(),
    ensures
        select_spec(pv, poly).0[q].0 == Owner::User ==> exists|i: int|
            0 <= i < pv.strokes.len() && (#[trigger] pv.strokes[i]).id == select_spec(pv, poly).0[q].1 && forall|k: int|
                0 <= k < pv.strokes[i].pts.len() ==> in_loop(
                    poly,
                    (#[trigger] pv.strokes[i].pts[k]).x as int,
                    pv.strokes[i].pts[k].y as int,
                ),
        select_spec(pv, poly).0[q].0 != Owner::User ==> exists|j: int, i: int|
            #![trigger pv.patches[j].strokes[i]]
            0 <= j < pv.patches.len() && 0 <= i < pv.patches[j].strokes.len() && select_spec(pv, poly).0[q] == (
            Owner::Patch(pv.patches[j].id),
            pv.patches[j].strokes[i].id,
        ) && forall|k: int|
                0 <= k < pv.patches[j].strokes[i].pts.len() ==> in_loop(
                    poly,
                    (#[trigger] pv.patches[j].strokes[i].pts[k]).x as int,
                    pv.patches[j].strokes[i].pts[k].y as int,
                ),
{
    let a = take_refs(pv.strokes, Owner::User, poly);
    let b = patches_refs(pv.patches, poly);
    lemma_take_refs_sound(pv.strokes, Owner::User, poly);
    lemma_patches_refs_sound(pv.patches, poly);
    if q < a.len() {
        assert((a + b)[q] == a[q]);
        assert(a[q].0 == Owner::User);
        let i = choose|i: int| 0 <= i < pv.strokes.len() && pv.strokes[i].id == a[q].1 && taken(pv.strokes[i], poly);
        assert(all_inside(pv.strokes[i].pts, poly));
    } else {
        assert((a + b)[q] == b[q - a.len()]);
        let (j, i) = choose|j: int, i: int|
            #![trigger pv.patches[j].strokes[i]]
            0 <= j < pv.patches.len() && 0 <= i < pv.patches[j].strokes.len() && b[q - a.len()] == (
            Owner::Patch(pv.patches[j].id),
            pv.patches[j].strokes[i].id,
        ) && taken(pv.patches[j].strokes[i], poly);
        assert(all_inside(pv.patches[j].strokes[i].pts, poly));
    }
}

/// A layer yields a reference to every stroke the loop takes.
proof fn lemma_take_refs_has(ss: Seq<StrokeV>, owner: Owner, poly: Seq<(i32, i32)>, i: int)
    requires
        0 <= i < ss.len(),
        taken(ss[i], poly),
    ensures
        take_refs(ss, owner, poly).contains((owner, ss[i].id)),
    decreases ss.len(),
{
    let l = take_refs(ss.drop_last(), owner, poly);
    if i < ss.len() - 1 {
        assert(ss.drop_last()[i] == ss[i]);
        lemma_take_refs_has(ss.drop_last(), owner, poly, i);
        let j = choose|j: int| 0 <= j < l.len() && l[j] == (owner, ss[i].id);
        if taken(ss.last(), poly) {
            assert(take_refs(ss, owner, poly)[j] == l[j]);
        }
    } else {
        assert(take_refs(ss, owner, poly)[l.len() as int] == (owner, ss[i].id));
    }
}

/// A user stroke lying wholly inside the loop is selected: when its box
/// lies within the loop's box and every sample is inside the loop by the
/// even-odd rule, a reference to it comes back.
pub proof fn lemma_inside_stroke_selected(pv: PageV, poly: Seq<(i32, i32)>, i: int)
    requires
        0 <= i < pv.strokes.len(),
        stroke_box(pv.strokes[i]) matches Some(b) && loop_box(poly).x0 <= b.x0 && b.x1 <= loop_box(poly).x1 && loop_box(
            poly,
        ).y0 <= b.y0 && b.y1 <= loop_box(poly).y1,
        forall|k: int|
            0 <= k < pv.strokes[i].pts.len() ==> in_loop(
                poly,
                (#[trigger] pv.strokes[i].pts[k]).x as int,
                pv.strokes[i].pts[k].y as int,
            ),
    ensures
        select_spec(pv, poly).0.contains((Owner::User, pv.strokes[i].id)),
{
    let a = take_refs(pv.strokes, Owner::User, poly);
    let b = patches_refs(pv.patches, poly);
    assert(all_inside(pv.strokes[i].pts, poly));
    assert(taken(pv.strokes[i], poly));
    lemma_take_refs_has(pv.strokes, Owner::User, poly, i);
    let q = choose|q: int| 0 <= q < a.len() && a[q] == (Owner::User, pv.strokes[i].id);
    assert((a + b)[q] == a[q]);
}

/// A user stroke with a sample outside the loop is not selected: when
/// every user stroke with a given id has some sample outside the loop,
/// no reference to that id comes back.
pub proof fn lemma_stroke_outside_not_selected(pv: PageV, poly: Seq<(i32, i32)>, id: u64)
    requires
        forall|i: int|
            0 <= i < pv.strokes.len() && (#[trigger] pv.strokes[i]).id == id ==> exists|k: int|
                0 <= k < pv.strokes[i].pts.len() && !in_loop(
                    poly,
                    (#[trigger] pv.strokes[i].pts[k]).x as int,
                    pv.strokes[i].pts[k].y as int,
                ),
    ensures
        !select_spec(pv, poly).0.contains((Owner::User, id)),
{
    let a = take_refs(pv.strokes, Owner::User, poly);
    let b = patches_refs(pv.patches, poly);
    assert forall|i: int| 0 <= i < pv.strokes.len() && (#[trigger] pv.strokes[i]).id == id implies !taken(pv.strokes[i], poly) by {
        let k = choose|k: int|
            0 <= k < pv.strokes[i].pts.len() && !in_loop(poly, pv.strokes[i].pts[k].x as int, pv.strokes[i].pts[k].y as int);
        assert(!all_inside(pv.strokes[i].pts, poly));
    }
    lemma_take_refs_excl(pv.strokes, Owner::User, poly, id);
    lemma_patches_refs_not_user(pv.patches, poly, id);
    if (a + b).contains((Owner::User, id)) {
        let q = choose|q: int| 0 <= q < (a + b).len() && (a + b)[q] == (Owner::User, id);
        if q < a.len() {
            assert((a + b)[q] == a[q]);
        } else {
            assert((a + b)[q] == b[q - a.len()]);
        }
    }
}

impl Lasso {
    /// The pixel box of a loop.
    pub fn bbox_of(poly: &Vec<(i32, i32)>) -> (r: Rect)
        requires
            poly@.len() > 0,
            loop_ok(poly@),
        ensures
            r == loop_box(poly@),
    {
        let (x, y) = poly[0];
        let mut r = box_of_point(x, y);
        assert(poly@.take(1) =~= seq![poly@[0]]);
        let mut i: usize = 1;
        while i < poly.len()
            invariant
                1 <= i <= poly@.len(),
                loop_ok(poly@),
                r == loop_box(poly@.take(i as int)),
            decreases poly.len() - i,
        {
            let (x, y) = poly[i];
            let b = box_of_point(x, y);
            assert(poly@.take(i + 1).drop_last() =~= poly@.take(i as int));
            assert(poly@.take(i + 1).last() == (x, y));
            r = Rect {
                x0: if r.x0 <= b.x0 { r.x0 } else { b.x0 },
                y0: if r.y0 <= b.y0 { r.y0 } else { b.y0 },
                x1: if r.x1 >= b.x1 { r.x1 } else { b.x1 },
                y1: if r.y1 >= b.y1 { r.y1 } else { b.y1 },
            };
            i += 1;
        }
        assert(poly@.take(poly@.len() as int) =~= poly@);
        r
    }
}


/// The chip bar is two chips and a gap wide and one chip high, stays at
/// least 4 px inside the panel, and sits right above the ring (15 px
/// clear) or, when there is no room, right below it (14 px clear).
pub proof fn lemma_chips_placement(s: Selection)
    ensures
        4 <= chips_x0(s) && chips_x0(s) + CHIPS_W - 1 <= SCREEN_W - 5,
        CHIPS_W == 2 * CHIP_W + CHIP_GAP,
        ring_spec(s).1 - CHIP_H - 14 >= 0 ==> chips_y0(s) + CHIP_H - 1 == ring_spec(s).1 - 15,
        ring_spec(s).1 - CHIP_H - 14 < 0 ==> chips_y0(s) == ring_spec(s).3 + 14,
{
}

/// A tap on the bar's row hits Delete on the first chip, Cut on the
/// second, and nothing in the gap between them or beside them.
pub proof fn lemma_chip_hits(s: Selection, x: int, y: int)
    ensures
        ({
            let row = chips_y0(s) <= y <= chips_y0(s) + CHIP_H - 1;
            let x0 = chips_x0(s);
            &&& (chip_at_spec(s, x, y) == Some(Chip::Delete) <==> row && x0 <= x < x0 + CHIP_W)
            &&& (chip_at_spec(s, x, y) == Some(Chip::Cut) <==> row && x0 + CHIP_W + CHIP_GAP <= x < x0 + 2 * CHIP_W
                + CHIP_GAP)
            &&& (x0 + CHIP_W <= x < x0 + CHIP_W + CHIP_GAP ==> chip_at_spec(s, x, y) is None)
        }),
{
}

} // verus!
