//! The page drawn small for the assistant to look at: every stroke (the
//! user's and the assistant's patches') plotted as round dots into a
//! grayscale buffer at 1/`div` scale, darkest wins.

use vstd::prelude::*;
use crate::geom::{SCREEN_W, SCREEN_H, lemma_cell, lemma_split};
use crate::ink::{Page, PageV, PatchV, Pt, Stroke, StrokeV, COORD_LIM, pts_ok, strokes_ok, page_pts_ok, patches_view, strokes_view};

verus! {

/// A round dot: centre and radius in buffer pixels, and its tone.
pub struct Dot {
    pub cx: int,
    pub cy: int,
    pub ri: int,
    pub g: u8,
}

/// Is buffer pixel (px, py) on the dot?
pub open spec fn on_dot(dot: Dot, px: int, py: int) -> bool {
    let (i, j) = (px - dot.cx, py - dot.cy);
    -dot.ri <= i <= dot.ri && -dot.ri <= j <= dot.ri && i * i + j * j <= dot.ri * dot.ri
}

/// The buffer (`w` by `h`, row-major) with one dot plotted, darkest wins.
pub open spec fn apply_dot(buf: Seq<u8>, w: int, h: int, dot: Dot) -> Seq<u8> {
    Seq::new(
        buf.len(),
        |d: int|
            if d < w * h && on_dot(dot, d % w, d / w) && dot.g < buf[d] {
                dot.g
            } else {
                buf[d]
            },
    )
}

/// The buffer with the dots plotted in order.
pub open spec fn apply_all(buf: Seq<u8>, w: int, h: int, dots: Seq<Dot>) -> Seq<u8>
    decreases dots.len(),
{
    if dots.len() == 0 {
        buf
    } else {
        apply_dot(apply_all(buf, w, h, dots.drop_last()), w, h, dots.last())
    }
}

pub proof fn lemma_apply_concat(buf: Seq<u8>, w: int, h: int, x: Seq<Dot>, y: Seq<Dot>)
    ensures
        apply_all(buf, w, h, x + y) == apply_all(apply_all(buf, w, h, x), w, h, y),
    decreases y.len(),
{
    if y.len() == 0 {
        assert(x + y =~= x);
    } else {
        assert((x + y).drop_last() =~= x + y.drop_last());
        assert((x + y).last() == y.last());
        lemma_apply_concat(buf, w, h, x, y.drop_last());
    }
}

pub proof fn lemma_apply_len(buf: Seq<u8>, w: int, h: int, dots: Seq<Dot>)
    ensures
        apply_all(buf, w, h, dots).len() == buf.len(),
    decreases dots.len(),
{
    if dots.len() > 0 {
        lemma_apply_len(buf, w, h, dots.drop_last());
    }
}

/// Plot one dot (centre (cx, cy), radius `ri`) into the `w` by `h` buffer.
fn plot(buf: &mut Vec<u8>, w: i32, h: i32, cx: i64, cy: i64, ri: i64, g: u8)
    requires
        0 <= w,
        0 <= h,
        w * h <= old(buf)@.len(),
        1 <= ri <= 0x4000_0000,
        -0x4000_0000_0000 <= cx <= 0x4000_0000_0000,
        -0x4000_0000_0000 <= cy <= 0x4000_0000_0000,
    ensures
        final(buf)@ == apply_dot(old(buf)@, w as int, h as int, Dot { cx: cx as int, cy: cy as int, ri: ri as int, g }),
{
    let ghost b0 = buf@;
    let ghost dot = Dot { cx: cx as int, cy: cy as int, ri: ri as int, g };
    let ghost n: int = w * h;
    if w == 0 || h == 0 {
        assert(n == 0) by (nonlinear_arith)
            requires
                n == w * h,
                w == 0 || h == 0,
        ;
        assert(buf@ =~= apply_dot(b0, w as int, h as int, dot));
        return;
    }
    proof {
        assert(n % (w as int) == 0 && n / (w as int) == h) by (nonlinear_arith)
            requires
                n == w * h,
                w > 0,
        ;
    }
    let mut j: i64 = -ri;
    while j <= ri
        invariant
            -ri <= j <= ri + 1,
            1 <= ri <= 0x4000_0000,
            -0x4000_0000_0000 <= cx <= 0x4000_0000_0000,
            -0x4000_0000_0000 <= cy <= 0x4000_0000_0000,
            0 < w,
            0 < h,
            n == w * h,
            n % (w as int) == 0,
            n / (w as int) == h,
            n <= b0.len(),
            dot == (Dot { cx: cx as int, cy: cy as int, ri: ri as int, g }),
            buf@.len() == b0.len(),
            forall|d: int| 0 <= d < b0.len() ==> #[trigger] buf@[d] == if d < n && d / (w as int) - cy < j {
                apply_dot(b0, w as int, h as int, dot)[d]
            } else {
                b0[d]
            },
        decreases ri + 1 - j,
    {
        let mut i: i64 = -ri;
        while i <= ri
            invariant
                -ri <= j <= ri,
                -ri <= i <= ri + 1,
                1 <= ri <= 0x4000_0000,
                -0x4000_0000_0000 <= cx <= 0x4000_0000_0000,
                -0x4000_0000_0000 <= cy <= 0x4000_0000_0000,
                0 < w,
                0 < h,
                n == w * h,
                n % (w as int) == 0,
                n / (w as int) == h,
                n <= b0.len(),
                dot == (Dot { cx: cx as int, cy: cy as int, ri: ri as int, g }),
                buf@.len() == b0.len(),
                forall|d: int| 0 <= d < b0.len() ==> #[trigger] buf@[d] == if d < n && (d / (w as int) - cy < j || (
                d / (w as int) - cy == j && d % (w as int) - cx < i)) {
                    apply_dot(b0, w as int, h as int, dot)[d]
                } else {
                    b0[d]
                },
            decreases ri + 1 - i,
        {
            let (px, py) = (cx + i, cy + j);
            let ghost before = buf@;
            proof {
                assert(0 <= i * i <= 0x1000_0000_0000_0000 && 0 <= j * j <= 0x1000_0000_0000_0000 && ri * ri
                    <= 0x1000_0000_0000_0000) by (nonlinear_arith)
                    requires
                        -ri <= i <= ri,
                        -ri <= j <= ri,
                        1 <= ri <= 0x4000_0000,
                ;
            }
            if px >= 0 && px < w as i64 && py >= 0 && py < h as i64 && i * i + j * j <= ri * ri {
                proof {
                    lemma_split(px as int, py as int, w as int);
                    assert(py * w + px < n) by (nonlinear_arith)
                        requires
                            0 <= px < w,
                            0 <= py < h,
                            n == w * h,
                    ;
                    assert((py as usize) as int == py && (px as usize) as int == px && (w as usize) as int == w);
                }
                let blen = buf.len();
                assert(py * w + px < blen);
                let idx = (py as usize) * (w as usize) + px as usize;
                assert(idx == py * w + px);
                if g < buf[idx] {
                    buf.set(idx, g);
                }
                proof {
                    assert forall|d: int| 0 <= d < b0.len() implies #[trigger] buf@[d] == if d < n && (d / (w as int)
                        - cy < j || (d / (w as int) - cy == j && d % (w as int) - cx < i + 1)) {
                        apply_dot(b0, w as int, h as int, dot)[d]
                    } else {
                        b0[d]
                    } by {
                        if d < n {
                            lemma_cell(d, w as int, n);
                        }
                        if d != idx as int {
                            assert(before[d] == buf@[d]);
                            if d < n && d / (w as int) == py && d % (w as int) == px {
                                assert(d == (d / (w as int)) * (w as int) + d % (w as int));
                            }
                        } else {
                            assert(on_dot(dot, px as int, py as int));
                        }
                    }
                }
            } else {
                proof {
                    assert forall|d: int| 0 <= d < b0.len() implies #[trigger] buf@[d] == if d < n && (d / (w as int)
                        - cy < j || (d / (w as int) - cy == j && d % (w as int) - cx < i + 1)) {
                        apply_dot(b0, w as int, h as int, dot)[d]
                    } else {
                        b0[d]
                    } by {
                        if d < n {
                            lemma_cell(d, w as int, n);
                            if d / (w as int) - cy == j && d % (w as int) - cx == i {
                                assert(!on_dot(dot, d % (w as int), d / (w as int)));
                            }
                        }
                    }
                }
            }
            i += 1;
        }
        proof {
            assert forall|d: int| 0 <= d < b0.len() implies #[trigger] buf@[d] == if d < n && d / (w as int) - cy
                < j + 1 {
                apply_dot(b0, w as int, h as int, dot)[d]
            } else {
                b0[d]
            } by {
                if d < n && d / (w as int) - cy == j && !(d % (w as int) - cx < i) {
                    assert(!on_dot(dot, d % (w as int), d / (w as int)));
                }
            }
        }
        j += 1;
    }
    proof {
        assert forall|d: int| 0 <= d < b0.len() implies #[trigger] buf@[d] == apply_dot(b0, w as int, h as int, dot)[d] by {
            if d < n && !(d / (w as int) - cy < j) {
                assert(!on_dot(dot, d % (w as int), d / (w as int)));
            }
        }
        assert(buf@ =~= apply_dot(b0, w as int, h as int, dot));
    }
}


/* ---- where the dots go ------------------------------------------------------ */

/// `n / d` rounded to the nearest integer, halves away from zero (`d > 0`).
pub open spec fn round_div(n: int, d: int) -> int {
    if n >= 0 {
        (2 * n + d) / (2 * d)
    } else {
        -((2 * (-n) + d) / (2 * d))
    }
}

pub open spec fn abs_int(v: int) -> int {
    if v < 0 {
        -v
    } else {
        v
    }
}

/// How many steps a segment from `a` to `b` is walked in (`dd` tenths of
/// a pixel per buffer pixel): one per buffer pixel of its longer side,
/// rounded up, at least one.
pub open spec fn seg_steps(a: Pt, b: Pt, dd: int) -> int {
    let m = if abs_int(b.x - a.x) > abs_int(b.y - a.y) {
        abs_int(b.x - a.x)
    } else {
        abs_int(b.y - a.y)
    };
    let c = (m + dd - 1) / dd;
    if c < 1 {
        1
    } else {
        c
    }
}

/// The dot at step `i` of `steps` from `a` to `b`: position and radius
/// interpolated, scaled to the buffer and rounded; the radius at least 1.
pub open spec fn interp_dot(a: Pt, b: Pt, steps: int, i: int, g: u8, dd: int) -> Dot {
    let q = dd * steps;
    let r = round_div(a.r * steps + (b.r - a.r) * i, q);
    Dot {
        cx: round_div(a.x * steps + (b.x - a.x) * i, q),
        cy: round_div(a.y * steps + (b.y - a.y) * i, q),
        ri: if r < 1 {
            1
        } else {
            r
        },
        g,
    }
}

/// The dots of one segment, both ends included.
pub open spec fn seg_dots(a: Pt, b: Pt, g: u8, dd: int) -> Seq<Dot> {
    let n = seg_steps(a, b, dd);
    Seq::new((n + 1) as nat, |i: int| interp_dot(a, b, n, i, g, dd))
}

/// The dots of the first `k` segments of a polyline.
pub open spec fn windows_dots(pts: Seq<Pt>, g: u8, dd: int, k: int) -> Seq<Dot>
    decreases k,
{
    if k <= 0 {
        Seq::empty()
    } else {
        windows_dots(pts, g, dd, k - 1) + seg_dots(pts[k - 1], pts[k], g, dd)
    }
}

/// The dots of a stroke: a lone sample is one dot, otherwise each
/// segment in turn.
pub open spec fn stroke_dots(s: StrokeV, dd: int) -> Seq<Dot> {
    let head = if s.pts.len() == 1 {
        seq![interp_dot(s.pts[0], s.pts[0], 1, 0, s.gray, dd)]
    } else {
        Seq::empty()
    };
    head + windows_dots(s.pts, s.gray, dd, s.pts.len() - 1)
}

pub open spec fn strokes_dots(ss: Seq<StrokeV>, dd: int) -> Seq<Dot>
    decreases ss.len(),
{
    if ss.len() == 0 {
        Seq::empty()
    } else {
        strokes_dots(ss.drop_last(), dd) + stroke_dots(ss.last(), dd)
    }
}

pub open spec fn patches_dots(ps: Seq<PatchV>, dd: int) -> Seq<Dot>
    decreases ps.len(),
{
    if ps.len() == 0 {
        Seq::empty()
    } else {
        patches_dots(ps.drop_last(), dd) + strokes_dots(ps.last().strokes, dd)
    }
}

/// Every dot of a page at 1/`div` scale: the user's strokes, then each
/// patch's strokes.
pub open spec fn page_dots(p: PageV, div: int) -> Seq<Dot> {
    strokes_dots(p.strokes, 10 * div) + patches_dots(p.patches, 10 * div)
}

/// The buffer size at 1/`div` scale.
pub open spec fn snap_w(div: int) -> int {
    SCREEN_W as int / div
}

pub open spec fn snap_h(div: int) -> int {
    SCREEN_H as int / div
}

fn round_div_exec(n: i64, d: i64) -> (r: i64)
    requires
        0 < d <= 0x1000_0000_0000_0000,
        -0x1000_0000_0000_0000 <= n <= 0x1000_0000_0000_0000,
    ensures
        r == round_div(n as int, d as int),
{
    if n >= 0 {
        (2 * n + d) / (2 * d)
    } else {
        -((2 * (-n) + d) / (2 * d))
    }
}

proof fn lemma_round_bound(n: int, q: int, k: int)
    requires
        q > 0,
        k >= 0,
        -(k * q) <= n <= k * q,
    ensures
        -(k + 1) <= round_div(n, q) <= k + 1,
{
    if n >= 0 {
        assert((2 * n + q) / (2 * q) <= k + 1) by (nonlinear_arith)
            requires
                q > 0,
                0 <= n <= k * q,
                k >= 0,
        ;
        assert((2 * n + q) / (2 * q) >= 0) by (nonlinear_arith)
            requires
                q > 0,
                0 <= n,
        ;
    } else {
        assert((2 * (-n) + q) / (2 * q) <= k + 1) by (nonlinear_arith)
            requires
                q > 0,
                0 <= -n <= k * q,
                k >= 0,
        ;
        assert((2 * (-n) + q) / (2 * q) >= 0) by (nonlinear_arith)
            requires
                q > 0,
                0 <= -n,
        ;
    }
}

proof fn lemma_interp_bound(av: int, bv: int, n: int, i: int)
    requires
        1 <= n <= 0x200_0000,
        0 <= i <= n,
        -COORD_LIM <= av <= COORD_LIM,
        -COORD_LIM <= bv <= COORD_LIM,
    ensures
        -3 * COORD_LIM * n <= av * n + (bv - av) * i <= 3 * COORD_LIM * n,
{
    assert(-3 * COORD_LIM * n <= av * n + (bv - av) * i <= 3 * COORD_LIM * n) by (nonlinear_arith)
        requires
            1 <= n,
            0 <= i <= n,
            -COORD_LIM <= av <= COORD_LIM,
            -COORD_LIM <= bv <= COORD_LIM,
    ;
}

/// One interpolated coordinate, scaled and rounded.
fn interp(av: i32, bv: i32, n: i64, i: i64, dd: i64) -> (c: i64)
    requires
        1 <= n <= 0x200_0000,
        0 <= i <= n,
        10 <= dd <= 0x8_0000_0000,
        -COORD_LIM <= av <= COORD_LIM,
        -COORD_LIM <= bv <= COORD_LIM,
    ensures
        c == round_div(av * n + (bv - av) * i, dd * n),
        -(COORD_LIM + 1) <= c <= COORD_LIM + 1,
{
    proof {
        lemma_interp_bound(av as int, bv as int, n as int, i as int);
        assert(10 * n <= dd * n <= 0x8_0000_0000 * 0x200_0000) by (nonlinear_arith)
            requires
                1 <= n <= 0x200_0000,
                10 <= dd <= 0x8_0000_0000,
        ;
        assert(-(COORD_LIM * (dd * n)) <= -3 * COORD_LIM * n && 3 * COORD_LIM * n <= COORD_LIM * (dd * n)) by (nonlinear_arith)
            requires
                10 * n <= dd * n,
                n >= 1,
        ;
        lemma_round_bound(av * n + (bv - av) * i, dd * n, COORD_LIM as int);
        assert(-COORD_LIM * n <= av * n <= COORD_LIM * n && -2 * COORD_LIM * n <= (bv - av) * i <= 2 * COORD_LIM * n)
            by (nonlinear_arith)
            requires
                1 <= n,
                0 <= i <= n,
                -COORD_LIM <= av <= COORD_LIM,
                -COORD_LIM <= bv <= COORD_LIM,
        ;
    }
    let (a64, b64) = (av as i64, bv as i64);
    proof {
        assert(-0x100_0000_0000_0000 <= a64 * n <= 0x100_0000_0000_0000 && -0x100_0000_0000_0000 <= (b64 - a64) * i
            <= 0x100_0000_0000_0000) by (nonlinear_arith)
            requires
                1 <= n <= 0x200_0000,
                0 <= i <= n,
                -COORD_LIM <= a64 <= COORD_LIM,
                -COORD_LIM <= b64 <= COORD_LIM,
        ;
    }
    let v = a64 * n + (b64 - a64) * i;
    round_div_exec(v, dd * n)
}

fn seg_steps_exec(a: Pt, b: Pt, dd: i64) -> (n: i64)
    requires
        10 <= dd <= 0x8_0000_0000,
        -COORD_LIM <= a.x <= COORD_LIM && -COORD_LIM <= a.y <= COORD_LIM,
        -COORD_LIM <= b.x <= COORD_LIM && -COORD_LIM <= b.y <= COORD_LIM,
    ensures
        n == seg_steps(a, b, dd as int),
        1 <= n <= 0x200_0000,
{
    let dx = if b.x >= a.x { b.x as i64 - a.x as i64 } else { a.x as i64 - b.x as i64 };
    let dy = if b.y >= a.y { b.y as i64 - a.y as i64 } else { a.y as i64 - b.y as i64 };
    let m = if dx > dy { dx } else { dy };
    let c = (m + dd - 1) / dd;
    proof {
        let (mi, di) = (m as int, dd as int);
        assert((mi + di - 1) / di <= 0x200_0000) by (nonlinear_arith)
            requires
                0 <= mi <= 2 * COORD_LIM,
                10 <= di,
        ;
    }
    if c < 1 {
        1
    } else {
        c
    }
}

/// Plot the dots of the segment from `a` to `b`.
fn seg_into(buf: &mut Vec<u8>, w: i32, h: i32, a: Pt, b: Pt, g: u8, dd: i64)
    requires
        0 <= w,
        0 <= h,
        w * h <= old(buf)@.len(),
        10 <= dd <= 0x8_0000_0000,
        -COORD_LIM <= a.x <= COORD_LIM && -COORD_LIM <= a.y <= COORD_LIM && -COORD_LIM <= a.r <= COORD_LIM,
        -COORD_LIM <= b.x <= COORD_LIM && -COORD_LIM <= b.y <= COORD_LIM && -COORD_LIM <= b.r <= COORD_LIM,
    ensures
        final(buf)@ == apply_all(old(buf)@, w as int, h as int, seg_dots(a, b, g, dd as int)),
{
    let ghost b0 = buf@;
    let n = seg_steps_exec(a, b, dd);
    let ghost all = seg_dots(a, b, g, dd as int);
    assert(all.take(0) =~= Seq::<Dot>::empty());
    let mut i: i64 = 0;
    while i <= n
        invariant
            0 <= i <= n + 1,
            1 <= n <= 0x200_0000,
            n == seg_steps(a, b, dd as int),
            all == seg_dots(a, b, g, dd as int),
            all.len() == n + 1,
            0 <= w,
            0 <= h,
            10 <= dd <= 0x8_0000_0000,
            -COORD_LIM <= a.x <= COORD_LIM && -COORD_LIM <= a.y <= COORD_LIM && -COORD_LIM <= a.r <= COORD_LIM,
            -COORD_LIM <= b.x <= COORD_LIM && -COORD_LIM <= b.y <= COORD_LIM && -COORD_LIM <= b.r <= COORD_LIM,
            buf@.len() == b0.len(),
            w * h <= b0.len(),
            buf@ == apply_all(b0, w as int, h as int, all.take(i as int)),
        decreases n + 1 - i,
    {
        let cx = interp(a.x, b.x, n, i, dd);
        let cy = interp(a.y, b.y, n, i, dd);
        let r = interp(a.r, b.r, n, i, dd);
        let ri = if r < 1 { 1 } else { r };
        let ghost before = buf@;
        plot(buf, w, h, cx, cy, ri, g);
        proof {
            assert(all[i as int] == interp_dot(a, b, n as int, i as int, g, dd as int));
            assert(all.take(i + 1).drop_last() =~= all.take(i as int));
            assert(all.take(i + 1).last() == all[i as int]);
            lemma_apply_len(b0, w as int, h as int, all.take(i + 1));
        }
        i += 1;
    }
    assert(all.take(n + 1) =~= all);
}

/// Plot the dots of one stroke.
fn stroke_into(buf: &mut Vec<u8>, w: i32, h: i32, s: &Stroke, dd: i64)
    requires
        0 <= w,
        0 <= h,
        w * h <= old(buf)@.len(),
        10 <= dd <= 0x8_0000_0000,
        pts_ok(s.pts@),
    ensures
        final(buf)@ == apply_all(old(buf)@, w as int, h as int, stroke_dots(s@, dd as int)),
        final(buf)@.len() == old(buf)@.len(),
{
    let ghost b0 = buf@;
    let ghost pts = s.pts@;
    let n = s.pts.len();
    let ghost head = if n == 1 {
        seq![interp_dot(pts[0], pts[0], 1, 0, s.gray, dd as int)]
    } else {
        Seq::<Dot>::empty()
    };
    if n == 1 {
        let p = s.pts[0];
        assert(pts[0] == p);
        let cx = interp(p.x, p.x, 1, 0, dd);
        let cy = interp(p.y, p.y, 1, 0, dd);
        let r = interp(p.r, p.r, 1, 0, dd);
        let ri = if r < 1 { 1 } else { r };
        plot(buf, w, h, cx, cy, ri, s.gray);
        proof {
            let dot = interp_dot(pts[0], pts[0], 1, 0, s.gray, dd as int);
            assert(dot == Dot { cx: cx as int, cy: cy as int, ri: ri as int, g: s.gray });
            assert(head.drop_last() =~= Seq::<Dot>::empty());
            assert(head.last() == dot);
            assert(apply_all(b0, w as int, h as int, head.drop_last()) == b0);
            assert(buf@ == apply_all(b0, w as int, h as int, head));
        }
    }
    proof {
        lemma_apply_len(b0, w as int, h as int, head);
        assert(head + windows_dots(pts, s.gray, dd as int, 0) =~= head);
    }
    let mut k: usize = 1;
    while k < n
        invariant
            1 <= k,
            k <= n || k == 1,
            n == pts.len(),
            pts == s.pts@,
            pts_ok(pts),
            0 <= w,
            0 <= h,
            10 <= dd <= 0x8_0000_0000,
            w * h <= b0.len(),
            buf@.len() == b0.len(),
            buf@ == apply_all(b0, w as int, h as int, head + windows_dots(pts, s.gray, dd as int, k - 1)),
        decreases n - k,
    {
        let a = s.pts[k - 1];
        let b = s.pts[k];
        proof {
            assert(pts[k - 1] == a && pts[k as int] == b);
        }
        seg_into(buf, w, h, a, b, s.gray, dd);
        proof {
            let pre = head + windows_dots(pts, s.gray, dd as int, k - 1);
            let seg = seg_dots(a, b, s.gray, dd as int);
            lemma_apply_concat(b0, w as int, h as int, pre, seg);
            assert(pre + seg =~= head + windows_dots(pts, s.gray, dd as int, k as int));
            lemma_apply_len(b0, w as int, h as int, pre + seg);
        }
        k += 1;
    }
    proof {
        if n == 0 {
            assert(windows_dots(pts, s.gray, dd as int, -1) =~= windows_dots(pts, s.gray, dd as int, 0));
            assert(head + windows_dots(pts, s.gray, dd as int, -1) =~= head + windows_dots(pts, s.gray, dd as int, 0));
        } else {
            assert(k == n);
        }
        assert(stroke_dots(s@, dd as int) == head + windows_dots(pts, s.gray, dd as int, n - 1));
        assert(buf@ == apply_all(b0, w as int, h as int, head + windows_dots(pts, s.gray, dd as int, n - 1)));
    }
}

/// Plot the dots of a run of strokes, in order.
fn strokes_into(buf: &mut Vec<u8>, w: i32, h: i32, ss: &Vec<Stroke>, dd: i64)
    requires
        0 <= w,
        0 <= h,
        w * h <= old(buf)@.len(),
        10 <= dd <= 0x8_0000_0000,
        strokes_ok(strokes_view(ss@)),
    ensures
        final(buf)@ == apply_all(old(buf)@, w as int, h as int, strokes_dots(strokes_view(ss@), dd as int)),
        final(buf)@.len() == old(buf)@.len(),
{
    let ghost b0 = buf@;
    let ghost sv = strokes_view(ss@);
    assert(sv.take(0) =~= Seq::<StrokeV>::empty());
    let mut k: usize = 0;
    while k < ss.len()
        invariant
            k <= ss@.len(),
            sv == strokes_view(ss@),
            strokes_ok(sv),
            0 <= w,
            0 <= h,
            10 <= dd <= 0x8_0000_0000,
            w * h <= b0.len(),
            buf@.len() == b0.len(),
            buf@ == apply_all(b0, w as int, h as int, strokes_dots(sv.take(k as int), dd as int)),
        decreases ss.len() - k,
    {
        assert(sv[k as int] == ss@[k as int]@);
        assert(pts_ok(sv[k as int].pts));
        stroke_into(buf, w, h, &ss[k], dd);
        proof {
            assert(sv.take(k + 1).drop_last() =~= sv.take(k as int));
            assert(sv.take(k + 1).last() == sv[k as int]);
            lemma_apply_concat(b0, w as int, h as int, strokes_dots(sv.take(k as int), dd as int), stroke_dots(sv[k as int], dd as int));
        }
        k += 1;
    }
    assert(sv.take(ss@.len() as int) =~= sv);
}

impl Page {
    /// Plot the page's strokes into a 1/`div`-scale grayscale buffer
    /// (`SCREEN_W / div` by `SCREEN_H / div`, row-major; each stroke in
    /// its own tone, darkest wins) that starts white or as the shrunk book
    /// page. With a negative `div` the buffer has no pixels to plot.
    pub fn snapshot_into(&self, buf: &mut Vec<u8>, div: i32)
        requires
            div != 0,
            page_pts_ok(self@),
            div > 0 ==> snap_w(div as int) * snap_h(div as int) <= old(buf)@.len(),
        ensures
            div > 0 ==> final(buf)@ == apply_all(old(buf)@, snap_w(div as int), snap_h(div as int), page_dots(self@, div as int)),
            div < 0 ==> final(buf)@ == old(buf)@,
    {
        if div < 0 {
            return;
        }
        let (w, h) = (SCREEN_W / div, SCREEN_H / div);
        let dd = 10 * div as i64;
        let ghost b0 = buf@;
        strokes_into(buf, w, h, &self.strokes, dd);
        let ghost mid = buf@;
        let ghost ps = patches_view(self.patches@);
        assert(ps.take(0) =~= Seq::<PatchV>::empty());
        let mut k: usize = 0;
        while k < self.patches.len()
            invariant
                k <= self.patches@.len(),
                ps == patches_view(self.patches@),
                ps == self@.patches,
                page_pts_ok(self@),
                0 <= w,
                0 <= h,
                10 <= dd <= 0x8_0000_0000,
                w * h <= b0.len(),
                mid.len() == b0.len(),
                buf@.len() == b0.len(),
                buf@ == apply_all(mid, w as int, h as int, patches_dots(ps.take(k as int), dd as int)),
            decreases self.patches.len() - k,
        {
            assert(ps[k as int] == self.patches@[k as int]@);
            assert(strokes_ok(ps[k as int].strokes));
            strokes_into(buf, w, h, &self.patches[k].strokes, dd);
            proof {
                assert(ps.take(k + 1).drop_last() =~= ps.take(k as int));
                assert(ps.take(k + 1).last() == ps[k as int]);
                lemma_apply_concat(mid, w as int, h as int, patches_dots(ps.take(k as int), dd as int), strokes_dots(ps[k as int].strokes, dd as int));
            }
            k += 1;
        }
        proof {
            assert(ps.take(self.patches@.len() as int) =~= ps);
            lemma_apply_concat(b0, w as int, h as int, strokes_dots(self@.strokes, dd as int), patches_dots(ps, dd as int));
        }
    }

    /// The page alone at 1/`div` scale on white: (width, height, pixels).
    pub fn snapshot(&self, div: i32) -> (r: (i32, i32, Vec<u8>))
        requires
            div > 0,
            page_pts_ok(self@),
        ensures
            r.0 == snap_w(div as int),
            r.1 == snap_h(div as int),
            r.2@ == apply_all(Seq::new((r.0 * r.1) as nat, |i: int| 255u8), r.0 as int, r.1 as int, page_dots(self@, div as int)),
    {
        let (w, h) = (SCREEN_W / div, SCREEN_H / div);
        proof {
            assert(0 <= w * h <= SCREEN_W * SCREEN_H) by (nonlinear_arith)
                requires
                    0 <= w <= SCREEN_W,
                    0 <= h <= SCREEN_H,
            ;
        }
        let mut buf = vec![255u8; (w * h) as usize];
        assert forall|i: int| 0 <= i < buf@.len() implies #[trigger] buf@[i] == 255u8 by {
            assert(cloned(255u8, buf@[i]));
        }
        assert(buf@ =~= Seq::new((w * h) as nat, |i: int| 255u8));
        self.snapshot_into(&mut buf, div);
        (w, h, buf)
    }
}

} // verus!
