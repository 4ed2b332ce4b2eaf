//! Raster patches: grayscale images the assistant places on a page,
//! blitted under the strokes. Their file format ("SKR2": a count, then per
//! patch its id, position, size and pixels), the crop that trims a render
//! to its content, and the darkest-wins composite of several patches.

use vstd::prelude::*;
use crate::geom::{Rect, min_spec, max_spec, lemma_cell, lemma_split};

verus! {

/// One grayscale raster at its final on-page size; (x0, y0) is its
/// top-left corner, `gray` holds `w * h` pixels row by row (0 black,
/// 255 white).
#[derive(Debug)]
pub struct RasterPatch {
    pub id: u64,
    pub x0: i32,
    pub y0: i32,
    pub w: i32,
    pub h: i32,
    pub gray: Vec<u8>,
}

pub struct RasterV {
    pub id: u64,
    pub x0: i32,
    pub y0: i32,
    pub w: i32,
    pub h: i32,
    pub gray: Seq<u8>,
}

impl View for RasterPatch {
    type V = RasterV;

    open spec fn view(&self) -> RasterV {
        RasterV { id: self.id, x0: self.x0, y0: self.y0, w: self.w, h: self.h, gray: self.gray@ }
    }
}

pub open spec fn rasters_view(v: Seq<RasterPatch>) -> Seq<RasterV> {
    Seq::new(v.len(), |i: int| v[i]@)
}

/// A patch with a positive size whose pixels fill it exactly.
pub open spec fn raster_ok(r: RasterV) -> bool {
    r.w > 0 && r.h > 0 && r.gray.len() == r.w * r.h
}

impl RasterPatch {
    /// The inclusive rectangle the patch covers.
    pub fn rect(&self) -> (r: Rect)
        requires
            self.x0 + self.w - 1 <= i32::MAX,
            self.y0 + self.h - 1 <= i32::MAX,
            i32::MIN <= self.x0 + self.w - 1,
            i32::MIN <= self.y0 + self.h - 1,
        ensures
            r == (Rect { x0: self.x0, y0: self.y0, x1: (self.x0 + self.w - 1) as i32, y1: (self.y0 + self.h - 1) as i32 }),
    {
        Rect {
            x0: self.x0,
            y0: self.y0,
            x1: (self.x0 as i64 + self.w as i64 - 1) as i32,
            y1: (self.y0 as i64 + self.h as i64 - 1) as i32,
        }
    }

    /// Is the pixel (x, y) on the patch?
    pub fn contains(&self, x: i32, y: i32) -> (b: bool)
        ensures
            b == (self.x0 <= x < self.x0 + self.w && self.y0 <= y < self.y0 + self.h),
    {
        x >= self.x0 && (x as i64) < self.x0 as i64 + self.w as i64 && y >= self.y0 && (y as i64) < self.y0 as i64
            + self.h as i64
    }
}

/* ---- the file format ------------------------------------------------------- */

pub open spec fn u32_bytes(n: u32) -> Seq<u8> {
    seq![(n & 0xff) as u8, ((n >> 8) & 0xff) as u8, ((n >> 16) & 0xff) as u8, ((n >> 24) & 0xff) as u8]
}

pub open spec fn u64_bytes(n: u64) -> Seq<u8> {
    u32_bytes((n & 0xffff_ffff) as u32) + u32_bytes((n >> 32) as u32)
}

pub open spec fn i32_bytes(v: i32) -> Seq<u8> {
    u32_bytes(v as u32)
}

pub open spec fn get_u32(b: Seq<u8>, at: int) -> u32 {
    (b[at] as u32) | (b[at + 1] as u32) << 8 | (b[at + 2] as u32) << 16 | (b[at + 3] as u32) << 24
}

pub open spec fn get_u64(b: Seq<u8>, at: int) -> u64 {
    (get_u32(b, at) as u64) | (get_u32(b, at + 4) as u64) << 32
}

pub open spec fn get_i32(b: Seq<u8>, at: int) -> i32 {
    get_u32(b, at) as i32
}

/// The file's first four bytes.
pub open spec fn magic() -> Seq<u8> {
    seq![0x53u8, 0x4Bu8, 0x52u8, 0x32u8]
}

/// One patch as stored: id, x0, y0, w, h, then the pixels.
pub open spec fn record(r: RasterV) -> Seq<u8> {
    u64_bytes(r.id) + i32_bytes(r.x0) + i32_bytes(r.y0) + i32_bytes(r.w) + i32_bytes(r.h) + r.gray
}

pub open spec fn records(rs: Seq<RasterV>) -> Seq<u8>
    decreases rs.len(),
{
    if rs.len() == 0 {
        Seq::empty()
    } else {
        records(rs.drop_last()) + record(rs.last())
    }
}

/// The file holding the patches (an empty list is stored as no file).
pub open spec fn encode_spec(rs: Seq<RasterV>) -> Seq<u8> {
    magic() + u32_bytes(rs.len() as u32) + records(rs)
}

/// The patches read from `b` at `pos`, at most `count` of them; reading
/// stops at the first record that is cut short or has no area.
pub open spec fn decode_from(b: Seq<u8>, pos: int, count: int) -> Seq<RasterV>
    decreases count,
{
    if count <= 0 || pos < 0 || pos + 24 > b.len() {
        Seq::empty()
    } else {
        let w = get_i32(b, pos + 16);
        let h = get_i32(b, pos + 20);
        let start = pos + 24;
        if w <= 0 || h <= 0 || start + w * h > b.len() {
            Seq::empty()
        } else {
            let r = RasterV {
                id: get_u64(b, pos),
                x0: get_i32(b, pos + 8),
                y0: get_i32(b, pos + 12),
                w,
                h,
                gray: b.subrange(start, start + w * h),
            };
            seq![r] + decode_from(b, start + w * h, count - 1)
        }
    }
}

/// Reading a file: nothing unless it starts with the magic and a count.
pub open spec fn decode_spec(b: Seq<u8>) -> Seq<RasterV> {
    if b.len() < 8 || b.take(4) != magic() {
        Seq::empty()
    } else {
        decode_from(b, 8, get_u32(b, 4) as int)
    }
}

fn push_u32(out: &mut Vec<u8>, n: u32)
    ensures
        final(out)@ == old(out)@ + u32_bytes(n),
{
    out.push((n & 0xff) as u8);
    out.push(((n >> 8) & 0xff) as u8);
    out.push(((n >> 16) & 0xff) as u8);
    out.push(((n >> 24) & 0xff) as u8);
    assert(final(out)@ =~= old(out)@ + u32_bytes(n));
}

fn push_u64(out: &mut Vec<u8>, n: u64)
    ensures
        final(out)@ == old(out)@ + u64_bytes(n),
{
    push_u32(out, (n & 0xffff_ffff) as u32);
    push_u32(out, (n >> 32) as u32);
    assert(final(out)@ =~= old(out)@ + u64_bytes(n));
}

fn push_i32(out: &mut Vec<u8>, v: i32)
    ensures
        final(out)@ == old(out)@ + i32_bytes(v),
{
    push_u32(out, #[verifier::truncate] (v as u32));
}

/// The bytes of the file holding `rasters` (at most `u32::MAX` of them).
pub fn encode_rasters(rasters: &Vec<RasterPatch>) -> (b: Vec<u8>)
    requires
        rasters@.len() <= u32::MAX,
    ensures
        b@ == encode_spec(rasters_view(rasters@)),
{
    let ghost rv = rasters_view(rasters@);
    let mut out: Vec<u8> = Vec::new();
    out.push(0x53);
    out.push(0x4B);
    out.push(0x52);
    out.push(0x32);
    push_u32(&mut out, rasters.len() as u32);
    let ghost head = out@;
    assert(head =~= magic() + u32_bytes(rasters@.len() as u32));
    let mut i: usize = 0;
    while i < rasters.len()
        invariant
            i <= rasters@.len(),
            rv == rasters_view(rasters@),
            head == magic() + u32_bytes(rv.len() as u32),
            out@ == head + records(rv.take(i as int)),
        decreases rasters.len() - i,
    {
        let r = &rasters[i];
        let ghost o0 = out@;
        push_u64(&mut out, r.id);
        push_i32(&mut out, r.x0);
        push_i32(&mut out, r.y0);
        push_i32(&mut out, r.w);
        push_i32(&mut out, r.h);
        out.extend_from_slice(r.gray.as_slice());
        assert(rv.take(i + 1).drop_last() =~= rv.take(i as int));
        assert(rv.take(i + 1).last() == r@);
        assert(out@ =~= o0 + record(r@));
        i += 1;
    }
    assert(rv.take(rasters@.len() as int) =~= rv);
    out
}

fn read_u32(b: &Vec<u8>, at: usize) -> (n: u32)
    requires
        at + 4 <= b@.len(),
    ensures
        n == get_u32(b@, at as int),
{
    let _l = b.len();
    let b0 = b[at] as u32;
    let b1 = b[at + 1] as u32;
    let b2 = b[at + 2] as u32;
    let b3 = b[at + 3] as u32;
    b0 | b1 << 8 | b2 << 16 | b3 << 24
}

fn read_u64(b: &Vec<u8>, at: usize) -> (n: u64)
    requires
        at + 8 <= b@.len(),
    ensures
        n == get_u64(b@, at as int),
{
    let _l = b.len();
    let lo = read_u32(b, at) as u64;
    let hi = read_u32(b, at + 4) as u64;
    lo | hi << 32
}

fn read_i32(b: &Vec<u8>, at: usize) -> (v: i32)
    requires
        at + 4 <= b@.len(),
    ensures
        v == get_i32(b@, at as int),
{
    #[verifier::truncate] (read_u32(b, at) as i32)
}

/// Read the patches of a file; a damaged file yields the patches before
/// the damage.
pub fn decode_rasters(b: &Vec<u8>) -> (rs: Vec<RasterPatch>)
    ensures
        rasters_view(rs@) == decode_spec(b@),
{
    if b.len() < 8 || b[0] != 0x53 || b[1] != 0x4B || b[2] != 0x52 || b[3] != 0x32 {
        proof {
            if b@.len() >= 8 {
                assert(b@.take(4) != magic()) by {
                    assert(b@.take(4)[0] == b@[0]);
                    assert(b@.take(4)[1] == b@[1]);
                    assert(b@.take(4)[2] == b@[2]);
                    assert(b@.take(4)[3] == b@[3]);
                }
            }
        }
        return Vec::new();
    }
    assert(b@.take(4) =~= magic());
    let count = read_u32(b, 4);
    let mut out: Vec<RasterPatch> = Vec::new();
    let mut pos: usize = 8;
    let mut left: u32 = count;
    let ghost whole = decode_from(b@, 8, count as int);
    assert(whole == decode_spec(b@));
    while left > 0
        invariant
            8 <= pos <= b@.len(),
            whole == decode_from(b@, 8, count as int),
            whole == decode_spec(b@),
            rasters_view(out@) + decode_from(b@, pos as int, left as int) == whole,
        decreases left,
    {
        if b.len() < 24 || pos > b.len() - 24 {
            proof {
                assert(decode_from(b@, pos as int, left as int) =~= Seq::<RasterV>::empty());
                assert(rasters_view(out@) + Seq::<RasterV>::empty() =~= rasters_view(out@));
            }
            return out;
        }
        let id = read_u64(b, pos);
        let x0 = read_i32(b, pos + 8);
        let y0 = read_i32(b, pos + 12);
        let w = read_i32(b, pos + 16);
        let h = read_i32(b, pos + 20);
        let start = pos + 24;
        let fits = if w <= 0 || h <= 0 {
            false
        } else {
            assert((w as u64) * (h as u64) <= 0x4000_0000_0000_0000u64) by (nonlinear_arith)
                requires
                    0 < w <= i32::MAX,
                    0 < h <= i32::MAX,
            ;
            (w as u64) * (h as u64) <= (b.len() - start) as u64
        };
        if !fits {
            proof {
                assert(decode_from(b@, pos as int, left as int) =~= Seq::<RasterV>::empty());
                assert(rasters_view(out@) + Seq::<RasterV>::empty() =~= rasters_view(out@));
            }
            return out;
        }
        let n = (w as usize) * (h as usize);
        let mut gray: Vec<u8> = Vec::new();
        let mut k: usize = 0;
        while k < n
            invariant
                k <= n,
                start + n <= b@.len(),
                gray@ =~= b@.subrange(start as int, start + k),
            decreases n - k,
        {
            let _l = b.len();
            gray.push(b[start + k]);
            k += 1;
        }
        let r = RasterPatch { id, x0, y0, w, h, gray };
        let ghost o0 = rasters_view(out@);
        let ghost rest = decode_from(b@, (start + n) as int, left - 1);
        assert(decode_from(b@, pos as int, left as int) == seq![r@] + rest);
        out.push(r);
        assert(rasters_view(out@) =~= o0.push(r@));
        assert(o0.push(r@) + rest =~= o0 + (seq![r@] + rest));
        pos = start + n;
        left = left - 1;
    }
    assert(decode_from(b@, pos as int, 0) =~= Seq::<RasterV>::empty());
    assert(rasters_view(out@) + Seq::<RasterV>::empty() =~= rasters_view(out@));
    out
}

proof fn lemma_u32_read(b: Seq<u8>, at: int, n: u32)
    requires
        0 <= at,
        at + 4 <= b.len(),
        b.subrange(at, at + 4) == u32_bytes(n),
    ensures
        get_u32(b, at) == n,
{
    let c0 = (n & 0xff) as u8;
    let c1 = ((n >> 8) & 0xff) as u8;
    let c2 = ((n >> 16) & 0xff) as u8;
    let c3 = ((n >> 24) & 0xff) as u8;
    assert(b[at] == b.subrange(at, at + 4)[0]);
    assert(b[at + 1] == b.subrange(at, at + 4)[1]);
    assert(b[at + 2] == b.subrange(at, at + 4)[2]);
    assert(b[at + 3] == b.subrange(at, at + 4)[3]);
    assert((c0 as u32) | (c1 as u32) << 8 | (c2 as u32) << 16 | (c3 as u32) << 24 == n) by (bit_vector)
        requires
            c0 == (n & 0xff) as u8,
            c1 == ((n >> 8) & 0xff) as u8,
            c2 == ((n >> 16) & 0xff) as u8,
            c3 == ((n >> 24) & 0xff) as u8,
    ;
}

proof fn lemma_u64_read(b: Seq<u8>, at: int, n: u64)
    requires
        0 <= at,
        at + 8 <= b.len(),
        b.subrange(at, at + 8) == u64_bytes(n),
    ensures
        get_u64(b, at) == n,
{
    let lo = (n & 0xffff_ffff) as u32;
    let hi = (n >> 32) as u32;
    assert(b.subrange(at, at + 4) =~= b.subrange(at, at + 8).take(4));
    assert(b.subrange(at + 4, at + 8) =~= b.subrange(at, at + 8).skip(4));
    assert(u64_bytes(n).take(4) =~= u32_bytes(lo));
    assert(u64_bytes(n).skip(4) =~= u32_bytes(hi));
    lemma_u32_read(b, at, lo);
    lemma_u32_read(b, at + 4, hi);
    assert((lo as u64) | (hi as u64) << 32 == n) by (bit_vector)
        requires
            lo == (n & 0xffff_ffff) as u32,
            hi == (n >> 32) as u32,
    ;
}

proof fn lemma_i32_read(b: Seq<u8>, at: int, v: i32)
    requires
        0 <= at,
        at + 4 <= b.len(),
        b.subrange(at, at + 4) == i32_bytes(v),
    ensures
        get_i32(b, at) == v,
{
    lemma_u32_read(b, at, v as u32);
    let u = v as u32;
    assert((u as i32) == v) by (bit_vector)
        requires
            u == v as u32,
    ;
}

proof fn lemma_records_front(rs: Seq<RasterV>)
    requires
        rs.len() > 0,
    ensures
        records(rs) == record(rs[0]) + records(rs.drop_first()),
    decreases rs.len(),
{
    if rs.len() == 1 {
        assert(rs.drop_first() =~= Seq::<RasterV>::empty());
        assert(rs.drop_last() =~= Seq::<RasterV>::empty());
        assert(records(rs.drop_last()) =~= Seq::<u8>::empty());
        assert(rs.last() == rs[0]);
        assert(records(rs) =~= record(rs[0]));
    } else {
        let pre = rs.drop_last();
        lemma_records_front(pre);
        assert(pre.drop_first() =~= rs.drop_first().drop_last());
        assert(rs.drop_first().last() == rs.last());
        assert(records(rs) =~= record(rs[0]) + records(rs.drop_first()));
    }
}

proof fn lemma_record_at(b: Seq<u8>, pos: int, r: RasterV)
    requires
        0 <= pos,
        pos + record(r).len() <= b.len(),
        b.subrange(pos, pos + record(r).len()) == record(r),
        raster_ok(r),
    ensures
        get_u64(b, pos) == r.id,
        get_i32(b, pos + 8) == r.x0,
        get_i32(b, pos + 12) == r.y0,
        get_i32(b, pos + 16) == r.w,
        get_i32(b, pos + 20) == r.h,
        record(r).len() == 24 + r.w * r.h,
        b.subrange(pos + 24, pos + 24 + r.w * r.h) == r.gray,
{
    let rec = record(r);
    let sub = b.subrange(pos, pos + rec.len());
    assert(b.subrange(pos, pos + 8) =~= sub.subrange(0, 8));
    assert(b.subrange(pos + 8, pos + 12) =~= sub.subrange(8, 12));
    assert(b.subrange(pos + 12, pos + 16) =~= sub.subrange(12, 16));
    assert(b.subrange(pos + 16, pos + 20) =~= sub.subrange(16, 20));
    assert(b.subrange(pos + 20, pos + 24) =~= sub.subrange(20, 24));
    assert(b.subrange(pos + 24, pos + 24 + r.w * r.h) =~= sub.subrange(24, 24 + r.w * r.h));
    assert(rec.subrange(0, 8) =~= u64_bytes(r.id));
    assert(rec.subrange(8, 12) =~= i32_bytes(r.x0));
    assert(rec.subrange(12, 16) =~= i32_bytes(r.y0));
    assert(rec.subrange(16, 20) =~= i32_bytes(r.w));
    assert(rec.subrange(20, 24) =~= i32_bytes(r.h));
    assert(rec.subrange(24, 24 + r.w * r.h) =~= r.gray);
    lemma_u64_read(b, pos, r.id);
    lemma_i32_read(b, pos + 8, r.x0);
    lemma_i32_read(b, pos + 12, r.y0);
    lemma_i32_read(b, pos + 16, r.w);
    lemma_i32_read(b, pos + 20, r.h);
}

proof fn lemma_decode_records(p: Seq<u8>, rs: Seq<RasterV>)
    requires
        forall|k: int| 0 <= k < rs.len() ==> raster_ok(#[trigger] rs[k]),
    ensures
        decode_from(p + records(rs), p.len() as int, rs.len() as int) == rs,
    decreases rs.len(),
{
    let b = p + records(rs);
    if rs.len() > 0 {
        lemma_records_front(rs);
        let r = rs[0];
        let rest = rs.drop_first();
        assert(raster_ok(r));
        let pos = p.len() as int;
        let rec = record(r);
        assert(b =~= (p + rec) + records(rest));
        assert(b.subrange(pos, pos + rec.len()) =~= rec);
        lemma_record_at(b, pos, r);
        assert forall|k: int| 0 <= k < rest.len() implies raster_ok(#[trigger] rest[k]) by {
            assert(rest[k] == rs[k + 1]);
        }
        lemma_decode_records(p + rec, rest);
        let start = pos + 24;
        assert((p + rec).len() == start + r.w * r.h);
        assert(decode_from(b, pos, rs.len() as int) == seq![r] + decode_from(b, start + r.w * r.h, rs.len() - 1));
        assert(seq![r] + rest =~= rs);
    } else {
        assert(decode_from(b, p.len() as int, 0) =~= rs);
    }
}

/// Writing raster patches to their file and reading it back gives the
/// same patches, in order.
pub proof fn lemma_rasters_roundtrip(rs: Seq<RasterV>)
    requires
        rs.len() <= u32::MAX,
        forall|k: int| 0 <= k < rs.len() ==> raster_ok(#[trigger] rs[k]),
    ensures
        decode_spec(encode_spec(rs)) == rs,
{
    let b = encode_spec(rs);
    let p = magic() + u32_bytes(rs.len() as u32);
    assert(b =~= p + records(rs));
    assert(b.take(4) =~= magic());
    assert(b.subrange(4, 8) =~= u32_bytes(rs.len() as u32));
    lemma_u32_read(b, 4, rs.len() as u32);
    lemma_decode_records(p, rs);
}

/* ---- cropping a render to its content ------------------------------------------- */

/// A pixel darker than paper.
pub open spec fn inked(g: Seq<u8>, w: int, x: int, y: int) -> bool {
    g[y * w + x] < 250
}

/// Does the image hold any ink?
pub open spec fn has_ink(g: Seq<u8>, w: int, h: int) -> bool {
    exists|x: int, y: int| 0 <= x < w && 0 <= y < h && #[trigger] inked(g, w, x, y)
}

/// The box of the ink: every inked pixel lies within it, and ink touches
/// each of its four edges.
pub open spec fn ink_bounds(g: Seq<u8>, w: int, h: int, x0: int, y0: int, x1: int, y1: int) -> bool {
    &&& forall|x: int, y: int| 0 <= x < w && 0 <= y < h && #[trigger] inked(g, w, x, y) ==> x0 <= x <= x1 && y0 <= y <= y1
    &&& exists|y: int| 0 <= y < h && 0 <= x0 < w && #[trigger] inked(g, w, x0, y)
    &&& exists|y: int| 0 <= y < h && 0 <= x1 < w && #[trigger] inked(g, w, x1, y)
    &&& exists|x: int| 0 <= x < w && 0 <= y0 < h && #[trigger] inked(g, w, x, y0)
    &&& exists|x: int| 0 <= x < w && 0 <= y1 < h && #[trigger] inked(g, w, x, y1)
}

/// Rows `y0 .. y0 + n` of the columns `x0 .. x0 + cw`, row after row.
pub open spec fn crop_rows(g: Seq<u8>, w: int, x0: int, y0: int, cw: int, n: int) -> Seq<u8>
    decreases n,
{
    if n <= 0 {
        Seq::empty()
    } else {
        let y = y0 + n - 1;
        crop_rows(g, w, x0, y0, cw, n - 1) + g.subrange(y * w + x0, y * w + x0 + cw)
    }
}

/// The crop for an ink box: padded by 2 and clamped to the image; the
/// image itself (at offset 0, 0) when the crop would be all of it.
pub open spec fn crop_spec(g: Seq<u8>, w: int, h: int, x0: int, y0: int, x1: int, y1: int) -> (Seq<u8>, int, int, int, int) {
    let cx0 = max_spec(x0 - 2, 0);
    let cy0 = max_spec(y0 - 2, 0);
    let cx1 = min_spec(x1 + 2, w - 1);
    let cy1 = min_spec(y1 + 2, h - 1);
    let (cw, ch) = (cx1 - cx0 + 1, cy1 - cy0 + 1);
    if cw == w && ch == h {
        (g, w, h, 0, 0)
    } else {
        (crop_rows(g, w, cx0, cy0, cw, ch), cw, ch, cx0, cy0)
    }
}

proof fn lemma_index(x: int, y: int, w: int, h: int)
    requires
        0 <= x < w,
        0 <= y < h,
    ensures
        0 <= y * w + x < w * h,
        y * w + x + (w - x) <= w * h,
{
    assert(0 <= y * w + x < w * h && y * w + w <= w * h) by (nonlinear_arith)
        requires
            0 <= x < w,
            0 <= y < h,
    ;
}

/// Crop a grayscale render (row-major, `w` by `h`) to its ink plus a
/// 2-pixel margin: (pixels, width, height, x offset, y offset). A blank
/// image, or one whose ink reaches its margins, comes back whole.
pub fn content_crop(gray: Vec<u8>, w: i32, h: i32) -> (r: (Vec<u8>, i32, i32, i32, i32))
    requires
        w >= 0,
        h >= 0,
        gray@.len() == w * h,
    ensures
        !has_ink(gray@, w as int, h as int) ==> r.0@ == gray@ && r.1 == w && r.2 == h && r.3 == 0 && r.4 == 0,
        has_ink(gray@, w as int, h as int) ==> exists|x0: int, y0: int, x1: int, y1: int|
            ink_bounds(gray@, w as int, h as int, x0, y0, x1, y1) && (r.0@, r.1 as int, r.2 as int, r.3 as int, r.4 as int)
                == crop_spec(gray@, w as int, h as int, x0, y0, x1, y1),
{
    let ghost g = gray@;
    let glen = gray.len();
    let (mut x0, mut y0, mut x1, mut y1) = (w, h, -1i32, -1i32);
    let ghost mut ay: int = 0;
    let ghost mut by: int = 0;
    let ghost mut cx: int = 0;
    let ghost mut dx: int = 0;
    let mut y: i32 = 0;
    while y < h
        invariant
            0 <= y <= h,
            g == gray@,
            g.len() == w * h,
            glen == g.len(),
            w >= 0,
            x1 < 0 ==> x0 == w && y0 == h && y1 < 0,
            x1 < 0 ==> forall|xx: int, yy: int| 0 <= xx < w && 0 <= yy < y ==> !#[trigger] inked(g, w as int, xx, yy),
            x1 >= 0 ==> {
                &&& 0 <= x0 <= x1 < w && 0 <= y0 <= y1 < y
                &&& forall|xx: int, yy: int| 0 <= xx < w && 0 <= yy < y && #[trigger] inked(g, w as int, xx, yy)
                    ==> x0 <= xx <= x1 && y0 <= yy <= y1
                &&& 0 <= ay < h && inked(g, w as int, x0 as int, ay)
                &&& 0 <= by < h && inked(g, w as int, x1 as int, by)
                &&& 0 <= cx < w && inked(g, w as int, cx, y0 as int)
                &&& 0 <= dx < w && inked(g, w as int, dx, y1 as int)
            },
        decreases h - y,
    {
        let mut x: i32 = 0;
        while x < w
            invariant
                0 <= y < h,
                0 <= x <= w,
                g == gray@,
                g.len() == w * h,
                glen == g.len(),
                x1 < 0 ==> x0 == w && y0 == h && y1 < 0,
                x1 < 0 ==> forall|xx: int, yy: int| 0 <= xx < w && 0 <= yy < h && (yy < y || (yy == y && xx < x))
                    ==> !#[trigger] inked(g, w as int, xx, yy),
                x1 >= 0 ==> {
                    &&& 0 <= x0 <= x1 < w && 0 <= y0 <= y1 <= y
                    &&& forall|xx: int, yy: int| 0 <= xx < w && 0 <= yy < h && (yy < y || (yy == y && xx < x)) && #[trigger] inked(g, w as int, xx, yy)
                        ==> x0 <= xx <= x1 && y0 <= yy <= y1
                    &&& 0 <= ay < h && inked(g, w as int, x0 as int, ay)
                    &&& 0 <= by < h && inked(g, w as int, x1 as int, by)
                    &&& 0 <= cx < w && inked(g, w as int, cx, y0 as int)
                    &&& 0 <= dx < w && inked(g, w as int, dx, y1 as int)
                },
            decreases w - x,
        {
            proof {
                lemma_index(x as int, y as int, w as int, h as int);
            }
            assert(y * w + x < glen);
            assert((y as usize) as int == y && (w as usize) as int == w);
            let idx = (y as usize) * (w as usize) + x as usize;
            assert(idx == y * w + x);
            if gray[idx] < 250 {
                assert(inked(g, w as int, x as int, y as int));
                if x1 < 0 {
                    proof {
                        ay = y as int;
                        by = y as int;
                        cx = x as int;
                        dx = x as int;
                    }
                    x0 = x;
                    x1 = x;
                    y0 = y;
                    y1 = y;
                } else {
                    if x < x0 {
                        x0 = x;
                        proof {
                            ay = y as int;
                        }
                    }
                    if x > x1 {
                        x1 = x;
                        proof {
                            by = y as int;
                        }
                    }
                    if y < y0 {
                        y0 = y;
                        proof {
                            cx = x as int;
                        }
                    }
                    if y > y1 {
                        y1 = y;
                        proof {
                            dx = x as int;
                        }
                    }
                }
            }
            x += 1;
        }
        y += 1;
    }
    if x1 < 0 {
        assert(!has_ink(g, w as int, h as int)) by {
            if has_ink(g, w as int, h as int) {
                let (xx, yy) = choose|xx: int, yy: int| 0 <= xx < w && 0 <= yy < h && #[trigger] inked(g, w as int, xx, yy);
                assert(!inked(g, w as int, xx, yy));
            }
        }
        return (gray, w, h, 0, 0);
    }
    assert(ink_bounds(g, w as int, h as int, x0 as int, y0 as int, x1 as int, y1 as int));
    assert(has_ink(g, w as int, h as int)) by {
        assert(inked(g, w as int, x0 as int, ay));
    }
    let cx0 = if x0 - 2 > 0 { x0 - 2 } else { 0 };
    let cy0 = if y0 - 2 > 0 { y0 - 2 } else { 0 };
    let cx1 = if (x1 as i64) + 2 < (w as i64) - 1 { x1 + 2 } else { w - 1 };
    let cy1 = if (y1 as i64) + 2 < (h as i64) - 1 { y1 + 2 } else { h - 1 };
    let cw = cx1 - cx0 + 1;
    let ch = cy1 - cy0 + 1;
    if cw == w && ch == h {
        return (gray, w, h, 0, 0);
    }
    let mut out: Vec<u8> = Vec::new();
    let mut row: i32 = 0;
    while row < ch
        invariant
            0 <= row <= ch,
            0 <= cx0 <= cx1 < w,
            0 <= cy0 <= cy1 < h,
            cw == cx1 - cx0 + 1,
            ch == cy1 - cy0 + 1,
            g == gray@,
            g.len() == w * h,
            glen == g.len(),
            out@ == crop_rows(g, w as int, cx0 as int, cy0 as int, cw as int, row as int),
        decreases ch - row,
    {
        let yy = cy0 + row;
        proof {
            lemma_index(cx0 as int, yy as int, w as int, h as int);
            lemma_index(cx1 as int, yy as int, w as int, h as int);
        }
        assert(yy * w + cx0 < glen);
        assert((yy as usize) as int == yy && (w as usize) as int == w);
        let base = (yy as usize) * (w as usize) + cx0 as usize;
        assert(base == yy * w + cx0);
        let ghost o0 = out@;
        let mut k: usize = 0;
        while k < cw as usize
            invariant
                k <= cw,
                base + cw <= g.len(),
                glen == g.len(),
                g == gray@,
                out@ == o0 + g.subrange(base as int, base + k),
            decreases cw as usize - k,
        {
            out.push(gray[base + k]);
            assert(g.subrange(base as int, base + k + 1) =~= g.subrange(base as int, base + k).push(g[base + k]));
            k += 1;
        }
        row += 1;
    }
    (out, cw, ch, cx0, cy0)
}


/* ---- compositing --------------------------------------------------------------- */

/// Does the patch cover the pixel (x, y)?
pub open spec fn covers(r: RasterV, x: int, y: int) -> bool {
    r.x0 <= x < r.x0 + r.w && r.y0 <= y < r.y0 + r.h
}

/// The patch's pixel at page position (x, y).
pub open spec fn pixel_at(r: RasterV, x: int, y: int) -> u8 {
    r.gray[(y - r.y0) * r.w + (x - r.x0)]
}

/// The patches laid over white, darkest wins: the tone of page pixel
/// (x, y).
pub open spec fn composite_px(rs: Seq<RasterV>, x: int, y: int) -> u8
    decreases rs.len(),
{
    if rs.len() == 0 {
        255
    } else {
        let below = composite_px(rs.drop_last(), x, y);
        let r = rs.last();
        if covers(r, x, y) && pixel_at(r, x, y) < below {
            pixel_at(r, x, y)
        } else {
            below
        }
    }
}

/// A patch whose inclusive corners fit an `i32`.
pub open spec fn raster_fits(r: RasterV) -> bool {
    raster_ok(r) && r.x0 + r.w - 1 <= i32::MAX && r.y0 + r.h - 1 <= i32::MAX
}

pub open spec fn refs_view(v: Seq<&RasterPatch>) -> Seq<RasterV> {
    Seq::new(v.len(), |i: int| v[i]@)
}

/// The patches over white, cut to `region` (inclusive corners): a
/// row-major buffer of `region.w() * region.h()` tones, each the darkest
/// that any patch puts on that pixel (white where none does).
pub fn raster_composite(rasters: &[&RasterPatch], region: Rect) -> (buf: Vec<u8>)
    requires
        i32::MIN < region.x1 - region.x0 < i32::MAX,
        i32::MIN < region.y1 - region.y0 < i32::MAX,
        0 <= (region.x1 - region.x0 + 1) * (region.y1 - region.y0 + 1) <= i32::MAX,
        forall|k: int| 0 <= k < rasters@.len() ==> raster_fits(#[trigger] rasters@[k]@),
    ensures
        ({
            let rw = region.x1 - region.x0 + 1;
            let rh = region.y1 - region.y0 + 1;
            &&& buf@.len() == rw * rh
            &&& forall|d: int| 0 <= d < buf@.len() ==> #[trigger] buf@[d] == if rw > 0 && rh > 0 {
                composite_px(refs_view(rasters@), region.x0 + d % rw, region.y0 + d / rw)
            } else {
                255u8
            }
        }),
{
    let rw = region.w();
    let rh = region.h();
    let n = (rw * rh) as usize;
    let mut buf = vec![255u8; n];
    let ghost rs = refs_view(rasters@);
    let ghost rwi = rw as int;
    if rw <= 0 || rh <= 0 {
        assert forall|d: int| 0 <= d < buf@.len() implies #[trigger] buf@[d] == 255u8 by {
            assert(cloned(255u8, buf@[d]));
        }
        return buf;
    }
    assert forall|d: int| 0 <= d < buf@.len() implies #[trigger] buf@[d] == composite_px(
        rs.take(0),
        region.x0 + d % rwi,
        region.y0 + d / rwi,
    ) by {
        assert(cloned(255u8, buf@[d]));
    }
    proof {
        assert((rwi * rh) % rwi == 0) by (nonlinear_arith)
            requires
                rwi > 0,
        ;
        assert((rwi * rh) / rwi == rh) by (nonlinear_arith)
            requires
                rwi > 0,
        ;
    }
    let mut k: usize = 0;
    while k < rasters.len()
        invariant
            k <= rasters@.len(),
            rs == refs_view(rasters@),
            forall|q: int| 0 <= q < rasters@.len() ==> raster_fits(#[trigger] rasters@[q]@),
            rw == region.x1 - region.x0 + 1,
            rh == region.y1 - region.y0 + 1,
            rwi == rw,
            rw > 0,
            rh > 0,
            n == rw * rh,
            (rwi * rh) % rwi == 0,
            (rwi * rh) / rwi == rh,
            buf@.len() == n,
            forall|d: int| 0 <= d < buf@.len() ==> #[trigger] buf@[d] == composite_px(
                rs.take(k as int),
                region.x0 + d % rwi,
                region.y0 + d / rwi,
            ),
        decreases rasters.len() - k,
    {
        let rl: &RasterPatch = rasters[k];
        let ghost r = rl@;
        assert(r == rs[k as int]);
        assert(raster_fits(rasters@[k as int]@));
        let rr = rl.rect();
        let x0: i64 = if region.x0 > rr.x0 { region.x0 as i64 } else { rr.x0 as i64 };
        let y0: i64 = if region.y0 > rr.y0 { region.y0 as i64 } else { rr.y0 as i64 };
        let x1: i64 = if region.x1 < rr.x1 { region.x1 as i64 } else { rr.x1 as i64 };
        let y1: i64 = if region.y1 < rr.y1 { region.y1 as i64 } else { rr.y1 as i64 };
        let ghost prev = rs.take(k as int);
        let ghost next = rs.take(k + 1);
        proof {
            assert(next.drop_last() =~= prev);
            assert(next.last() == r);
        }
        let mut y: i64 = y0;
        while y <= y1
            invariant
                y0 <= y <= if y1 + 1 > y0 { y1 + 1 } else { y0 as int },
                x0 == if region.x0 > r.x0 { region.x0 as int } else { r.x0 as int },
                y0 == if region.y0 > r.y0 { region.y0 as int } else { r.y0 as int },
                x1 == if region.x1 < r.x0 + r.w - 1 { region.x1 as int } else { r.x0 + r.w - 1 },
                y1 == if region.y1 < r.y0 + r.h - 1 { region.y1 as int } else { r.y0 + r.h - 1 },
                r == rl@,
                raster_fits(r),
                next.len() > 0,
                next.drop_last() == prev,
                next.last() == r,
                rw == region.x1 - region.x0 + 1,
                rh == region.y1 - region.y0 + 1,
                rwi == rw,
                rw > 0,
                rh > 0,
                n == rw * rh,
                (rwi * rh) % rwi == 0,
                (rwi * rh) / rwi == rh,
                buf@.len() == n,
                forall|d: int| 0 <= d < buf@.len() ==> #[trigger] buf@[d] == if region.y0 + d / rwi < y {
                    composite_px(next, region.x0 + d % rwi, region.y0 + d / rwi)
                } else {
                    composite_px(prev, region.x0 + d % rwi, region.y0 + d / rwi)
                },
            decreases y1 + 1 - y,
        {
            proof {
                assert forall|d: int| 0 <= d < buf@.len() implies #[trigger] buf@[d] == if region.y0 + d / rwi
                    < y || (region.y0 + d / rwi == y && region.x0 + d % rwi < x0) {
                    composite_px(next, region.x0 + d % rwi, region.y0 + d / rwi)
                } else {
                    composite_px(prev, region.x0 + d % rwi, region.y0 + d / rwi)
                } by {
                    lemma_cell(d, rwi, n as int);
                    let (px, py) = (region.x0 + d % rwi, region.y0 + d / rwi);
                    if py == y && px < x0 {
                        assert(!covers(r, px, py));
                    }
                }
            }
            let mut x: i64 = x0;
            while x <= x1
                invariant
                    y0 <= y <= y1,
                    x0 <= x <= if x1 + 1 > x0 { x1 + 1 } else { x0 as int },
                    x0 == if region.x0 > r.x0 { region.x0 as int } else { r.x0 as int },
                    y0 == if region.y0 > r.y0 { region.y0 as int } else { r.y0 as int },
                    x1 == if region.x1 < r.x0 + r.w - 1 { region.x1 as int } else { r.x0 + r.w - 1 },
                    y1 == if region.y1 < r.y0 + r.h - 1 { region.y1 as int } else { r.y0 + r.h - 1 },
                    r == rl@,
                    raster_fits(r),
                    next.len() > 0,
                    next.drop_last() == prev,
                    next.last() == r,
                    rw == region.x1 - region.x0 + 1,
                    rh == region.y1 - region.y0 + 1,
                    rwi == rw,
                    rw > 0,
                    rh > 0,
                    n == rw * rh,
                    (rwi * rh) % rwi == 0,
                    (rwi * rh) / rwi == rh,
                    buf@.len() == n,
                    forall|d: int| 0 <= d < buf@.len() ==> #[trigger] buf@[d] == if region.y0 + d / rwi < y || (
                    region.y0 + d / rwi == y && region.x0 + d % rwi < x) {
                        composite_px(next, region.x0 + d % rwi, region.y0 + d / rwi)
                    } else {
                        composite_px(prev, region.x0 + d % rwi, region.y0 + d / rwi)
                    },
                decreases x1 + 1 - x,
            {
                let (ry, rx) = (y - rl.y0 as i64, x - rl.x0 as i64);
                let (dy, dx) = (y - region.y0 as i64, x - region.x0 as i64);
                proof {
                    lemma_index(rx as int, ry as int, r.w as int, r.h as int);
                    lemma_index(dx as int, dy as int, rwi, rh as int);
                    assert((ry as usize) as int == ry && (rx as usize) as int == rx);
                    assert((rl.w as usize) as int == r.w);
                    assert((dy as usize) as int == dy && (dx as usize) as int == dx);
                    assert((rw as usize) as int == rw);
                }
                let glen = rl.gray.len();
                assert(ry * r.w + rx < glen);
                let src = (ry as usize) * (rl.w as usize) + rx as usize;
                let dst = (dy as usize) * (rw as usize) + dx as usize;
                let g = rl.gray[src];
                let ghost old_buf = buf@;
                if g < buf[dst] {
                    buf.set(dst, g);
                }
                proof {
                    lemma_split(dx as int, dy as int, rwi);
                    assert(pixel_at(r, x as int, y as int) == g);
                    assert(covers(r, x as int, y as int));
                    assert forall|d: int| 0 <= d < buf@.len() implies #[trigger] buf@[d] == if region.y0 + d / rwi
                        < y || (region.y0 + d / rwi == y && region.x0 + d % rwi < x + 1) {
                        composite_px(next, region.x0 + d % rwi, region.y0 + d / rwi)
                    } else {
                        composite_px(prev, region.x0 + d % rwi, region.y0 + d / rwi)
                    } by {
                        lemma_cell(d, rwi, n as int);
                        if d != dst {
                            assert(old_buf[d] == buf@[d]);
                            if region.y0 + d / rwi == y && region.x0 + d % rwi == x {
                                assert(d == (d / rwi) * rwi + d % rwi);
                                assert(d == dst);
                            }
                        }
                    }
                }
                x += 1;
            }
            proof {
                assert forall|d: int| 0 <= d < buf@.len() implies #[trigger] buf@[d] == if region.y0 + d / rwi
                    < y + 1 {
                    composite_px(next, region.x0 + d % rwi, region.y0 + d / rwi)
                } else {
                    composite_px(prev, region.x0 + d % rwi, region.y0 + d / rwi)
                } by {
                    lemma_cell(d, rwi, n as int);
                    let (px, py) = (region.x0 + d % rwi, region.y0 + d / rwi);
                    if py == y && !(px < x) {
                        assert(!covers(r, px, py));
                    }
                }
            }
            y += 1;
        }
        proof {
            assert forall|d: int| 0 <= d < buf@.len() implies #[trigger] buf@[d] == composite_px(
                next,
                region.x0 + d % rwi,
                region.y0 + d / rwi,
            ) by {
                lemma_cell(d, rwi, n as int);
                let (px, py) = (region.x0 + d % rwi, region.y0 + d / rwi);
                if !(py < y) {
                    assert(!covers(r, px, py));
                }
            }
        }
        k += 1;
    }
    assert(rs.take(rasters@.len() as int) =~= rs);
    buf
}


/// The id the next patch gets: one past the largest id, 1 for none.
pub open spec fn next_id_spec(rs: Seq<RasterV>) -> u64
    decreases rs.len(),
{
    if rs.len() == 0 {
        1
    } else {
        let m = (rs.last().id + 1) as u64;
        if rs.len() == 1 {
            m
        } else {
            let rest = next_id_spec(rs.drop_last());
            if rest >= m {
                rest
            } else {
                m
            }
        }
    }
}

pub fn next_raster_id(rasters: &Vec<RasterPatch>) -> (id: u64)
    requires
        forall|k: int| 0 <= k < rasters@.len() ==> #[trigger] rasters@[k].id < u64::MAX,
    ensures
        id == next_id_spec(rasters_view(rasters@)),
        forall|k: int| 0 <= k < rasters@.len() ==> #[trigger] rasters@[k].id < id,
{
    let ghost rv = rasters_view(rasters@);
    let mut best: u64 = 1;
    let mut i: usize = 0;
    while i < rasters.len()
        invariant
            i <= rasters@.len(),
            rv == rasters_view(rasters@),
            forall|k: int| 0 <= k < rasters@.len() ==> #[trigger] rasters@[k].id < u64::MAX,
            i > 0 ==> best == next_id_spec(rv.take(i as int)),
            i == 0 ==> best == 1,
            forall|k: int| 0 <= k < i ==> #[trigger] rasters@[k].id < best,
        decreases rasters.len() - i,
    {
        let m = rasters[i].id + 1;
        proof {
            assert(rv.take(i + 1).drop_last() =~= rv.take(i as int));
            assert(rv.take(i + 1).last() == rv[i as int]);
        }
        if i == 0 || m > best {
            best = m;
        }
        i += 1;
    }
    assert(rv.take(rasters@.len() as int) =~= rv);
    best
}

} // verus!
