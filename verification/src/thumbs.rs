//! Home-grid thumbnails: the first entry of a document at a quarter of
//! the panel size (351 x 468 gray), cached beside the document and
//! regenerated when its state or ink is newer than the cache.

use vstd::prelude::*;
use crate::num::{digits, zero_pad, decimal_padded};
use crate::store::{join_path, path_in};
use crate::strs::chars_of;

verus! {

/// Scale-down factor of a thumbnail.
pub const THUMB_DIV: i32 = 4;

/// Thumbnail width: a quarter of the panel width.
pub const THUMB_W: i32 = 351;

/// Thumbnail height: a quarter of the panel height.
pub const THUMB_H: i32 = 468;

/// Panel width, the row pitch of a full-size raster.
pub const SRC_W: i32 = 1404;

/// Sum of `k` consecutive source pixels from `base`.
pub open spec fn run_sum(src: Seq<u8>, base: int, k: int) -> int
    decreases k,
{
    if k <= 0 {
        0
    } else {
        run_sum(src, base, k - 1) + src[base + k - 1] as int
    }
}

/// Sum of the first `rows` rows of the 4 x 4 block of thumbnail pixel
/// (x, y).
pub open spec fn block_sum(src: Seq<u8>, x: int, y: int, rows: int) -> int
    decreases rows,
{
    if rows <= 0 {
        0
    } else {
        block_sum(src, x, y, rows - 1) + run_sum(src, (y * 4 + rows - 1) * 1404 + x * 4, 4)
    }
}

proof fn lemma_run_sum_bound(src: Seq<u8>, base: int, k: int)
    requires
        0 <= k,
    ensures
        0 <= run_sum(src, base, k) <= 255 * k,
    decreases k,
{
    if k > 0 {
        lemma_run_sum_bound(src, base, k - 1);
    }
}

proof fn lemma_block_sum_bound(src: Seq<u8>, x: int, y: int, rows: int)
    requires
        0 <= rows,
    ensures
        0 <= block_sum(src, x, y, rows) <= 255 * 4 * rows,
    decreases rows,
{
    if rows > 0 {
        lemma_block_sum_bound(src, x, y, rows - 1);
        let base = (y * 4 + rows - 1) * 1404 + x * 4;
        lemma_run_sum_bound(src, base, 4);
        assert(block_sum(src, x, y, rows) == block_sum(src, x, y, rows - 1) + run_sum(src, base, 4));
        assert(run_sum(src, base, 4) <= 1020);
        assert(block_sum(src, x, y, rows - 1) <= 1020 * (rows - 1));
        assert(block_sum(src, x, y, rows) <= 1020 * rows);
    }
}

/// Downsample a full-panel gray raster by 4 in each direction, each
/// thumbnail pixel the (truncated) mean of its 4 x 4 block.
pub fn box_filter(src: &[u8], out: &mut [u8])
    requires
        src@.len() >= 1404 * 1872,
        old(out)@.len() >= THUMB_W * THUMB_H,
    ensures
        final(out)@.len() == old(out)@.len(),
        forall|x: int, y: int|
            0 <= x < THUMB_W && 0 <= y < THUMB_H ==> #[trigger] final(out)@[y * THUMB_W + x] == (
            block_sum(src@, x, y, 4) / 16) as u8,
        forall|i: int| THUMB_W * THUMB_H <= i < old(out)@.len() ==> #[trigger] final(out)@[i] == old(out)@[i],
{
    let mut y: i32 = 0;
    while y < THUMB_H
        invariant
            0 <= y <= THUMB_H,
            src@.len() >= 1404 * 1872,
            out@.len() == old(out)@.len(),
            old(out)@.len() >= THUMB_W * THUMB_H,
            forall|xx: int, yy: int|
                0 <= xx < THUMB_W && 0 <= yy < y ==> #[trigger] out@[yy * THUMB_W + xx] == (block_sum(
                    src@,
                    xx,
                    yy,
                    4,
                ) / 16) as u8,
            forall|i: int| THUMB_W * THUMB_H <= i < old(out)@.len() ==> #[trigger] out@[i] == old(out)@[i],
        decreases THUMB_H - y,
    {
        let mut x: i32 = 0;
        while x < THUMB_W
            invariant
                0 <= y < THUMB_H,
                0 <= x <= THUMB_W,
                src@.len() >= 1404 * 1872,
                out@.len() == old(out)@.len(),
                old(out)@.len() >= THUMB_W * THUMB_H,
                forall|xx: int, yy: int|
                    0 <= xx < THUMB_W && 0 <= yy < y ==> #[trigger] out@[yy * THUMB_W + xx] == (
                    block_sum(src@, xx, yy, 4) / 16) as u8,
                forall|xx: int| 0 <= xx < x ==> #[trigger] out@[y * THUMB_W + xx] == (block_sum(
                    src@,
                    xx,
                    y as int,
                    4,
                ) / 16) as u8,
                forall|i: int| THUMB_W * THUMB_H <= i < old(out)@.len() ==> #[trigger] out@[i] == old(out)@[i],
            decreases THUMB_W - x,
        {
            let mut acc: u32 = 0;
            let mut j: i32 = 0;
            while j < 4
                invariant
                    0 <= y < THUMB_H,
                    0 <= x < THUMB_W,
                    0 <= j <= 4,
                    src@.len() >= 1404 * 1872,
                    acc == block_sum(src@, x as int, y as int, j as int),
                    0 <= acc <= 1020 * j,
                decreases 4 - j,
            {
                let base: usize = ((y * 4 + j) * 1404 + x * 4) as usize;
                assert(base + 4 <= 1404 * 1872) by (nonlinear_arith)
                    requires
                        0 <= y < 468,
                        0 <= x < 351,
                        0 <= j < 4,
                        base == (y * 4 + j) * 1404 + x * 4,
                ;
                let mut i: usize = 0;
                let ghost acc0 = acc as int;
                while i < 4
                    invariant
                        0 <= i <= 4,
                        base + 4 <= src@.len(),
                        src@.len() == src.len(),
                        acc == acc0 + run_sum(src@, base as int, i as int),
                        0 <= acc0 <= 1020 * j,
                        0 <= j < 4,
                        acc <= acc0 + 255 * i,
                        acc0 <= 3060,
                    decreases 4 - i,
                {
                    let k = base + i;
                    let v = src[k];
                    acc = acc + v as u32;
                    i += 1;
                }
                assert(base == (y * 4 + (j + 1) - 1) * 1404 + x * 4);
                j += 1;
            }
            let idx: usize = (y * THUMB_W + x) as usize;
            assert(idx < THUMB_W * THUMB_H) by (nonlinear_arith)
                requires
                    0 <= y < 468,
                    0 <= x < 351,
                    idx == y * 351 + x,
            ;
            let ghost before = out@;
            out[idx] = (acc / 16) as u8;
            proof {
                assert forall|xx: int, yy: int|
                    0 <= xx < THUMB_W && 0 <= yy < y implies #[trigger] out@[yy * THUMB_W + xx] == (
                    block_sum(src@, xx, yy, 4) / 16) as u8 by {
                    assert(yy * THUMB_W + xx < y * THUMB_W) by (nonlinear_arith)
                        requires
                            0 <= xx < 351,
                            yy < y,
                    ;
                    assert(out@[yy * THUMB_W + xx] == before[yy * THUMB_W + xx]);
                }
                assert forall|xx: int| 0 <= xx < x + 1 implies #[trigger] out@[y * THUMB_W + xx] == (
                block_sum(src@, xx, y as int, 4) / 16) as u8 by {
                    if xx < x {
                        assert(out@[y * THUMB_W + xx] == before[y * THUMB_W + xx]);
                    }
                }
            }
            x += 1;
        }
        y += 1;
    }
}

/// The cached thumbnail of document `id`.
pub fn thumb_path(docs_dir: &str, id: &str) -> (p: String)
    ensures
        p@ == join_path(join_path(docs_dir@, id@), "thumb.png"@),
{
    let d = path_in(docs_dir, &chars_of(id));
    path_in(d.as_str(), &chars_of("thumb.png"))
}

/// A cached thumbnail is fresh when it exists (modification time not 0)
/// and is no older than the document's state and newest ink.
pub fn is_fresh(thumb_mtime: u64, state_mtime: u64, newest_ink: u64) -> (b: bool)
    ensures
        b == (thumb_mtime != 0 && thumb_mtime >= state_mtime && thumb_mtime >= newest_ink),
{
    thumb_mtime != 0 && !(thumb_mtime < state_mtime || thumb_mtime < newest_ink)
}

/// The entry a thumbnail shows: the first of the saved sequence when
/// there is one (a PDF page `p` or a note `n`), else the first PDF page of
/// a book or note 1 of a notebook. Gives (is a PDF page, number).
pub open spec fn first_entry_spec(notebook: bool, seq0: Option<(Option<u64>, Option<u64>)>) -> (bool, u64) {
    let fallback = (!notebook, if notebook {
        1u64
    } else {
        0u64
    });
    match seq0 {
        Some((Some(p), _)) => (true, p),
        Some((None, Some(n))) => (false, n),
        _ => fallback,
    }
}

pub fn first_entry(notebook: bool, seq0: Option<(Option<u64>, Option<u64>)>) -> (e: (bool, u64))
    ensures
        e == first_entry_spec(notebook, seq0),
{
    let fallback = (!notebook, if notebook {
        1u64
    } else {
        0u64
    });
    match seq0 {
        Some((Some(p), _)) => (true, p),
        Some((None, Some(n))) => (false, n),
        _ => fallback,
    }
}

/// The files behind an entry, relative to the document: its page raster
/// (PDF pages only) and its ink.
pub open spec fn entry_files_spec(is_pdf: bool, num: u64) -> (Seq<char>, Seq<char>) {
    (
        "pages/"@ + zero_pad(digits((num + 1) as nat, 10), 4) + ".png"@,
        if is_pdf {
            "ink/pdf-"@ + zero_pad(digits((num + 1) as nat, 10), 4) + ".json"@
        } else {
            "ink/note-"@ + zero_pad(digits(num as nat, 10), 4) + ".json"@
        },
    )
}

pub fn entry_files(is_pdf: bool, num: u64) -> (f: (String, String))
    requires
        num < u64::MAX,
    ensures
        (f.0@, f.1@) == entry_files_spec(is_pdf, num),
{
    let mut raster: Vec<char> = chars_of("pages/");
    raster.extend_from_slice(&decimal_padded(num + 1, 4));
    raster.extend_from_slice(&chars_of(".png"));
    let mut ink: Vec<char> = if is_pdf {
        chars_of("ink/pdf-")
    } else {
        chars_of("ink/note-")
    };
    if is_pdf {
        ink.extend_from_slice(&decimal_padded(num + 1, 4));
    } else {
        ink.extend_from_slice(&decimal_padded(num, 4));
    }
    ink.extend_from_slice(&chars_of(".json"));
    (crate::strs::string_of(&raster, 0, raster.len()), crate::strs::string_of(&ink, 0, ink.len()))
}

} // verus!
