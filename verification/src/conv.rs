//! The conversation: a flat list of entries (the user's handwriting, the
//! assistant's replies, dimmed notices) and its vertical layout, so the
//! scroll range and the painting agree on where each entry sits.

use vstd::prelude::*;
use crate::fb::{ADVANCE, CHAR_ROWS};
use crate::geom::SCREEN_W;
use crate::geom::trunc_div;
use crate::md::{SegV, parse, parse_spec, height, height_spec, seg_measurable, seg_small, seg_height_spec, segs_view};
use crate::wrap::{wrap, wrap_spec};

verus! {

pub const MARGIN: i32 = 28;

pub const LABEL_SCALE: i32 = 2;

/// Height of an entry's label line ("you", "pi").
pub const LABEL_H: i32 = CHAR_ROWS * LABEL_SCALE + 8;

pub const ENTRY_GAP: i32 = 24;

pub const PAD_TOP: i32 = 16;

/// Line pitch of a notice.
pub const NOTE_LINE_H: i32 = CHAR_ROWS * LABEL_SCALE + 6;

/// Usable content width for the assistant's rendered blocks.
pub const CONTENT_W: i32 = SCREEN_W - 2 * MARGIN;

/// A grayscale bitmap (0 = black), already scaled to display size.
pub struct GrayImg {
    pub w: i32,
    pub h: i32,
    pub px: Vec<u8>,
}

pub enum Entry {
    /// The user's handwritten ink for one message.
    You(GrayImg),
    /// The assistant's reply text (may still be growing while it streams).
    Pi(String),
    /// A dimmed status line (tool runs, errors, lifecycle).
    Note(String),
}

/// What the layout reads of an entry.
pub enum EntryV {
    /// The height of the ink image.
    You(i32),
    Pi(Seq<char>),
    Note(Seq<char>),
}

impl View for Entry {
    type V = EntryV;

    open spec fn view(&self) -> EntryV {
        match self {
            Entry::You(img) => EntryV::You(img.h),
            Entry::Pi(t) => EntryV::Pi(t@),
            Entry::Note(t) => EntryV::Note(t@),
        }
    }
}

/// Characters of text per line at `scale` (at least one).
pub open spec fn wrap_cols_spec(scale: int) -> int {
    let q = trunc_div(CONTENT_W as int, ADVANCE * scale);
    if q >= 1 {
        q
    } else {
        1
    }
}

/// How many characters of reply text fit on one line at `scale`.
pub fn wrap_cols(scale: i32) -> (c: usize)
    requires
        1 <= scale <= 0x100_0000,
    ensures
        c == wrap_cols_spec(scale as int),
{
    let q = (SCREEN_W - 2 * MARGIN) / (ADVANCE * scale);
    if q >= 1 {
        q as usize
    } else {
        1
    }
}

/// Usable content width for the assistant's rendered blocks.
pub fn content_w() -> (w: i32)
    ensures
        w == CONTENT_W,
{
    SCREEN_W - 2 * MARGIN
}

/// The reply can be measured: the segment heights are defined and fit.
/// `svg` holds the rasterized height of each SVG segment.
pub open spec fn reply_ok(t: Seq<char>, scale: int, svg: Seq<Option<i32>>) -> bool {
    let p = parse_spec(t);
    &&& 1 <= scale <= 0x100
    &&& svg.len() == p.len()
    &&& forall|k: int|
        0 <= k < p.len() ==> #[trigger] seg_measurable(p[k], scale, CONTENT_W as int) && seg_small(
            p[k],
        ) && 0 <= seg_height_spec(p[k], scale, CONTENT_W as int, svg[k]) && (svg[k] matches Some(
            v,
        ) ==> 0 <= v)
    &&& height_spec(p, scale, CONTENT_W as int, svg) + LABEL_H <= i32::MAX
}

/// An entry's height.
pub open spec fn entry_height_spec(e: EntryV, scale: int, svg: Seq<Option<i32>>) -> int {
    match e {
        EntryV::You(h) => LABEL_H + h,
        EntryV::Pi(t) => LABEL_H + height_spec(parse_spec(t), scale, CONTENT_W as int, svg),
        EntryV::Note(t) => wrap_spec(t, wrap_cols_spec(LABEL_SCALE as int) as nat).len()
            * NOTE_LINE_H,
    }
}

/// The entry can be measured without overflow.
pub open spec fn entry_ok(e: EntryV, scale: int, svg: Seq<Option<i32>>) -> bool {
    match e {
        EntryV::You(h) => 0 <= h && LABEL_H + h <= i32::MAX,
        EntryV::Pi(t) => reply_ok(t, scale, svg),
        EntryV::Note(t) => wrap_spec(t, wrap_cols_spec(LABEL_SCALE as int) as nat).len()
            * NOTE_LINE_H <= i32::MAX,
    }
}

/// An entry's height at reply scale `scale`.
pub fn entry_height(e: &Entry, scale: i32, svg: &[Option<i32>]) -> (h: i32)
    requires
        entry_ok(e@, scale as int, svg@),
    ensures
        h == entry_height_spec(e@, scale as int, svg@),
        h >= 0,
{
    match e {
        Entry::You(img) => {
            assert(LABEL_H == 22);
            LABEL_H + img.h
        },
        Entry::Pi(text) => {
            let segs = parse(text.as_str());
            proof {
                let p = parse_spec(text@);
                assert forall|k: int| 0 <= k < segs@.len() implies #[trigger] seg_measurable(
                    segs@[k]@,
                    scale as int,
                    CONTENT_W as int,
                ) by {
                    assert(segs_view(segs@)[k] == segs@[k]@);
                    assert(seg_measurable(p[k], scale as int, CONTENT_W as int));
                }
                assert forall|k: int| 0 <= k < segs@.len() implies #[trigger] seg_small(segs@[k]@) by {
                    assert(segs_view(segs@)[k] == segs@[k]@);
                    assert(seg_measurable(p[k], scale as int, CONTENT_W as int));
                }
                assert forall|k: int| 0 <= k < segs@.len() implies 0 <= #[trigger] seg_height_spec(
                    segs@[k]@,
                    scale as int,
                    CONTENT_W as int,
                    svg@[k],
                ) by {
                    assert(segs_view(segs@)[k] == segs@[k]@);
                    assert(seg_measurable(p[k], scale as int, CONTENT_W as int));
                }
                assert forall|k: int| 0 <= k < segs@.len() implies (#[trigger] svg@[k] matches Some(
                    v,
                ) ==> 0 <= v) by {
                    assert(segs_view(segs@)[k] == segs@[k]@);
                    assert(seg_measurable(p[k], scale as int, CONTENT_W as int));
                }
                crate::md::lemma_height_nonneg(p, scale as int, CONTENT_W as int, svg@);
            }
            LABEL_H + height(&segs, scale, content_w(), svg)
        },
        Entry::Note(text) => {
            let lines = wrap(text.as_str(), wrap_cols(LABEL_SCALE));
            assert(lines@.len() == lines.deep_view().len());
            assert(NOTE_LINE_H == 20);
            assert(lines@.len() * 20 <= i32::MAX);
            (lines.len() as i32) * NOTE_LINE_H
        },
    }
}

/// Height of the whole conversation: the top padding, then each entry
/// and the gap after it.
pub open spec fn total_height_spec(es: Seq<EntryV>, scale: int, svg: Seq<Seq<Option<i32>>>) -> int
    decreases es.len(),
{
    if es.len() == 0 {
        PAD_TOP as int
    } else {
        total_height_spec(es.drop_last(), scale, svg.drop_last()) + entry_height_spec(
            es.last(),
            scale,
            svg.last(),
        ) + ENTRY_GAP
    }
}

pub open spec fn entries_view(es: Seq<Entry>) -> Seq<EntryV> {
    es.map_values(|e: Entry| e@)
}

proof fn lemma_total_prefix(es: Seq<EntryV>, scale: int, svg: Seq<Seq<Option<i32>>>, k: int)
    requires
        0 <= k <= es.len(),
        svg.len() == es.len(),
        forall|m: int| 0 <= m < es.len() ==> 0 <= #[trigger] entry_height_spec(es[m], scale, svg[m]),
    ensures
        total_height_spec(es.take(k), scale, svg.take(k)) <= total_height_spec(es, scale, svg),
    decreases es.len(),
{
    if es.len() > 0 {
        if k == es.len() {
            assert(es.take(k) == es);
            assert(svg.take(k) == svg);
        } else {
            lemma_total_prefix(es.drop_last(), scale, svg.drop_last(), k);
            assert(es.drop_last().take(k) == es.take(k));
            assert(svg.drop_last().take(k) == svg.take(k));
            assert(0 <= entry_height_spec(es.last(), scale, svg.last()));
        }
    }
}

/// Height of the whole conversation at reply scale `scale`; `svg[i]`
/// holds the rasterized SVG heights of entry `i`'s reply.
pub fn total_height(entries: &[Entry], scale: i32, svg: &Vec<Vec<Option<i32>>>) -> (h: i32)
    requires
        svg@.len() == entries@.len(),
        forall|k: int| 0 <= k < entries@.len() ==> #[trigger] entry_ok(entries@[k]@, scale as int, svg@[k]@),
        total_height_spec(entries_view(entries@), scale as int, svg.deep_view()) <= i32::MAX,
    ensures
        h == total_height_spec(entries_view(entries@), scale as int, svg.deep_view()),
{
    let ghost es = entries_view(entries@);
    let ghost sv = svg.deep_view();
    proof {
        assert forall|m: int| 0 <= m < es.len() implies 0 <= #[trigger] entry_height_spec(es[m], scale as int, sv[m]) by {
            assert(entry_ok(entries@[m]@, scale as int, svg@[m]@));
            assert(sv[m] =~= svg@[m]@);
            lemma_entry_height_nonneg(entries@[m]@, scale as int, svg@[m]@);
        }
    }
    let mut h: i32 = PAD_TOP;
    let mut k: usize = 0;
    while k < entries.len()
        invariant
            k <= entries@.len(),
            es == entries_view(entries@),
            sv == svg.deep_view(),
            svg@.len() == entries@.len(),
            forall|m: int| 0 <= m < entries@.len() ==> #[trigger] entry_ok(entries@[m]@, scale as int, svg@[m]@),
            forall|m: int| 0 <= m < es.len() ==> 0 <= #[trigger] entry_height_spec(es[m], scale as int, sv[m]),
            total_height_spec(es, scale as int, sv) <= i32::MAX,
            h == total_height_spec(es.take(k as int), scale as int, sv.take(k as int)),
        decreases entries.len() - k,
    {
        proof {
            assert(es.take(k + 1).drop_last() =~= es.take(k as int));
            assert(sv.take(k + 1).drop_last() =~= sv.take(k as int));
            assert(es.take(k + 1).last() == entries@[k as int]@);
            assert(sv.take(k + 1).last() =~= svg@[k as int]@);
            lemma_total_prefix(es, scale as int, sv, k + 1);
            assert(0 <= entry_height_spec(es[k as int], scale as int, sv[k as int]));
        }
        let eh = entry_height(&entries[k], scale, svg[k].as_slice());
        h = h + eh + ENTRY_GAP;
        k += 1;
    }
    assert(es.take(entries@.len() as int) =~= es);
    assert(sv.take(entries@.len() as int) =~= sv);
    h
}

proof fn lemma_entry_height_nonneg(e: EntryV, scale: int, svg: Seq<Option<i32>>)
    requires
        entry_ok(e, scale, svg),
    ensures
        0 <= entry_height_spec(e, scale, svg),
{
    match e {
        EntryV::Pi(t) => {
            let p = parse_spec(t);
            assert forall|m: int| 0 <= m < p.len() implies 0 <= #[trigger] seg_height_spec(
                p[m],
                scale,
                CONTENT_W as int,
                svg[m],
            ) by {
                assert(seg_measurable(p[m], scale, CONTENT_W as int));
            }
            crate::md::lemma_height_nonneg(p, scale, CONTENT_W as int, svg);
        },
        _ => {},
    }
}

} // verus!
