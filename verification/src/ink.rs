//! The page model: vector ink is the source of truth. A page holds the
//! user's pen strokes and the assistant's patches (each an id'd set of
//! strokes and typeset runs, erased as a unit). Coordinates are kept in
//! tenths of a pixel, the unit the page file stores.

use vstd::prelude::*;
use crate::geom::{Rect, min_spec, max_spec, trunc_div, clamp_spec, SCREEN_W, SCREEN_H};
use crate::order::{Ranked, key_before, order_spec, stable_order, lemma_order_perm};

verus! {

/// The user's ink: black.
pub const USER_GRAY: u8 = 0;

/// The assistant's ink: mid grey, distinct on the 16-level waveform.
pub const AI_GRAY: u8 = 110;

/// Which layer a stroke lives in: the user's ink or an assistant patch.
#[derive(Clone, Copy, PartialEq, Eq, Structural, Debug)]
pub enum Owner {
    User,
    Patch(u64),
}

/// One horizontal row of ink on the page.
#[derive(Clone, Copy, PartialEq, Eq, Structural, Debug)]
pub struct Band {
    pub y0: i32,
    pub y1: i32,
    pub x0: i32,
    pub x1: i32,
    /// Holds some user ink (not only patches).
    pub user: bool,
}

/// Coordinates (in tenths of a pixel) stay within this magnitude, so the
/// box arithmetic cannot overflow.
pub const COORD_LIM: i32 = 100_000_000;

/// One sample of a stroke, in tenths of a pixel: position and stamp radius.
#[derive(Clone, Copy, PartialEq, Eq, Structural, Debug)]
pub struct Pt {
    pub x: i32,
    pub y: i32,
    pub r: i32,
}

/// A pen stroke. `id` is stable per page (0 = not yet adopted).
#[derive(Debug)]
pub struct Stroke {
    pub id: u64,
    pub pts: Vec<Pt>,
    pub gray: u8,
}

/// What a stroke is, mathematically.
pub struct StrokeV {
    pub id: u64,
    pub pts: Seq<Pt>,
    pub gray: u8,
}

impl View for Stroke {
    type V = StrokeV;

    open spec fn view(&self) -> StrokeV {
        StrokeV { id: self.id, pts: self.pts@, gray: self.gray }
    }
}

/// A run of typeset text on a patch; `bbox` is its measured extent in
/// pixels, taken when the run was laid out (`None` for blank text).
#[derive(Debug)]
pub struct TextRun {
    pub x: i32,
    pub y: i32,
    pub size: i32,
    pub gray: u8,
    pub text: String,
    pub bbox: Option<Rect>,
}

pub struct TextRunV {
    pub x: i32,
    pub y: i32,
    pub size: i32,
    pub gray: u8,
    pub text: Seq<char>,
    pub bbox: Option<Rect>,
}

impl View for TextRun {
    type V = TextRunV;

    open spec fn view(&self) -> TextRunV {
        TextRunV { x: self.x, y: self.y, size: self.size, gray: self.gray, text: self.text@, bbox: self.bbox }
    }
}

/// Does every sample stay within the coordinate limit?
pub open spec fn pts_ok(pts: Seq<Pt>) -> bool {
    forall|k: int| 0 <= k < pts.len() ==> {
        let p = #[trigger] pts[k];
        -COORD_LIM <= p.x <= COORD_LIM && -COORD_LIM <= p.y <= COORD_LIM && -COORD_LIM <= p.r <= COORD_LIM
    }
}

/// `a / 10` rounded up (towards positive infinity).
pub open spec fn ceil10(a: int) -> int {
    if a >= 0 {
        (a + 9) / 10
    } else {
        -((-a) / 10)
    }
}

/// The pixel box one stamped sample covers: the disc's extent, rounded
/// outwards (down towards zero on the near side, up on the far side).
pub open spec fn pt_box(p: Pt) -> Rect {
    Rect {
        x0: trunc_div(p.x - p.r, 10) as i32,
        y0: trunc_div(p.y - p.r, 10) as i32,
        x1: ceil10(p.x + p.r) as i32,
        y1: ceil10(p.y + p.r) as i32,
    }
}

/// The union of two rectangles.
pub open spec fn union_spec(a: Rect, b: Rect) -> Rect {
    Rect {
        x0: min_spec(a.x0 as int, b.x0 as int) as i32,
        y0: min_spec(a.y0 as int, b.y0 as int) as i32,
        x1: max_spec(a.x1 as int, b.x1 as int) as i32,
        y1: max_spec(a.y1 as int, b.y1 as int) as i32,
    }
}

/// Grow an optional box by another optional box.
pub open spec fn join_box(a: Option<Rect>, b: Option<Rect>) -> Option<Rect> {
    match (a, b) {
        (Some(x), Some(y)) => Some(union_spec(x, y)),
        (Some(x), None) => Some(x),
        (None, y) => y,
    }
}

/// The bounding box of a run of samples (`None` when there are none).
pub open spec fn pts_box(pts: Seq<Pt>) -> Option<Rect>
    decreases pts.len(),
{
    if pts.len() == 0 {
        None
    } else {
        join_box(pts_box(pts.drop_last()), Some(pt_box(pts.last())))
    }
}

/// The pixel bounding box of a stroke.
pub open spec fn stroke_box(s: StrokeV) -> Option<Rect> {
    pts_box(s.pts)
}

/// The views of a run of strokes.
pub open spec fn strokes_view(v: Seq<Stroke>) -> Seq<StrokeV> {
    Seq::new(v.len(), |i: int| v[i]@)
}

pub open spec fn texts_view(v: Seq<TextRun>) -> Seq<TextRunV> {
    Seq::new(v.len(), |i: int| v[i]@)
}

/// An assistant contribution: strokes and typeset runs under one id.
#[derive(Debug)]
pub struct Patch {
    pub id: u64,
    pub strokes: Vec<Stroke>,
    pub texts: Vec<TextRun>,
}

pub struct PatchV {
    pub id: u64,
    pub strokes: Seq<StrokeV>,
    pub texts: Seq<TextRunV>,
}

impl View for Patch {
    type V = PatchV;

    open spec fn view(&self) -> PatchV {
        PatchV { id: self.id, strokes: strokes_view(self.strokes@), texts: texts_view(self.texts@) }
    }
}

pub open spec fn patches_view(v: Seq<Patch>) -> Seq<PatchV> {
    Seq::new(v.len(), |i: int| v[i]@)
}

/// A stroke lifted out of the page, remembering which layer it came from.
#[derive(Debug)]
pub struct OwnedStroke {
    pub owner: Owner,
    pub stroke: Stroke,
}

pub struct OwnedV {
    pub owner: Owner,
    pub stroke: StrokeV,
}

impl View for OwnedStroke {
    type V = OwnedV;

    open spec fn view(&self) -> OwnedV {
        OwnedV { owner: self.owner, stroke: self.stroke@ }
    }
}

pub open spec fn owned_view(v: Seq<OwnedStroke>) -> Seq<OwnedV> {
    Seq::new(v.len(), |i: int| v[i]@)
}

/// A page: the user's strokes, the assistant's patches, the id sources,
/// and whether there are unsaved changes.
#[derive(Debug)]
pub struct Page {
    pub strokes: Vec<Stroke>,
    pub patches: Vec<Patch>,
    pub next_patch: u64,
    pub next_stroke: u64,
    pub dirty: bool,
}

pub struct PageV {
    pub strokes: Seq<StrokeV>,
    pub patches: Seq<PatchV>,
    pub next_patch: u64,
    pub next_stroke: u64,
    pub dirty: bool,
}

impl View for Page {
    type V = PageV;

    open spec fn view(&self) -> PageV {
        PageV {
            strokes: strokes_view(self.strokes@),
            patches: patches_view(self.patches@),
            next_patch: self.next_patch,
            next_stroke: self.next_stroke,
            dirty: self.dirty,
        }
    }
}

impl Default for Page {
    fn default() -> (p: Page)
        ensures
            p@.strokes.len() == 0,
            p@.patches.len() == 0,
            p.next_patch == 0,
            p.next_stroke == 0,
            !p.dirty,
    {
        Page { strokes: Vec::new(), patches: Vec::new(), next_patch: 0, next_stroke: 0, dirty: false }
    }
}

/// The stroke with its id replaced.
pub open spec fn with_id(s: StrokeV, id: u64) -> StrokeV {
    StrokeV { id, pts: s.pts, gray: s.gray }
}

/// The id the page hands out next: its counter, but never 0.
pub open spec fn fresh_id(pv: PageV) -> u64 {
    if pv.next_stroke == 0 {
        1
    } else {
        pv.next_stroke
    }
}

/// A finished user stroke landed on the page under the fresh id.
pub open spec fn push_spec(pv: PageV, s: StrokeV) -> PageV {
    PageV {
        strokes: pv.strokes.push(with_id(s, fresh_id(pv))),
        next_stroke: (fresh_id(pv) + 1) as u64,
        dirty: true,
        ..pv
    }
}

/// Strokes numbered consecutively from `first`.
pub open spec fn numbered(ss: Seq<StrokeV>, first: int) -> Seq<StrokeV> {
    Seq::new(ss.len(), |k: int| with_id(ss[k], (first + k) as u64))
}

/// A new patch: its strokes take fresh consecutive ids, the patch takes
/// the next patch id.
pub open spec fn add_patch_spec(pv: PageV, ss: Seq<StrokeV>, ts: Seq<TextRunV>) -> PageV {
    let first = fresh_id(pv) as int;
    PageV {
        patches: pv.patches.push(PatchV { id: pv.next_patch, strokes: numbered(ss, first), texts: ts }),
        next_patch: (pv.next_patch + 1) as u64,
        next_stroke: if ss.len() == 0 { pv.next_stroke } else { (first + ss.len()) as u64 },
        dirty: true,
        ..pv
    }
}

/// The largest of `n` and one past every id in `ss`.
pub open spec fn above_ids(n: u64, ss: Seq<StrokeV>) -> u64
    decreases ss.len(),
{
    if ss.len() == 0 {
        n
    } else {
        let m = above_ids(n, ss.drop_last());
        max_spec(m as int, ss.last().id + 1) as u64
    }
}

/// A patch re-added under its original id.
pub open spec fn readd_spec(pv: PageV, id: u64, ss: Seq<StrokeV>, ts: Seq<TextRunV>) -> PageV {
    PageV {
        patches: pv.patches.push(PatchV { id, strokes: ss, texts: ts }),
        next_patch: max_spec(pv.next_patch as int, id + 1) as u64,
        next_stroke: above_ids(pv.next_stroke, ss),
        dirty: true,
        ..pv
    }
}

/// Every id in the strokes is below `u64::MAX`.
pub open spec fn ids_bounded(ss: Seq<StrokeV>) -> bool {
    forall|k: int| 0 <= k < ss.len() ==> (#[trigger] ss[k]).id < u64::MAX
}

/// Index of the first stroke with this id, or -1.
pub open spec fn first_id(ss: Seq<StrokeV>, id: u64) -> int {
    if exists|i: int| 0 <= i < ss.len() && ss[i].id == id && forall|j: int| 0 <= j < i ==> ss[j].id != id {
        choose|i: int| 0 <= i < ss.len() && ss[i].id == id && forall|j: int| 0 <= j < i ==> ss[j].id != id
    } else {
        -1
    }
}

/// Removing a user stroke by id: the first stroke with that id leaves
/// the page; it is handed back only when it has samples (a bounding box),
/// and only then is the page marked changed.
pub open spec fn remove_id_spec(pv: PageV, id: u64) -> (PageV, Option<StrokeV>) {
    let i = first_id(pv.strokes, id);
    if i < 0 {
        (pv, None)
    } else {
        let s = pv.strokes[i];
        let rest = PageV { strokes: pv.strokes.remove(i), ..pv };
        if stroke_box(s) is Some {
            (PageV { dirty: true, ..rest }, Some(s))
        } else {
            (rest, None)
        }
    }
}

/// Does `refs` name the stroke `id` of layer `owner`?
pub open spec fn wanted_spec(refs: Seq<(Owner, u64)>, owner: Owner, id: u64) -> bool {
    exists|k: int| 0 <= k < refs.len() && refs[k] == (owner, id)
}

/// The strokes of one layer that `refs` does not name, in order.
pub open spec fn keep_seq(ss: Seq<StrokeV>, refs: Seq<(Owner, u64)>, owner: Owner) -> Seq<StrokeV>
    decreases ss.len(),
{
    if ss.len() == 0 {
        ss
    } else {
        let k = keep_seq(ss.drop_last(), refs, owner);
        if wanted_spec(refs, owner, ss.last().id) {
            k
        } else {
            k.push(ss.last())
        }
    }
}

/// The strokes of one layer that `refs` names, in order, tagged with it.
pub open spec fn lift_seq(ss: Seq<StrokeV>, refs: Seq<(Owner, u64)>, owner: Owner) -> Seq<OwnedV>
    decreases ss.len(),
{
    if ss.len() == 0 {
        Seq::empty()
    } else {
        let l = lift_seq(ss.drop_last(), refs, owner);
        if wanted_spec(refs, owner, ss.last().id) {
            l.push(OwnedV { owner, stroke: ss.last() })
        } else {
            l
        }
    }
}

/// A patch with the named strokes taken out.
pub open spec fn patch_kept(p: PatchV, refs: Seq<(Owner, u64)>) -> PatchV {
    PatchV { strokes: keep_seq(p.strokes, refs, Owner::Patch(p.id)), ..p }
}

/// The patches after the named strokes left them; a patch left with
/// neither strokes nor typeset text is dropped.
pub open spec fn patches_kept(ps: Seq<PatchV>, refs: Seq<(Owner, u64)>) -> Seq<PatchV>
    decreases ps.len(),
{
    if ps.len() == 0 {
        ps
    } else {
        let k = patches_kept(ps.drop_last(), refs);
        let p = patch_kept(ps.last(), refs);
        if p.strokes.len() > 0 || p.texts.len() > 0 {
            k.push(p)
        } else {
            k
        }
    }
}

/// The named patch strokes, patch by patch.
pub open spec fn patches_lift(ps: Seq<PatchV>, refs: Seq<(Owner, u64)>) -> Seq<OwnedV>
    decreases ps.len(),
{
    if ps.len() == 0 {
        Seq::empty()
    } else {
        patches_lift(ps.drop_last(), refs) + lift_seq(ps.last().strokes, refs, Owner::Patch(ps.last().id))
    }
}

/// The union of the boxes of lifted strokes.
pub open spec fn owned_box(os: Seq<OwnedV>) -> Option<Rect>
    decreases os.len(),
{
    if os.len() == 0 {
        None
    } else {
        join_box(owned_box(os.drop_last()), stroke_box(os.last().stroke))
    }
}

/// Lifting the named strokes out of the page: the page after, and the
/// lifted strokes (user layer first, then patch by patch).
pub open spec fn remove_refs_spec(pv: PageV, refs: Seq<(Owner, u64)>) -> (PageV, Seq<OwnedV>) {
    let lifted = lift_seq(pv.strokes, refs, Owner::User) + patches_lift(pv.patches, refs);
    (
        PageV {
            strokes: keep_seq(pv.strokes, refs, Owner::User),
            patches: patches_kept(pv.patches, refs),
            dirty: pv.dirty || owned_box(lifted) is Some,
            ..pv
        },
        lifted,
    )
}

/// Every sample of every stroke is within the coordinate limit.
pub open spec fn strokes_ok(ss: Seq<StrokeV>) -> bool {
    forall|k: int| 0 <= k < ss.len() ==> pts_ok((#[trigger] ss[k]).pts)
}

pub open spec fn page_pts_ok(pv: PageV) -> bool {
    strokes_ok(pv.strokes) && forall|k: int| 0 <= k < pv.patches.len() ==> strokes_ok((#[trigger] pv.patches[k]).strokes)
}

/// Does `refs` name the stroke?
fn wanted(refs: &Vec<(Owner, u64)>, owner: Owner, id: u64) -> (b: bool)
    ensures
        b == wanted_spec(refs@, owner, id),
{
    let mut k: usize = 0;
    while k < refs.len()
        invariant
            k <= refs@.len(),
            forall|j: int| 0 <= j < k ==> refs@[j] != (owner, id),
        decreases refs.len() - k,
    {
        let (o, i) = refs[k];
        if o == owner && i == id {
            assert(refs@[k as int] == (owner, id));
            return true;
        }
        k += 1;
    }
    false
}

/// Split one layer's strokes into those kept and those named by `refs`.
fn split_layer(ss: Vec<Stroke>, refs: &Vec<(Owner, u64)>, owner: Owner, out: &mut Vec<OwnedStroke>) -> (kept: Vec<Stroke>)
    ensures
        strokes_view(kept@) == keep_seq(strokes_view(ss@), refs@, owner),
        owned_view(final(out)@) == owned_view(old(out)@) + lift_seq(strokes_view(ss@), refs@, owner),
{
    let ghost sv = strokes_view(ss@);
    let ghost o0 = owned_view(out@);
    let mut rest = ss;
    let mut kept: Vec<Stroke> = Vec::new();
    let ghost n = sv.len() as int;
    let ghost mut i: int = 0;
    while rest.len() > 0
        invariant
            0 <= i <= n,
            n == sv.len(),
            rest@.len() == n - i,
            strokes_view(rest@) =~= sv.skip(i),
            strokes_view(kept@) == keep_seq(sv.take(i), refs@, owner),
            owned_view(out@) == o0 + lift_seq(sv.take(i), refs@, owner),
        decreases rest.len(),
    {
        let ghost r0 = rest@;
        let s = rest.remove(0);
        assert(strokes_view(r0)[0] == s@);
        assert(sv.skip(i)[0] == sv[i]);
        assert(strokes_view(rest@) =~= strokes_view(r0).skip(1));
        assert(sv.skip(i).skip(1) =~= sv.skip(i + 1));
        assert(sv.take(i + 1).drop_last() =~= sv.take(i));
        assert(sv.take(i + 1).last() == s@);
        if wanted(refs, owner, s.id) {
            let ghost out0 = out@;
            out.push(OwnedStroke { owner, stroke: s });
            assert(owned_view(out@) =~= owned_view(out0).push(OwnedV { owner, stroke: s@ }));
            assert(o0 + lift_seq(sv.take(i), refs@, owner).push(OwnedV { owner, stroke: s@ })
                =~= (o0 + lift_seq(sv.take(i), refs@, owner)).push(OwnedV { owner, stroke: s@ }));
        } else {
            let ghost k0 = kept@;
            kept.push(s);
            assert(strokes_view(kept@) =~= strokes_view(k0).push(s@));
        }
        proof {
            i = i + 1;
        }
    }
    assert(sv.take(n) =~= sv);
    kept
}

/// The union of the boxes of lifted strokes.
fn lifted_bbox(os: &Vec<OwnedStroke>) -> (r: Option<Rect>)
    requires
        forall|k: int| 0 <= k < os@.len() ==> pts_ok((#[trigger] os@[k]).stroke.pts@),
    ensures
        r == owned_box(owned_view(os@)),
{
    let ghost ov = owned_view(os@);
    let mut acc: Option<Rect> = None;
    let mut i: usize = 0;
    while i < os.len()
        invariant
            i <= os@.len(),
            ov == owned_view(os@),
            forall|k: int| 0 <= k < os@.len() ==> pts_ok((#[trigger] os@[k]).stroke.pts@),
            acc == owned_box(ov.take(i as int)),
        decreases os.len() - i,
    {
        assert(pts_ok(os@[i as int].stroke.pts@));
        let b = stroke_bbox(&os[i].stroke);
        acc = match (acc, b) {
            (Some(g), Some(x)) => Some(g.union(x)),
            (Some(g), None) => Some(g),
            (None, y) => y,
        };
        assert(ov.take(i + 1).drop_last() =~= ov.take(i as int));
        i += 1;
    }
    assert(ov.take(os@.len() as int) =~= ov);
    acc
}

/// Every lifted stroke came from the layer, tagged with the layer, and
/// was named; every kept stroke came from the layer and was not.
pub proof fn lemma_split_members(ss: Seq<StrokeV>, refs: Seq<(Owner, u64)>, owner: Owner)
    ensures
        forall|k: int| 0 <= k < lift_seq(ss, refs, owner).len() ==> {
            let o = #[trigger] lift_seq(ss, refs, owner)[k];
            o.owner == owner && ss.contains(o.stroke) && wanted_spec(refs, owner, o.stroke.id)
        },
        forall|k: int| 0 <= k < keep_seq(ss, refs, owner).len() ==> {
            let t = #[trigger] keep_seq(ss, refs, owner)[k];
            ss.contains(t) && !wanted_spec(refs, owner, t.id)
        },
        forall|j: int| 0 <= j < ss.len() ==> (wanted_spec(refs, owner, (#[trigger] ss[j]).id) ==> lift_seq(ss, refs, owner).contains(OwnedV { owner, stroke: ss[j] })),
        forall|j: int| 0 <= j < ss.len() ==> (!wanted_spec(refs, owner, (#[trigger] ss[j]).id) ==> keep_seq(ss, refs, owner).contains(ss[j])),
    decreases ss.len(),
{
    if ss.len() > 0 {
        let pre = ss.drop_last();
        lemma_split_members(pre, refs, owner);
        let l = lift_seq(pre, refs, owner);
        let kk = keep_seq(pre, refs, owner);
        assert forall|k: int| 0 <= k < lift_seq(ss, refs, owner).len() implies {
            let o = #[trigger] lift_seq(ss, refs, owner)[k];
            o.owner == owner && ss.contains(o.stroke) && wanted_spec(refs, owner, o.stroke.id)
        } by {
            if k < l.len() {
                let o = l[k];
                assert(lift_seq(ss, refs, owner)[k] == o);
                let j = choose|j: int| 0 <= j < pre.len() && pre[j] == o.stroke;
                assert(ss[j] == o.stroke);
            } else {
                assert(ss[ss.len() - 1] == ss.last());
            }
        }
        assert forall|k: int| 0 <= k < keep_seq(ss, refs, owner).len() implies {
            let t = #[trigger] keep_seq(ss, refs, owner)[k];
            ss.contains(t) && !wanted_spec(refs, owner, t.id)
        } by {
            if k < kk.len() {
                let t = kk[k];
                assert(keep_seq(ss, refs, owner)[k] == t);
                let j = choose|j: int| 0 <= j < pre.len() && pre[j] == t;
                assert(ss[j] == t);
            } else {
                assert(ss[ss.len() - 1] == ss.last());
            }
        }
        assert forall|j: int| 0 <= j < ss.len() implies (wanted_spec(refs, owner, (#[trigger] ss[j]).id) ==> lift_seq(ss, refs, owner).contains(OwnedV { owner, stroke: ss[j] })) by {
            if wanted_spec(refs, owner, ss[j].id) {
                let o = OwnedV { owner, stroke: ss[j] };
                if j < ss.len() - 1 {
                    assert(pre[j] == ss[j]);
                    let k = choose|k: int| 0 <= k < l.len() && l[k] == o;
                    assert(lift_seq(ss, refs, owner)[k] == o);
                } else {
                    assert(lift_seq(ss, refs, owner)[l.len() as int] == o);
                }
            }
        }
        assert forall|j: int| 0 <= j < ss.len() implies (!wanted_spec(refs, owner, (#[trigger] ss[j]).id) ==> keep_seq(ss, refs, owner).contains(ss[j])) by {
            if !wanted_spec(refs, owner, ss[j].id) {
                if j < ss.len() - 1 {
                    assert(pre[j] == ss[j]);
                    let k = choose|k: int| 0 <= k < kk.len() && kk[k] == ss[j];
                    assert(keep_seq(ss, refs, owner)[k] == ss[j]);
                } else {
                    assert(keep_seq(ss, refs, owner)[kk.len() as int] == ss[j]);
                }
            }
        }
    }
}

/// Index of the first patch with this id, or -1.
pub open spec fn first_patch(ps: Seq<PatchV>, id: u64) -> int {
    if exists|i: int| 0 <= i < ps.len() && ps[i].id == id && forall|j: int| 0 <= j < i ==> ps[j].id != id {
        choose|i: int| 0 <= i < ps.len() && ps[i].id == id && forall|j: int| 0 <= j < i ==> ps[j].id != id
    } else {
        -1
    }
}

/// Putting one lifted stroke back where it came from: a user stroke goes
/// to the end of the user layer; a patch stroke to the end of the first
/// patch with its id, which is recreated (without text) if it is gone.
/// The id sources move past the stroke's and the patch's ids.
pub open spec fn insert_one(pv: PageV, o: OwnedV) -> PageV {
    let ns = max_spec(pv.next_stroke as int, o.stroke.id + 1) as u64;
    match o.owner {
        Owner::User => PageV { strokes: pv.strokes.push(o.stroke), next_stroke: ns, ..pv },
        Owner::Patch(pid) => {
            let k = first_patch(pv.patches, pid);
            let ps = if k < 0 {
                pv.patches.push(PatchV { id: pid, strokes: seq![o.stroke], texts: Seq::empty() })
            } else {
                pv.patches.update(k, PatchV { strokes: pv.patches[k].strokes.push(o.stroke), ..pv.patches[k] })
            };
            PageV { patches: ps, next_stroke: ns, next_patch: max_spec(pv.next_patch as int, pid + 1) as u64, ..pv }
        },
    }
}

pub open spec fn insert_all(pv: PageV, os: Seq<OwnedV>) -> PageV
    decreases os.len(),
{
    if os.len() == 0 {
        pv
    } else {
        insert_one(insert_all(pv, os.drop_last()), os.last())
    }
}

/// Putting lifted strokes back, in order; the page is marked changed when
/// any of them has a box.
pub open spec fn insert_spec(pv: PageV, os: Seq<OwnedV>) -> PageV {
    PageV { dirty: pv.dirty || owned_box(os) is Some, ..insert_all(pv, os) }
}

/// The ids of lifted strokes and of their patches are below `u64::MAX`.
pub open spec fn owned_ids_bounded(os: Seq<OwnedV>) -> bool {
    forall|k: int| 0 <= k < os.len() ==> {
        &&& (#[trigger] os[k]).stroke.id < u64::MAX
        &&& (os[k].owner matches Owner::Patch(pid) ==> pid < u64::MAX)
    }
}

/// Position of the first patch with this id.
fn find_patch(ps: &Vec<Patch>, id: u64) -> (r: Option<usize>)
    ensures
        match r {
            Some(i) => i == first_patch(patches_view(ps@), id) && i < ps@.len(),
            None => first_patch(patches_view(ps@), id) == -1,
        },
{
    let ghost pv = patches_view(ps@);
    let mut i: usize = 0;
    while i < ps.len()
        invariant
            i <= ps@.len(),
            pv == patches_view(ps@),
            forall|j: int| 0 <= j < i ==> pv[j].id != id,
        decreases ps.len() - i,
    {
        if ps[i].id == id {
            assert(pv[i as int].id == id);
            let ghost c = choose|c: int| 0 <= c < pv.len() && pv[c].id == id && forall|j: int| 0 <= j < c ==> pv[j].id != id;
            assert(c == i) by {
                if c < i {
                    assert(pv[c].id != id);
                } else if c > i {
                    assert(pv[i as int].id != id);
                }
            }
            return Some(i);
        }
        i += 1;
    }
    None
}

/// The union of the boxes of a run of strokes.
pub open spec fn strokes_box(ss: Seq<StrokeV>) -> Option<Rect>
    decreases ss.len(),
{
    if ss.len() == 0 {
        None
    } else {
        join_box(strokes_box(ss.drop_last()), stroke_box(ss.last()))
    }
}

/// `acc` grown by the measured boxes of typeset runs.
pub open spec fn texts_box(acc: Option<Rect>, ts: Seq<TextRunV>) -> Option<Rect>
    decreases ts.len(),
{
    if ts.len() == 0 {
        acc
    } else {
        join_box(texts_box(acc, ts.drop_last()), ts.last().bbox)
    }
}

/// The box of a patch's content: its strokes, then its typeset runs.
pub open spec fn body_box(ss: Seq<StrokeV>, ts: Seq<TextRunV>) -> Option<Rect> {
    texts_box(strokes_box(ss), ts)
}

/// Taking a patch out: the first patch with the id leaves the page, but
/// only when its content has a box.
pub open spec fn take_patch_spec(pv: PageV, id: u64) -> (PageV, Option<PatchV>) {
    let i = first_patch(pv.patches, id);
    if i < 0 || body_box(pv.patches[i].strokes, pv.patches[i].texts) is None {
        (pv, None)
    } else {
        (PageV { patches: pv.patches.remove(i), dirty: true, ..pv }, Some(pv.patches[i]))
    }
}

/// Samples moved by (dx, dy).
pub open spec fn shift_pts(pts: Seq<Pt>, dx: int, dy: int) -> Seq<Pt> {
    Seq::new(pts.len(), |k: int| Pt { x: (pts[k].x + dx) as i32, y: (pts[k].y + dy) as i32, r: pts[k].r })
}

/// The named strokes of a layer moved by (dx, dy).
pub open spec fn shift_seq(ss: Seq<StrokeV>, refs: Seq<(Owner, u64)>, owner: Owner, dx: int, dy: int) -> Seq<StrokeV> {
    Seq::new(
        ss.len(),
        |k: int|
            if wanted_spec(refs, owner, ss[k].id) {
                StrokeV { pts: shift_pts(ss[k].pts, dx, dy), ..ss[k] }
            } else {
                ss[k]
            },
    )
}

/// `acc` grown by the box of every named stroke before and after its move.
pub open spec fn move_box(acc: Option<Rect>, ss: Seq<StrokeV>, refs: Seq<(Owner, u64)>, owner: Owner, dx: int, dy: int) -> Option<Rect>
    decreases ss.len(),
{
    if ss.len() == 0 {
        acc
    } else {
        let a = move_box(acc, ss.drop_last(), refs, owner, dx, dy);
        let s = ss.last();
        if wanted_spec(refs, owner, s.id) {
            join_box(join_box(a, stroke_box(s)), pts_box(shift_pts(s.pts, dx, dy)))
        } else {
            a
        }
    }
}

/// The same over the patches, one after another.
pub open spec fn patches_move_box(acc: Option<Rect>, ps: Seq<PatchV>, refs: Seq<(Owner, u64)>, dx: int, dy: int) -> Option<Rect>
    decreases ps.len(),
{
    if ps.len() == 0 {
        acc
    } else {
        let p = ps.last();
        move_box(patches_move_box(acc, ps.drop_last(), refs, dx, dy), p.strokes, refs, Owner::Patch(p.id), dx, dy)
    }
}

/// The named strokes of every patch moved by (dx, dy).
pub open spec fn shift_patches(ps: Seq<PatchV>, refs: Seq<(Owner, u64)>, dx: int, dy: int) -> Seq<PatchV> {
    Seq::new(ps.len(), |k: int| PatchV { strokes: shift_seq(ps[k].strokes, refs, Owner::Patch(ps[k].id), dx, dy), ..ps[k] })
}

/// Moving the named strokes by (dx, dy): the page after, and the region
/// to repaint (the union of the moved strokes' boxes before and after).
pub open spec fn translate_spec(pv: PageV, refs: Seq<(Owner, u64)>, dx: int, dy: int) -> (PageV, Option<Rect>) {
    let bu = move_box(None, pv.strokes, refs, Owner::User, dx, dy);
    let b = patches_move_box(bu, pv.patches, refs, dx, dy);
    (
        PageV {
            strokes: shift_seq(pv.strokes, refs, Owner::User, dx, dy),
            patches: shift_patches(pv.patches, refs, dx, dy),
            dirty: pv.dirty || b is Some,
            ..pv
        },
        b,
    )
}

/// Every sample, moved by (dx, dy), stays within the coordinate limit.
pub open spec fn shift_ok(ss: Seq<StrokeV>, dx: int, dy: int) -> bool {
    forall|k: int, j: int| 0 <= k < ss.len() && 0 <= j < ss[k].pts.len() ==> {
        let p = #[trigger] ss[k].pts[j];
        -COORD_LIM <= p.x + dx <= COORD_LIM && -COORD_LIM <= p.y + dy <= COORD_LIM
    }
}

pub open spec fn page_shift_ok(pv: PageV, dx: int, dy: int) -> bool {
    shift_ok(pv.strokes, dx, dy) && forall|k: int| 0 <= k < pv.patches.len() ==> shift_ok((#[trigger] pv.patches[k]).strokes, dx, dy)
}

/// Box of a run of strokes.
fn strokes_bbox(ss: &Vec<Stroke>) -> (r: Option<Rect>)
    requires
        strokes_ok(strokes_view(ss@)),
    ensures
        r == strokes_box(strokes_view(ss@)),
{
    let ghost sv = strokes_view(ss@);
    let mut acc: Option<Rect> = None;
    let mut i: usize = 0;
    while i < ss.len()
        invariant
            i <= ss@.len(),
            sv == strokes_view(ss@),
            strokes_ok(sv),
            acc == strokes_box(sv.take(i as int)),
        decreases ss.len() - i,
    {
        assert(pts_ok(sv[i as int].pts));
        let b = stroke_bbox(&ss[i]);
        acc = match (acc, b) {
            (Some(g), Some(x)) => Some(g.union(x)),
            (Some(g), None) => Some(g),
            (None, y) => y,
        };
        assert(sv.take(i + 1).drop_last() =~= sv.take(i as int));
        i += 1;
    }
    assert(sv.take(ss@.len() as int) =~= sv);
    acc
}

/// The box of a patch's content (strokes, then typeset runs).
pub fn body_bbox(ss: &Vec<Stroke>, ts: &Vec<TextRun>) -> (r: Option<Rect>)
    requires
        strokes_ok(strokes_view(ss@)),
    ensures
        r == body_box(strokes_view(ss@), texts_view(ts@)),
{
    let ghost tv = texts_view(ts@);
    let mut acc = strokes_bbox(ss);
    let ghost a0 = acc;
    let mut i: usize = 0;
    while i < ts.len()
        invariant
            i <= ts@.len(),
            tv == texts_view(ts@),
            acc == texts_box(a0, tv.take(i as int)),
        decreases ts.len() - i,
    {
        let b = ts[i].bbox;
        acc = match (acc, b) {
            (Some(g), Some(x)) => Some(g.union(x)),
            (Some(g), None) => Some(g),
            (None, y) => y,
        };
        assert(tv.take(i + 1).drop_last() =~= tv.take(i as int));
        i += 1;
    }
    assert(tv.take(ts@.len() as int) =~= tv);
    acc
}

/// Move the named strokes of one layer; grows `acc` by their boxes before
/// and after.
fn shift_layer(ss: Vec<Stroke>, refs: &Vec<(Owner, u64)>, owner: Owner, dx: i32, dy: i32, acc: Option<Rect>) -> (r: (Vec<Stroke>, Option<Rect>))
    requires
        strokes_ok(strokes_view(ss@)),
        shift_ok(strokes_view(ss@), dx as int, dy as int),
    ensures
        strokes_view(r.0@) == shift_seq(strokes_view(ss@), refs@, owner, dx as int, dy as int),
        r.1 == move_box(acc, strokes_view(ss@), refs@, owner, dx as int, dy as int),
{
    let ghost sv = strokes_view(ss@);
    let mut rest = ss;
    let mut out: Vec<Stroke> = Vec::new();
    let mut acc = acc;
    let ghost a0 = acc;
    let ghost n = sv.len() as int;
    let ghost mut i: int = 0;
    while rest.len() > 0
        invariant
            0 <= i <= n,
            n == sv.len(),
            rest@.len() == n - i,
            strokes_view(rest@) =~= sv.skip(i),
            strokes_ok(sv),
            shift_ok(sv, dx as int, dy as int),
            strokes_view(out@) =~= shift_seq(sv, refs@, owner, dx as int, dy as int).take(i),
            acc == move_box(a0, sv.take(i), refs@, owner, dx as int, dy as int),
        decreases rest.len(),
    {
        let ghost r0 = rest@;
        let mut s = rest.remove(0);
        assert(strokes_view(r0)[0] == s@);
        assert(sv.skip(i)[0] == sv[i]);
        assert(strokes_view(rest@) =~= strokes_view(r0).skip(1));
        assert(sv.skip(i).skip(1) =~= sv.skip(i + 1));
        assert(sv.take(i + 1).drop_last() =~= sv.take(i));
        assert(sv.take(i + 1).last() == s@);
        let ghost o0 = out@;
        if wanted(refs, owner, s.id) {
            assert(pts_ok(sv[i].pts));
            let before = stroke_bbox(&s);
            let mut moved: Vec<Pt> = Vec::new();
            let mut j: usize = 0;
            while j < s.pts.len()
                invariant
                    j <= s.pts@.len(),
                    s@ == sv[i],
                    0 <= i < sv.len(),
                    shift_ok(sv, dx as int, dy as int),
                    moved@ =~= shift_pts(s.pts@, dx as int, dy as int).take(j as int),
                decreases s.pts.len() - j,
            {
                let p = s.pts[j];
                assert(sv[i].pts[j as int] == p);
                moved.push(Pt { x: p.x + dx, y: p.y + dy, r: p.r });
                j += 1;
            }
            assert(moved@ =~= shift_pts(s.pts@, dx as int, dy as int));
            s.pts = moved;
            assert(pts_ok(s.pts@)) by {
                assert forall|k: int| 0 <= k < s.pts@.len() implies {
                    let p = #[trigger] s.pts@[k];
                    -COORD_LIM <= p.x <= COORD_LIM && -COORD_LIM <= p.y <= COORD_LIM && -COORD_LIM <= p.r <= COORD_LIM
                } by {
                    assert(sv[i].pts[k] == sv[i].pts[k]);
                    assert(pts_ok(sv[i].pts));
                }
            }
            let after = stroke_bbox(&s);
            acc = match (acc, before) {
                (Some(g), Some(x)) => Some(g.union(x)),
                (Some(g), None) => Some(g),
                (None, y) => y,
            };
            acc = match (acc, after) {
                (Some(g), Some(x)) => Some(g.union(x)),
                (Some(g), None) => Some(g),
                (None, y) => y,
            };
        }
        out.push(s);
        assert(strokes_view(out@) =~= strokes_view(o0).push(s@));
        assert(shift_seq(sv, refs@, owner, dx as int, dy as int).take(i + 1) =~= shift_seq(sv, refs@, owner, dx as int, dy as int).take(i).push(s@));
        proof {
            i = i + 1;
        }
    }
    assert(sv.take(n) =~= sv);
    assert(shift_seq(sv, refs@, owner, dx as int, dy as int).take(n) =~= shift_seq(sv, refs@, owner, dx as int, dy as int));
    (out, acc)
}

/// Move the named strokes of one patch.
fn shift_patch(p: Patch, refs: &Vec<(Owner, u64)>, dx: i32, dy: i32, acc: Option<Rect>) -> (r: (Patch, Option<Rect>))
    requires
        strokes_ok(p@.strokes),
        shift_ok(p@.strokes, dx as int, dy as int),
    ensures
        r.0@ == (PatchV { strokes: shift_seq(p@.strokes, refs@, Owner::Patch(p.id), dx as int, dy as int), ..p@ }),
        r.1 == move_box(acc, p@.strokes, refs@, Owner::Patch(p.id), dx as int, dy as int),
{
    let Patch { id, strokes, texts } = p;
    let (moved, b) = shift_layer(strokes, refs, Owner::Patch(id), dx, dy, acc);
    (Patch { id, strokes: moved, texts }, b)
}

/// Move the named strokes of every patch, growing `acc` as it goes.
fn shift_all_patches(ps: Vec<Patch>, refs: &Vec<(Owner, u64)>, dx: i32, dy: i32, acc: Option<Rect>) -> (r: (Vec<Patch>, Option<Rect>))
    requires
        forall|k: int| 0 <= k < ps@.len() ==> strokes_ok((#[trigger] patches_view(ps@)[k]).strokes),
        forall|k: int| 0 <= k < ps@.len() ==> shift_ok((#[trigger] patches_view(ps@)[k]).strokes, dx as int, dy as int),
    ensures
        patches_view(r.0@) == shift_patches(patches_view(ps@), refs@, dx as int, dy as int),
        r.1 == patches_move_box(acc, patches_view(ps@), refs@, dx as int, dy as int),
{
    let ghost pvs = patches_view(ps@);
    let ghost want = shift_patches(pvs, refs@, dx as int, dy as int);
    let mut rest = ps;
    let mut out: Vec<Patch> = Vec::new();
    let mut acc = acc;
    let ghost a0 = acc;
    let ghost n = pvs.len() as int;
    let ghost mut i: int = 0;
    while rest.len() > 0
        invariant
            0 <= i <= n,
            n == pvs.len(),
            want == shift_patches(pvs, refs@, dx as int, dy as int),
            rest@.len() == n - i,
            patches_view(rest@) =~= pvs.skip(i),
            forall|k: int| 0 <= k < pvs.len() ==> strokes_ok((#[trigger] pvs[k]).strokes),
            forall|k: int| 0 <= k < pvs.len() ==> shift_ok((#[trigger] pvs[k]).strokes, dx as int, dy as int),
            patches_view(out@) =~= want.take(i),
            acc == patches_move_box(a0, pvs.take(i), refs@, dx as int, dy as int),
        decreases rest.len(),
    {
        let ghost r0 = rest@;
        let p = rest.remove(0);
        assert(patches_view(r0)[0] == p@);
        assert(pvs.skip(i)[0] == pvs[i]);
        assert(patches_view(rest@) =~= patches_view(r0).skip(1));
        assert(pvs.skip(i).skip(1) =~= pvs.skip(i + 1));
        assert(pvs.take(i + 1).drop_last() =~= pvs.take(i));
        assert(pvs.take(i + 1).last() == p@);
        assert(strokes_ok(pvs[i].strokes));
        assert(shift_ok(pvs[i].strokes, dx as int, dy as int));
        let (np, b) = shift_patch(p, refs, dx, dy, acc);
        acc = b;
        let ghost o0 = out@;
        out.push(np);
        assert(patches_view(out@) =~= patches_view(o0).push(np@));
        assert(np@ == want[i]);
        assert(want.take(i + 1) =~= want.take(i).push(want[i]));
        proof {
            i = i + 1;
        }
    }
    assert(pvs.take(n) =~= pvs);
    assert(want.take(n) =~= want);
    (out, acc)
}

/// Every stroke lifted from a page whose samples are in range is in range.
pub proof fn lemma_lifted_ok(pv: PageV, refs: Seq<(Owner, u64)>)
    requires
        page_pts_ok(pv),
    ensures
        forall|k: int| 0 <= k < remove_refs_spec(pv, refs).1.len() ==> pts_ok((#[trigger] remove_refs_spec(pv, refs).1[k]).stroke.pts),
{
    lemma_split_members(pv.strokes, refs, Owner::User);
    lemma_patches_lift_ok(pv.patches, refs);
    let a = lift_seq(pv.strokes, refs, Owner::User);
    let b = patches_lift(pv.patches, refs);
    assert forall|k: int| 0 <= k < (a + b).len() implies pts_ok((#[trigger] (a + b)[k]).stroke.pts) by {
        if k < a.len() {
            assert((a + b)[k] == a[k]);
            let j = choose|j: int| 0 <= j < pv.strokes.len() && pv.strokes[j] == a[k].stroke;
            assert(pts_ok(pv.strokes[j].pts));
        } else {
            assert((a + b)[k] == b[k - a.len()]);
        }
    }
}

proof fn lemma_patches_lift_ok(ps: Seq<PatchV>, refs: Seq<(Owner, u64)>)
    requires
        forall|k: int| 0 <= k < ps.len() ==> strokes_ok((#[trigger] ps[k]).strokes),
    ensures
        forall|k: int| 0 <= k < patches_lift(ps, refs).len() ==> pts_ok((#[trigger] patches_lift(ps, refs)[k]).stroke.pts),
    decreases ps.len(),
{
    if ps.len() > 0 {
        let pre = ps.drop_last();
        assert forall|k: int| 0 <= k < pre.len() implies strokes_ok((#[trigger] pre[k]).strokes) by {
            assert(pre[k] == ps[k]);
        }
        lemma_patches_lift_ok(pre, refs);
        let p = ps.last();
        assert(strokes_ok(ps[ps.len() - 1].strokes));
        lemma_split_members(p.strokes, refs, Owner::Patch(p.id));
        let a = patches_lift(pre, refs);
        let b = lift_seq(p.strokes, refs, Owner::Patch(p.id));
        assert forall|k: int| 0 <= k < (a + b).len() implies pts_ok((#[trigger] (a + b)[k]).stroke.pts) by {
            if k < a.len() {
                assert((a + b)[k] == a[k]);
            } else {
                assert((a + b)[k] == b[k - a.len()]);
                let j = choose|j: int| 0 <= j < p.strokes.len() && p.strokes[j] == b[k - a.len()].stroke;
                assert(pts_ok(p.strokes[j].pts));
            }
        }
    }
}

/// Position of the first stroke with this id.
fn find_stroke(ss: &Vec<Stroke>, id: u64) -> (r: Option<usize>)
    ensures
        match r {
            Some(i) => i == first_id(strokes_view(ss@), id) && i < ss@.len(),
            None => first_id(strokes_view(ss@), id) == -1,
        },
{
    let ghost sv = strokes_view(ss@);
    let mut i: usize = 0;
    while i < ss.len()
        invariant
            i <= ss@.len(),
            sv == strokes_view(ss@),
            forall|j: int| 0 <= j < i ==> sv[j].id != id,
        decreases ss.len() - i,
    {
        if ss[i].id == id {
            assert(sv[i as int].id == id);
            let ghost c = choose|c: int| 0 <= c < sv.len() && sv[c].id == id && forall|j: int| 0 <= j < c ==> sv[j].id != id;
            assert(c == i) by {
                if c < i {
                    assert(sv[c].id != id);
                } else if c > i {
                    assert(sv[i as int].id != id);
                }
            }
            return Some(i);
        }
        i += 1;
    }
    None
}

impl Page {
    /// No strokes and no patches.
    pub fn is_empty(&self) -> (b: bool)
        ensures
            b == (self@.strokes.len() == 0 && self@.patches.len() == 0),
    {
        self.strokes.len() == 0 && self.patches.len() == 0
    }

    fn alloc_id(&mut self) -> (id: u64)
        requires
            old(self).next_stroke < u64::MAX,
        ensures
            id == fresh_id(old(self)@),
            final(self).next_stroke == id + 1,
            final(self).strokes == old(self).strokes,
            final(self).patches == old(self).patches,
            final(self).next_patch == old(self).next_patch,
            final(self).dirty == old(self).dirty,
    {
        if self.next_stroke == 0 {
            self.next_stroke = 1;
        }
        let id = self.next_stroke;
        self.next_stroke = id + 1;
        id
    }

    /// Land a finished user stroke; returns the id it was given.
    pub fn push_stroke(&mut self, s: Stroke) -> (id: u64)
        requires
            old(self).next_stroke < u64::MAX,
        ensures
            id == fresh_id(old(self)@),
            final(self)@ == push_spec(old(self)@, s@),
    {
        let mut s = s;
        let id = self.alloc_id();
        s.id = id;
        let ghost before = self.strokes@;
        self.strokes.push(s);
        self.dirty = true;
        assert(strokes_view(self.strokes@) =~= strokes_view(before).push(with_id(s@, id)));
        id
    }

    /// Add an assistant patch: its strokes get fresh ids; returns the
    /// patch id.
    pub fn add_patch(&mut self, strokes: Vec<Stroke>, texts: Vec<TextRun>) -> (id: u64)
        requires
            old(self).next_patch < u64::MAX,
            fresh_id(old(self)@) + strokes@.len() < u64::MAX,
        ensures
            id == old(self).next_patch,
            final(self)@ == add_patch_spec(old(self)@, strokes_view(strokes@), texts_view(texts@)),
    {
        let ghost old_page = self@;
        let ghost orig = strokes_view(strokes@);
        let ghost first = fresh_id(self@) as int;
        let mut rest = strokes;
        let mut out: Vec<Stroke> = Vec::new();
        let ghost n = orig.len();
        while rest.len() > 0
            invariant
                strokes_view(rest@) =~= orig.skip(out@.len() as int),
                out@.len() + rest@.len() == n,
                n == orig.len(),
                strokes_view(out@) =~= numbered(orig.take(out@.len() as int), first),
                first + n < u64::MAX,
                self.strokes == old(self).strokes,
                self.patches == old(self).patches,
                self.next_patch == old(self).next_patch,
                self.dirty == old(self).dirty,
                first == fresh_id(old_page),
                out@.len() == 0 ==> self.next_stroke == old_page.next_stroke,
                out@.len() > 0 ==> self.next_stroke == first + out@.len(),
            decreases rest.len(),
        {
            let ghost r0 = rest@;
            let ghost k = out@.len() as int;
            let mut s = rest.remove(0);
            assert(strokes_view(r0)[0] == s@);
            assert(orig.skip(k)[0] == orig[k]);
            assert(strokes_view(rest@) =~= strokes_view(r0).skip(1));
            assert(orig.skip(k).skip(1) =~= orig.skip(k + 1));
            let id = self.alloc_id();
            s.id = id;
            assert(id == first + k);
            let ghost o0 = out@;
            out.push(s);
            assert(strokes_view(out@) =~= strokes_view(o0).push(with_id(orig[k], id)));
            assert(orig.take(k + 1) =~= orig.take(k).push(orig[k]));
            assert(numbered(orig.take(k + 1), first) =~= numbered(orig.take(k), first).push(with_id(orig[k], id)));
        }
        assert(orig.take(n as int) =~= orig);
        let id = self.next_patch;
        self.next_patch = id + 1;
        let p = Patch { id, strokes: out, texts };
        let ghost before = self.patches@;
        self.patches.push(p);
        self.dirty = true;
        assert(patches_view(self.patches@) =~= patches_view(before).push(p@));
        id
    }

    /// Remove a user stroke by id (undoing its landing).
    pub fn remove_stroke_by_id(&mut self, id: u64) -> (r: Option<(Stroke, Rect)>)
        requires
            strokes_ok(old(self)@.strokes),
        ensures
            final(self)@ == remove_id_spec(old(self)@, id).0,
            match r {
                Some((s, b)) => remove_id_spec(old(self)@, id).1 == Some(s@) && stroke_box(s@) == Some(b),
                None => remove_id_spec(old(self)@, id).1 is None,
            },
    {
        let ghost sv = strokes_view(self.strokes@);
        match find_stroke(&self.strokes, id) {
            None => None,
            Some(i) => {
                let ghost before = self.strokes@;
                let s = self.strokes.remove(i);
                assert(sv[i as int] == s@);
                assert(strokes_view(self.strokes@) =~= sv.remove(i as int));
                assert(pts_ok(sv[i as int].pts));
                match stroke_bbox(&s) {
                    None => None,
                    Some(b) => {
                        self.dirty = true;
                        Some((s, b))
                    },
                }
            },
        }
    }

    /// Lift the named strokes out of the page (lasso delete, cut, redo
    /// of an erase). A patch left with neither strokes nor text is
    /// dropped; patch ids are never reused, so undo can recreate it.
    pub fn remove_strokes_by_ids(&mut self, refs: &Vec<(Owner, u64)>) -> (r: (Vec<OwnedStroke>, Option<Rect>))
        requires
            page_pts_ok(old(self)@),
        ensures
            final(self)@ == remove_refs_spec(old(self)@, refs@).0,
            owned_view(r.0@) == remove_refs_spec(old(self)@, refs@).1,
            r.1 == owned_box(remove_refs_spec(old(self)@, refs@).1),
    {
        let ghost pv = self@;
        let mut out: Vec<OwnedStroke> = Vec::new();
        let mut user: Vec<Stroke> = Vec::new();
        std::mem::swap(&mut user, &mut self.strokes);
        let kept = split_layer(user, refs, Owner::User, &mut out);
        self.strokes = kept;
        let mut rest: Vec<Patch> = Vec::new();
        std::mem::swap(&mut rest, &mut self.patches);
        let mut ps: Vec<Patch> = Vec::new();
        let ghost pvs = pv.patches;
        let ghost n = pvs.len() as int;
        let ghost mut i: int = 0;
        assert(owned_view(out@) =~= lift_seq(pv.strokes, refs@, Owner::User) + patches_lift(pvs.take(0), refs@));
        while rest.len() > 0
            invariant
                0 <= i <= n,
                n == pvs.len(),
                rest@.len() == n - i,
                patches_view(rest@) =~= pvs.skip(i),
                patches_view(ps@) == patches_kept(pvs.take(i), refs@),
                owned_view(out@) == lift_seq(pv.strokes, refs@, Owner::User) + patches_lift(pvs.take(i), refs@),
                strokes_view(self.strokes@) == keep_seq(pv.strokes, refs@, Owner::User),
                self.next_patch == pv.next_patch,
                self.next_stroke == pv.next_stroke,
                self.dirty == pv.dirty,
            decreases rest.len(),
        {
            let ghost r0 = rest@;
            let p = rest.remove(0);
            assert(patches_view(r0)[0] == p@);
            assert(pvs.skip(i)[0] == pvs[i]);
            assert(patches_view(rest@) =~= patches_view(r0).skip(1));
            assert(pvs.skip(i).skip(1) =~= pvs.skip(i + 1));
            assert(pvs.take(i + 1).drop_last() =~= pvs.take(i));
            assert(pvs.take(i + 1).last() == p@);
            let Patch { id: pid, strokes: pstrokes, texts } = p;
            let ghost out0 = owned_view(out@);
            let pk = split_layer(pstrokes, refs, Owner::Patch(pid), &mut out);
            assert(owned_view(out@) =~= lift_seq(pv.strokes, refs@, Owner::User) + patches_lift(pvs.take(i + 1), refs@));
            if pk.len() > 0 || texts.len() > 0 {
                let np = Patch { id: pid, strokes: pk, texts };
                let ghost ps0 = ps@;
                ps.push(np);
                assert(patches_view(ps@) =~= patches_view(ps0).push(np@));
                assert(np@ == patch_kept(pvs[i], refs@));
            }
            proof {
                i = i + 1;
            }
        }
        assert(pvs.take(n) =~= pvs);
        self.patches = ps;
        proof {
            assert forall|k: int| 0 <= k < out@.len() implies pts_ok((#[trigger] out@[k]).stroke.pts@) by {
                lemma_lifted_ok(pv, refs@);
                assert(owned_view(out@)[k] == out@[k]@);
            }
        }
        let gone = lifted_bbox(&out);
        if gone.is_some() {
            self.dirty = true;
        }
        (out, gone)
    }

    /// Put one lifted stroke back where it came from.
    fn insert_one(&mut self, os: OwnedStroke)
        requires
            os.stroke.id < u64::MAX,
            os.owner matches Owner::Patch(pid) ==> pid < u64::MAX,
        ensures
            final(self)@ == insert_one(old(self)@, os@),
    {
        let ghost pv = self@;
        let OwnedStroke { owner, stroke } = os;
        if self.next_stroke < stroke.id + 1 {
            self.next_stroke = stroke.id + 1;
        }
        match owner {
            Owner::User => {
                let ghost s0 = self.strokes@;
                self.strokes.push(stroke);
                assert(strokes_view(self.strokes@) =~= strokes_view(s0).push(os@.stroke));
            },
            Owner::Patch(pid) => {
                if self.next_patch < pid + 1 {
                    self.next_patch = pid + 1;
                }
                let ghost p0 = self.patches@;
                match find_patch(&self.patches, pid) {
                    Some(k) => {
                        let mut p = self.patches.remove(k);
                        assert(patches_view(p0)[k as int] == p@);
                        let ghost ss0 = p.strokes@;
                        p.strokes.push(stroke);
                        assert(strokes_view(p.strokes@) =~= strokes_view(ss0).push(os@.stroke));
                        self.patches.insert(k, p);
                        assert(patches_view(self.patches@) =~= patches_view(p0).update(
                            k as int,
                            PatchV { strokes: pv.patches[k as int].strokes.push(os@.stroke), ..pv.patches[k as int] },
                        ));
                    },
                    None => {
                        let mut v: Vec<Stroke> = Vec::new();
                        v.push(stroke);
                        let np = Patch { id: pid, strokes: v, texts: Vec::new() };
                        assert(strokes_view(np.strokes@) =~= seq![os@.stroke]);
                        assert(texts_view(np.texts@) =~= Seq::<TextRunV>::empty());
                        self.patches.push(np);
                        assert(patches_view(self.patches@) =~= patches_view(p0).push(np@));
                    },
                }
            },
        }
    }

    /// Put lifted strokes back where they came from (undo of an erase or
    /// a delete); returns the region they cover.
    pub fn insert_owned(&mut self, strokes: Vec<OwnedStroke>) -> (r: Option<Rect>)
        requires
            owned_ids_bounded(owned_view(strokes@)),
            forall|k: int| 0 <= k < strokes@.len() ==> pts_ok((#[trigger] strokes@[k]).stroke.pts@),
        ensures
            final(self)@ == insert_spec(old(self)@, owned_view(strokes@)),
            r == owned_box(owned_view(strokes@)),
    {
        let ghost pv = self@;
        let ghost ov = owned_view(strokes@);
        let ghost d0 = self.dirty;
        let mut rest = strokes;
        let mut acc: Option<Rect> = None;
        let ghost n = ov.len() as int;
        let ghost mut i: int = 0;
        while rest.len() > 0
            invariant
                0 <= i <= n,
                n == ov.len(),
                rest@.len() == n - i,
                owned_view(rest@) =~= ov.skip(i),
                owned_ids_bounded(ov),
                forall|k: int| 0 <= k < rest@.len() ==> pts_ok((#[trigger] rest@[k]).stroke.pts@),
                acc == owned_box(ov.take(i)),
                self@ == (PageV { dirty: d0, ..insert_all(pv, ov.take(i)) }),
                d0 == pv.dirty,
            decreases rest.len(),
        {
            let ghost r0 = rest@;
            assert(pts_ok(r0[0].stroke.pts@));
            let os = rest.remove(0);
            assert(owned_view(r0)[0] == os@);
            assert(ov.skip(i)[0] == ov[i]);
            assert(owned_view(rest@) =~= owned_view(r0).skip(1));
            assert(ov.skip(i).skip(1) =~= ov.skip(i + 1));
            assert(ov.take(i + 1).drop_last() =~= ov.take(i));
            assert(ov.take(i + 1).last() == os@);
            assert forall|k: int| 0 <= k < rest@.len() implies pts_ok((#[trigger] rest@[k]).stroke.pts@) by {
                assert(rest@[k] == r0[k + 1]);
            }
            let b = stroke_bbox(&os.stroke);
            acc = match (acc, b) {
                (Some(g), Some(x)) => Some(g.union(x)),
                (Some(g), None) => Some(g),
                (None, y) => y,
            };
            assert(ov[i].stroke.id < u64::MAX);
            self.insert_one(os);
            proof {
                i = i + 1;
            }
        }
        assert(ov.take(n) =~= ov);
        if acc.is_some() {
            self.dirty = true;
        }
        acc
    }

    /// Move the named strokes by (dx, dy) tenths of a pixel; returns the
    /// region to repaint. Ids that name nothing are skipped.
    pub fn translate_strokes(&mut self, refs: &Vec<(Owner, u64)>, dx: i32, dy: i32) -> (r: Option<Rect>)
        requires
            page_pts_ok(old(self)@),
            page_shift_ok(old(self)@, dx as int, dy as int),
        ensures
            final(self)@ == translate_spec(old(self)@, refs@, dx as int, dy as int).0,
            r == translate_spec(old(self)@, refs@, dx as int, dy as int).1,
    {
        let ghost pv = self@;
        let mut user: Vec<Stroke> = Vec::new();
        std::mem::swap(&mut user, &mut self.strokes);
        let (moved, b) = shift_layer(user, refs, Owner::User, dx, dy, None);
        self.strokes = moved;
        let mut acc = b;
        let mut rest: Vec<Patch> = Vec::new();
        std::mem::swap(&mut rest, &mut self.patches);
        assert(patches_view(rest@) == pv.patches);
        let (ps, b2) = shift_all_patches(rest, refs, dx, dy, acc);
        acc = b2;
        self.patches = ps;
        if acc.is_some() {
            self.dirty = true;
        }
        acc
    }

    /// Take a patch out and hand back its content and its box (for undo).
    /// A patch whose content has no box stays.
    pub fn take_patch(&mut self, id: u64) -> (r: Option<((Vec<Stroke>, Vec<TextRun>), Rect)>)
        requires
            page_pts_ok(old(self)@),
        ensures
            final(self)@ == take_patch_spec(old(self)@, id).0,
            match r {
                Some((body, b)) => take_patch_spec(old(self)@, id).1 == Some(PatchV { id, strokes: strokes_view(body.0@), texts: texts_view(body.1@) })
                    && body_box(strokes_view(body.0@), texts_view(body.1@)) == Some(b),
                None => take_patch_spec(old(self)@, id).1 is None,
            },
    {
        let ghost pv = self@;
        match find_patch(&self.patches, id) {
            None => None,
            Some(i) => {
                assert(strokes_ok(pv.patches[i as int].strokes));
                let bb = body_bbox(&self.patches[i].strokes, &self.patches[i].texts);
                match bb {
                    None => None,
                    Some(b) => {
                        let ghost p0 = self.patches@;
                        let p = self.patches.remove(i);
                        assert(patches_view(p0)[i as int] == p@);
                        assert(patches_view(self.patches@) =~= patches_view(p0).remove(i as int));
                        self.dirty = true;
                        Some(((p.strokes, p.texts), b))
                    },
                }
            },
        }
    }

    /// Remove a patch; returns its box.
    pub fn remove_patch(&mut self, id: u64) -> (r: Option<Rect>)
        requires
            page_pts_ok(old(self)@),
        ensures
            final(self)@ == take_patch_spec(old(self)@, id).0,
            r == match take_patch_spec(old(self)@, id).1 {
                Some(p) => body_box(p.strokes, p.texts),
                None => None,
            },
    {
        match self.take_patch(id) {
            Some((_, b)) => Some(b),
            None => None,
        }
    }

    /// Re-add a patch under its original id (undoing its erasure).
    pub fn add_patch_with_id(&mut self, id: u64, body: (Vec<Stroke>, Vec<TextRun>))
        requires
            id < u64::MAX,
            ids_bounded(strokes_view(body.0@)),
        ensures
            final(self)@ == readd_spec(old(self)@, id, strokes_view(body.0@), texts_view(body.1@)),
    {
        let (strokes, texts) = body;
        self.next_patch = if self.next_patch >= id + 1 { self.next_patch } else { id + 1 };
        let ghost sv = strokes_view(strokes@);
        let ghost n0 = self.next_stroke;
        let ghost np = self.next_patch;
        let mut i: usize = 0;
        while i < strokes.len()
            invariant
                i <= strokes@.len(),
                self.strokes == old(self).strokes,
                self.patches == old(self).patches,
                self.next_patch == np,
                self.dirty == old(self).dirty,
                sv == strokes_view(strokes@),
                ids_bounded(sv),
                self.next_stroke == above_ids(n0, sv.take(i as int)),
            decreases strokes.len() - i,
        {
            let sid = strokes[i].id;
            assert(sv[i as int].id == sid);
            if self.next_stroke < sid + 1 {
                self.next_stroke = sid + 1;
            }
            assert(sv.take(i + 1).drop_last() =~= sv.take(i as int));
            i += 1;
        }
        assert(sv.take(strokes@.len() as int) =~= sv);
        assert(self.next_stroke == above_ids(n0, sv));
        let p = Patch { id, strokes, texts };
        let ghost before = self.patches@;
        self.patches.push(p);
        self.dirty = true;
        assert(patches_view(self.patches@) =~= patches_view(before).push(p@));
        assert(p@ == PatchV { id, strokes: sv, texts: texts_view(texts@) });
    }
}

fn pt_rect(p: Pt) -> (r: Rect)
    requires
        -COORD_LIM <= p.x <= COORD_LIM,
        -COORD_LIM <= p.y <= COORD_LIM,
        -COORD_LIM <= p.r <= COORD_LIM,
    ensures
        r == pt_box(p),
{
    let (a, b, c, d) = (p.x - p.r, p.y - p.r, p.x + p.r, p.y + p.r);
    Rect {
        x0: a / 10,
        y0: b / 10,
        x1: if c >= 0 { (c + 9) / 10 } else { -((-c) / 10) },
        y1: if d >= 0 { (d + 9) / 10 } else { -((-d) / 10) },
    }
}

/// Bounding box of a stroke, in pixels; `None` for a stroke without samples.
pub fn stroke_bbox(s: &Stroke) -> (r: Option<Rect>)
    requires
        pts_ok(s.pts@),
    ensures
        r == stroke_box(s@),
{
    let mut acc: Option<Rect> = None;
    let mut i: usize = 0;
    while i < s.pts.len()
        invariant
            i <= s.pts@.len(),
            pts_ok(s.pts@),
            acc == pts_box(s.pts@.take(i as int)),
        decreases s.pts.len() - i,
    {
        let p = s.pts[i];
        let b = pt_rect(p);
        acc = match acc {
            Some(g) => Some(g.union(b)),
            None => Some(b),
        };
        assert(s.pts@.take(i + 1).drop_last() =~= s.pts@.take(i as int));
        i += 1;
    }
    assert(s.pts@.take(s.pts@.len() as int) =~= s.pts@);
    acc
}

/* ---- rows of ink ------------------------------------------------------------ */

/// Rows of ink closer than this merge into one band.
pub const BAND_GAP: i32 = 22;

/// The rectangle clamped onto the panel.
pub open spec fn clamp_rect(r: Rect) -> Rect {
    Rect {
        x0: clamp_spec(r.x0 as int, 0, SCREEN_W - 1) as i32,
        y0: clamp_spec(r.y0 as int, 0, SCREEN_H - 1) as i32,
        x1: clamp_spec(r.x1 as int, 0, SCREEN_W - 1) as i32,
        y1: clamp_spec(r.y1 as int, 0, SCREEN_H - 1) as i32,
    }
}

/// The clamped boxes of the strokes that have one, tagged with the layer.
pub open spec fn layer_boxes(ss: Seq<StrokeV>, user: bool) -> Seq<(Rect, bool)>
    decreases ss.len(),
{
    if ss.len() == 0 {
        Seq::empty()
    } else {
        let pre = layer_boxes(ss.drop_last(), user);
        match stroke_box(ss.last()) {
            Some(b) => pre.push((clamp_rect(b), user)),
            None => pre,
        }
    }
}

pub open spec fn patches_boxes(ps: Seq<PatchV>) -> Seq<(Rect, bool)>
    decreases ps.len(),
{
    if ps.len() == 0 {
        Seq::empty()
    } else {
        patches_boxes(ps.drop_last()) + layer_boxes(ps.last().strokes, false)
    }
}

/// Every stroke's box: the user's first, then each patch's.
pub open spec fn page_boxes(pv: PageV) -> Seq<(Rect, bool)> {
    layer_boxes(pv.strokes, true) + patches_boxes(pv.patches)
}

/// Merging boxes, taken top edge first, into bands.
pub open spec fn merge_bands(bs: Seq<(Rect, bool)>) -> Seq<Band>
    decreases bs.len(),
{
    if bs.len() == 0 {
        Seq::empty()
    } else {
        let pre = merge_bands(bs.drop_last());
        let (b, user) = bs.last();
        if pre.len() > 0 && b.y0 <= pre.last().y1 + BAND_GAP {
            let band = pre.last();
            pre.update(
                pre.len() - 1,
                Band {
                    y0: band.y0,
                    y1: max_spec(band.y1 as int, b.y1 as int) as i32,
                    x0: min_spec(band.x0 as int, b.x0 as int) as i32,
                    x1: max_spec(band.x1 as int, b.x1 as int) as i32,
                    user: band.user || user,
                },
            )
        } else {
            pre.push(Band { y0: b.y0, y1: b.y1, x0: b.x0, x1: b.x1, user })
        }
    }
}

/// The top edges of boxes, as sort keys.
pub open spec fn box_tops(bs: Seq<(Rect, bool)>) -> Seq<i64> {
    Seq::new(bs.len(), |i: int| bs[i].0.y0 as i64)
}

/// The page's rows of ink, top to bottom: every stroke's clamped box,
/// stably sorted by top edge, merged where rows come within `BAND_GAP`.
pub open spec fn bands_spec(pv: PageV) -> Seq<Band> {
    let bs = page_boxes(pv);
    let o = order_spec(key_before(box_tops(bs)), bs.len() as int);
    merge_bands(Seq::new(bs.len(), |k: int| bs[o[k] as int]))
}

/// Boxes of one layer, appended to `out`.
fn push_layer_boxes(ss: &Vec<Stroke>, user: bool, out: &mut Vec<(Rect, bool)>)
    requires
        strokes_ok(strokes_view(ss@)),
    ensures
        final(out)@ == old(out)@ + layer_boxes(strokes_view(ss@), user),
{
    let ghost sv = strokes_view(ss@);
    let ghost o0 = out@;
    let mut i: usize = 0;
    while i < ss.len()
        invariant
            i <= ss@.len(),
            sv == strokes_view(ss@),
            strokes_ok(sv),
            out@ == o0 + layer_boxes(sv.take(i as int), user),
        decreases ss.len() - i,
    {
        assert(pts_ok(sv[i as int].pts));
        assert(sv.take(i + 1).drop_last() =~= sv.take(i as int));
        assert(sv.take(i + 1).last() == sv[i as int]);
        if let Some(b) = stroke_bbox(&ss[i]) {
            let c = b.clamp_screen();
            let ghost p = out@;
            out.push((c, user));
            assert(out@ =~= o0 + layer_boxes(sv.take(i + 1), user));
        }
        i += 1;
    }
    assert(sv.take(ss@.len() as int) =~= sv);
}

impl Page {
    /// The page's rows of ink, top to bottom (user ink and patches alike):
    /// each stroke's box, merged with the rows it comes within
    /// `BAND_GAP` of.
    pub fn ink_bands(&self) -> (bands: Vec<Band>)
        requires
            page_pts_ok(self@),
        ensures
            bands@ == bands_spec(self@),
    {
        let ghost pv = self@;
        let mut boxes: Vec<(Rect, bool)> = Vec::new();
        push_layer_boxes(&self.strokes, true, &mut boxes);
        let mut k: usize = 0;
        let ghost b0 = boxes@;
        while k < self.patches.len()
            invariant
                k <= self.patches@.len(),
                pv == self@,
                page_pts_ok(pv),
                b0 == layer_boxes(pv.strokes, true),
                boxes@ == b0 + patches_boxes(pv.patches.take(k as int)),
            decreases self.patches.len() - k,
        {
            assert(pv.patches[k as int] == self.patches@[k as int]@);
            assert(strokes_ok(pv.patches[k as int].strokes));
            let ghost bb = boxes@;
            push_layer_boxes(&self.patches[k].strokes, false, &mut boxes);
            assert(pv.patches.take(k + 1).drop_last() =~= pv.patches.take(k as int));
            assert(pv.patches.take(k + 1).last() == pv.patches[k as int]);
            assert(boxes@ =~= b0 + patches_boxes(pv.patches.take(k + 1)));
            k += 1;
        }
        assert(pv.patches.take(self.patches@.len() as int) =~= pv.patches);
        let ghost bs = boxes@;
        assert(bs == page_boxes(pv));
        let mut tops: Vec<i64> = Vec::new();
        let mut i: usize = 0;
        while i < boxes.len()
            invariant
                i <= boxes@.len(),
                tops@ =~= box_tops(boxes@).take(i as int),
            decreases boxes.len() - i,
        {
            tops.push(boxes[i].0.y0 as i64);
            i += 1;
        }
        assert(tops@ =~= box_tops(boxes@));
        let o = stable_order(&tops);
        let n = boxes.len();
        proof {
            lemma_order_perm(key_before(tops@), n as int);
        }
        let ghost sorted = Seq::new(bs.len(), |q: int| bs[o@[q] as int]);
        let mut bands: Vec<Band> = Vec::new();
        let mut q: usize = 0;
        while q < n
            invariant
                q <= n,
                n == bs.len(),
                o@.len() == n,
                forall|t: int| 0 <= t < n ==> (#[trigger] o@[t]) < n,
                bs == boxes@,
                sorted == Seq::new(bs.len(), |q: int| bs[o@[q] as int]),
                bands@ == merge_bands(sorted.take(q as int)),
            decreases n - q,
        {
            let (b, user) = boxes[o[q]];
            assert(sorted[q as int] == (b, user));
            assert(sorted.take(q + 1).drop_last() =~= sorted.take(q as int));
            assert(sorted.take(q + 1).last() == (b, user));
            let m = bands.len();
            if m > 0 && b.y0 as i64 <= bands[m - 1].y1 as i64 + BAND_GAP as i64 {
                let band = bands[m - 1];
                let nb = Band {
                    y0: band.y0,
                    y1: if band.y1 >= b.y1 { band.y1 } else { b.y1 },
                    x0: if band.x0 <= b.x0 { band.x0 } else { b.x0 },
                    x1: if band.x1 >= b.x1 { band.x1 } else { b.x1 },
                    user: band.user || user,
                };
                bands.set(m - 1, nb);
            } else {
                bands.push(Band { y0: b.y0, y1: b.y1, x0: b.x0, x1: b.x1, user });
            }
            q += 1;
        }
        assert(sorted.take(n as int) =~= sorted);
        bands
    }
}

/// The heights of the user's bands, each clamped into [24, 160].
pub open spec fn user_heights(bands: Seq<Band>) -> Seq<i64>
    decreases bands.len(),
{
    if bands.len() == 0 {
        Seq::empty()
    } else {
        let pre = user_heights(bands.drop_last());
        let b = bands.last();
        if b.user {
            pre.push(clamp_spec(b.y1 - b.y0, 24, 160) as i64)
        } else {
            pre
        }
    }
}

/// The median (upper middle) of the clamped heights of the user's rows:
/// how big the handwriting is. `None` when the user has not written.
pub open spec fn line_height_spec(pv: PageV) -> Option<i32> {
    let hs = user_heights(bands_spec(pv));
    if hs.len() == 0 {
        None
    } else {
        Some(hs[order_spec(key_before(hs), hs.len() as int)[(hs.len() / 2) as int] as int] as i32)
    }
}

proof fn lemma_user_heights_range(bands: Seq<Band>)
    ensures
        forall|k: int| 0 <= k < user_heights(bands).len() ==> 24 <= #[trigger] user_heights(bands)[k] <= 160,
    decreases bands.len(),
{
    if bands.len() > 0 {
        let pre = bands.drop_last();
        lemma_user_heights_range(pre);
        let u = user_heights(bands);
        let p = user_heights(pre);
        assert forall|k: int| 0 <= k < u.len() implies 24 <= #[trigger] u[k] <= 160 by {
            if k < p.len() {
                assert(u[k] == p[k]);
            }
        }
    }
}

impl Page {
    pub fn user_line_height(&self) -> (r: Option<i32>)
        requires
            page_pts_ok(self@),
        ensures
            r == line_height_spec(self@),
    {
        let bands = self.ink_bands();
        let mut hs: Vec<i64> = Vec::new();
        let mut i: usize = 0;
        while i < bands.len()
            invariant
                i <= bands@.len(),
                hs@ == user_heights(bands@.take(i as int)),
            decreases bands.len() - i,
        {
            let b = bands[i];
            assert(bands@.take(i + 1).drop_last() =~= bands@.take(i as int));
            assert(bands@.take(i + 1).last() == b);
            if b.user {
                let d = b.y1 as i64 - b.y0 as i64;
                let h: i64 = if d < 24 {
                    24
                } else if d > 160 {
                    160
                } else {
                    d
                };
                hs.push(h);
            }
            i += 1;
        }
        assert(bands@.take(bands@.len() as int) =~= bands@);
        if hs.len() == 0 {
            return None;
        }
        let o = stable_order(&hs);
        proof {
            lemma_order_perm(key_before(hs@), hs@.len() as int);
            assert(o@[(hs@.len() / 2) as int] < hs@.len());
        }
        proof {
            lemma_user_heights_range(bands@);
        }
        let h = hs[o[hs.len() / 2]];
        Some(h as i32)
    }
}

/* ---- the rubber ---------------------------------------------------------------- */

pub open spec fn sq(v: int) -> int {
    v * v
}

/// Does the segment from `a` to `b` pass within `a.r + r` of (x, y)?
/// Exact arithmetic: the nearest point of the segment is the projection
/// of the point, clamped to the ends.
pub open spec fn seg_near(a: Pt, b: Pt, x: int, y: int, r: int) -> bool {
    let (px, py) = (x - a.x, y - a.y);
    let (vx, vy) = (b.x - a.x, b.y - a.y);
    let len2 = sq(vx) + sq(vy);
    let dot = px * vx + py * vy;
    let rr = sq(a.r + r);
    if len2 == 0 || dot <= 0 {
        sq(px) + sq(py) <= rr
    } else if dot >= len2 {
        sq(px - vx) + sq(py - vy) <= rr
    } else {
        (sq(px) + sq(py)) * len2 - sq(dot) <= rr * len2
    }
}

/// Is any segment of the run within reach of (x, y)?
pub open spec fn any_seg_near(pts: Seq<Pt>, x: int, y: int, r: int) -> bool {
    exists|k: int| 0 <= k < pts.len() - 1 && seg_near(#[trigger] pts[k], pts[k + 1], x, y, r)
}

/// Does a rubber at (x, y) with radius `r` (tenths of a pixel) take the
/// stroke? Its box, grown by `r`, must hold the point; then a single
/// sample must be within its own radius plus `r`, and a run must have a
/// segment within reach.
pub open spec fn hit_spec(s: StrokeV, x: int, y: int, r: int) -> bool {
    match stroke_box(s) {
        Some(b) => {
            &&& x >= b.x0 * 10 - r
            &&& x <= b.x1 * 10 + r
            &&& y >= b.y0 * 10 - r
            &&& y <= b.y1 * 10 + r
            &&& if s.pts.len() == 1 {
                sq(s.pts[0].x - x) + sq(s.pts[0].y - y) <= sq(s.pts[0].r + r)
            } else {
                any_seg_near(s.pts, x, y, r)
            }
        },
        None => false,
    }
}

/// The strokes of a layer the rubber misses.
pub open spec fn miss_seq(ss: Seq<StrokeV>, x: int, y: int, r: int) -> Seq<StrokeV>
    decreases ss.len(),
{
    if ss.len() == 0 {
        ss
    } else {
        let k = miss_seq(ss.drop_last(), x, y, r);
        if hit_spec(ss.last(), x, y, r) {
            k
        } else {
            k.push(ss.last())
        }
    }
}

/// The strokes of a layer the rubber takes, tagged with the layer.
pub open spec fn hit_seq(ss: Seq<StrokeV>, owner: Owner, x: int, y: int, r: int) -> Seq<OwnedV>
    decreases ss.len(),
{
    if ss.len() == 0 {
        Seq::empty()
    } else {
        let l = hit_seq(ss.drop_last(), owner, x, y, r);
        if hit_spec(ss.last(), x, y, r) {
            l.push(OwnedV { owner, stroke: ss.last() })
        } else {
            l
        }
    }
}

/// The patches after a rubber pass; a patch left without strokes is
/// dropped (its typeset text too).
pub open spec fn patches_erased(ps: Seq<PatchV>, x: int, y: int, r: int) -> Seq<PatchV>
    decreases ps.len(),
{
    if ps.len() == 0 {
        ps
    } else {
        let k = patches_erased(ps.drop_last(), x, y, r);
        let p = PatchV { strokes: miss_seq(ps.last().strokes, x, y, r), ..ps.last() };
        if p.strokes.len() > 0 {
            k.push(p)
        } else {
            k
        }
    }
}

pub open spec fn patches_hit(ps: Seq<PatchV>, x: int, y: int, r: int) -> Seq<OwnedV>
    decreases ps.len(),
{
    if ps.len() == 0 {
        Seq::empty()
    } else {
        patches_hit(ps.drop_last(), x, y, r) + hit_seq(ps.last().strokes, Owner::Patch(ps.last().id), x, y, r)
    }
}

/// A rubber pass: the page after, and what it took (user strokes first).
pub open spec fn erase_spec(pv: PageV, x: int, y: int, r: int) -> (PageV, Seq<OwnedV>) {
    let lifted = hit_seq(pv.strokes, Owner::User, x, y, r) + patches_hit(pv.patches, x, y, r);
    (
        PageV {
            strokes: miss_seq(pv.strokes, x, y, r),
            patches: patches_erased(pv.patches, x, y, r),
            dirty: pv.dirty || owned_box(lifted) is Some,
            ..pv
        },
        lifted,
    )
}

fn seg_near_exec(a: Pt, b: Pt, x: i32, y: i32, r: i32) -> (n: bool)
    requires
        -COORD_LIM <= a.x <= COORD_LIM && -COORD_LIM <= a.y <= COORD_LIM && -COORD_LIM <= a.r <= COORD_LIM,
        -COORD_LIM <= b.x <= COORD_LIM && -COORD_LIM <= b.y <= COORD_LIM,
        -COORD_LIM <= x <= COORD_LIM && -COORD_LIM <= y <= COORD_LIM && -COORD_LIM <= r <= COORD_LIM,
    ensures
        n == seg_near(a, b, x as int, y as int, r as int),
{
    let px = x as i128 - a.x as i128;
    let py = y as i128 - a.y as i128;
    let vx = b.x as i128 - a.x as i128;
    let vy = b.y as i128 - a.y as i128;
    let rs = a.r as i128 + r as i128;
    proof {
        lemma_sq_bound(px);
        lemma_sq_bound(py);
        lemma_sq_bound(vx);
        lemma_sq_bound(vy);
        lemma_sq_bound(rs);
        lemma_mul_bound(px, vx);
        lemma_mul_bound(py, vy);
    }
    let len2 = vx * vx + vy * vy;
    let dot = px * vx + py * vy;
    let rr = rs * rs;
    if len2 == 0 || dot <= 0 {
        px * px + py * py <= rr
    } else if dot >= len2 {
        let (qx, qy) = (px - vx, py - vy);
        assert(0 <= qx * qx <= 0x400_0000_0000_0000) by (nonlinear_arith)
            requires
                -0x2000_0000 <= qx <= 0x2000_0000,
        ;
        assert(0 <= qy * qy <= 0x400_0000_0000_0000) by (nonlinear_arith)
            requires
                -0x2000_0000 <= qy <= 0x2000_0000,
        ;
        qx * qx + qy * qy <= rr
    } else {
        let d = px * px + py * py;
        assert(0 <= d * len2 <= 0x4_0000_0000_0000_0000_0000_0000_0000) by (nonlinear_arith)
            requires
                0 <= d <= 0x200_0000_0000_0000,
                0 <= len2 <= 0x200_0000_0000_0000,
        ;
        assert(0 <= dot * dot <= 0x4_0000_0000_0000_0000_0000_0000_0000) by (nonlinear_arith)
            requires
                -0x200_0000_0000_0000 <= dot <= 0x200_0000_0000_0000,
        ;
        assert(0 <= rr * len2 <= 0x4_0000_0000_0000_0000_0000_0000_0000) by (nonlinear_arith)
            requires
                0 <= rr <= 0x100_0000_0000_0000,
                0 <= len2 <= 0x200_0000_0000_0000,
        ;
        d * len2 - dot * dot <= rr * len2
    }
}

proof fn lemma_sq_bound(v: i128)
    requires
        -0x1000_0000 <= v <= 0x1000_0000,
    ensures
        0 <= v * v <= 0x100_0000_0000_0000,
{
    assert(0 <= v * v <= 0x100_0000_0000_0000) by (nonlinear_arith)
        requires
            -0x1000_0000 <= v <= 0x1000_0000,
    ;
}

proof fn lemma_mul_bound(a: i128, b: i128)
    requires
        -0x1000_0000 <= a <= 0x1000_0000,
        -0x1000_0000 <= b <= 0x1000_0000,
    ensures
        -0x100_0000_0000_0000 <= a * b <= 0x100_0000_0000_0000,
{
    assert(-0x100_0000_0000_0000 <= a * b <= 0x100_0000_0000_0000) by (nonlinear_arith)
        requires
            -0x1000_0000 <= a <= 0x1000_0000,
            -0x1000_0000 <= b <= 0x1000_0000,
    ;
}

/// Does the rubber take the stroke?
fn stroke_hit(s: &Stroke, x: i32, y: i32, r: i32) -> (h: bool)
    requires
        pts_ok(s.pts@),
        -COORD_LIM <= x <= COORD_LIM && -COORD_LIM <= y <= COORD_LIM && -COORD_LIM <= r <= COORD_LIM,
    ensures
        h == hit_spec(s@, x as int, y as int, r as int),
{
    let b = match stroke_bbox(s) {
        Some(b) => b,
        None => return false,
    };
    proof {
        lemma_pts_box_range(s.pts@);
    }
    let (xx, yy, rr) = (x as i64, y as i64, r as i64);
    if !(xx >= b.x0 as i64 * 10 - rr && xx <= b.x1 as i64 * 10 + rr && yy >= b.y0 as i64 * 10 - rr && yy <= b.y1 as i64
        * 10 + rr) {
        return false;
    }
    let n = s.pts.len();
    assert(n > 0) by {
        if n == 0 {
            assert(pts_box(s.pts@) is None);
        }
    }
    if n == 1 {
        let p = s.pts[0];
        let (dx, dy, rs) = (p.x as i128 - x as i128, p.y as i128 - y as i128, p.r as i128 + r as i128);
        proof {
            lemma_sq_bound(dx);
            lemma_sq_bound(dy);
            lemma_sq_bound(rs);
        }
        return dx * dx + dy * dy <= rs * rs;
    }
    let mut k: usize = 0;
    while k < n - 1
        invariant
            n == s.pts@.len(),
            n > 1,
            pts_ok(s.pts@),
            stroke_box(s@) == Some(b),
            x >= b.x0 * 10 - r && x <= b.x1 * 10 + r && y >= b.y0 * 10 - r && y <= b.y1 * 10 + r,
            -COORD_LIM <= x <= COORD_LIM && -COORD_LIM <= y <= COORD_LIM && -COORD_LIM <= r <= COORD_LIM,
            forall|j: int| 0 <= j < k ==> !seg_near(#[trigger] s.pts@[j], s.pts@[j + 1], x as int, y as int, r as int),
        decreases n - k,
    {
        let a = s.pts[k];
        let c = s.pts[k + 1];
        assert(pts_ok(s.pts@));
        assert(a == s.pts@[k as int] && c == s.pts@[k + 1]);
        if seg_near_exec(a, c, x, y, r) {
            assert(any_seg_near(s.pts@, x as int, y as int, r as int));
            return true;
        }
        k += 1;
    }
    false
}

/// A stroke's box lies within a tenth of its samples' range.
proof fn lemma_pts_box_range(pts: Seq<Pt>)
    requires
        pts_ok(pts),
    ensures
        match pts_box(pts) {
            Some(b) => -COORD_LIM <= b.x0 <= COORD_LIM && -COORD_LIM <= b.y0 <= COORD_LIM && -COORD_LIM <= b.x1
                <= COORD_LIM && -COORD_LIM <= b.y1 <= COORD_LIM,
            None => true,
        },
    decreases pts.len(),
{
    if pts.len() > 0 {
        let pre = pts.drop_last();
        assert forall|k: int| 0 <= k < pre.len() implies {
            let p = #[trigger] pre[k];
            -COORD_LIM <= p.x <= COORD_LIM && -COORD_LIM <= p.y <= COORD_LIM && -COORD_LIM <= p.r <= COORD_LIM
        } by {
            assert(pre[k] == pts[k]);
        }
        lemma_pts_box_range(pre);
        let p = pts.last();
        assert(pts_ok(pts));
        assert(-COORD_LIM <= pts[pts.len() - 1].x <= COORD_LIM);
    }
}

/// Split one layer's strokes into those the rubber misses and takes.
fn erase_layer(ss: Vec<Stroke>, owner: Owner, x: i32, y: i32, r: i32, out: &mut Vec<OwnedStroke>) -> (kept: Vec<Stroke>)
    requires
        strokes_ok(strokes_view(ss@)),
        -COORD_LIM <= x <= COORD_LIM && -COORD_LIM <= y <= COORD_LIM && -COORD_LIM <= r <= COORD_LIM,
    ensures
        strokes_view(kept@) == miss_seq(strokes_view(ss@), x as int, y as int, r as int),
        owned_view(final(out)@) == owned_view(old(out)@) + hit_seq(strokes_view(ss@), owner, x as int, y as int, r as int),
{
    let ghost sv = strokes_view(ss@);
    let ghost o0 = owned_view(out@);
    let mut rest = ss;
    let mut kept: Vec<Stroke> = Vec::new();
    let ghost n = sv.len() as int;
    let ghost mut i: int = 0;
    while rest.len() > 0
        invariant
            0 <= i <= n,
            n == sv.len(),
            rest@.len() == n - i,
            strokes_view(rest@) =~= sv.skip(i),
            strokes_ok(sv),
            -COORD_LIM <= x <= COORD_LIM && -COORD_LIM <= y <= COORD_LIM && -COORD_LIM <= r <= COORD_LIM,
            strokes_view(kept@) == miss_seq(sv.take(i), x as int, y as int, r as int),
            owned_view(out@) == o0 + hit_seq(sv.take(i), owner, x as int, y as int, r as int),
        decreases rest.len(),
    {
        let ghost r0 = rest@;
        let s = rest.remove(0);
        assert(strokes_view(r0)[0] == s@);
        assert(sv.skip(i)[0] == sv[i]);
        assert(strokes_view(rest@) =~= strokes_view(r0).skip(1));
        assert(sv.skip(i).skip(1) =~= sv.skip(i + 1));
        assert(sv.take(i + 1).drop_last() =~= sv.take(i));
        assert(sv.take(i + 1).last() == s@);
        assert(pts_ok(sv[i].pts));
        if stroke_hit(&s, x, y, r) {
            let ghost out0 = out@;
            out.push(OwnedStroke { owner, stroke: s });
            assert(owned_view(out@) =~= owned_view(out0).push(OwnedV { owner, stroke: s@ }));
            assert(o0 + hit_seq(sv.take(i), owner, x as int, y as int, r as int).push(OwnedV { owner, stroke: s@ })
                =~= (o0 + hit_seq(sv.take(i), owner, x as int, y as int, r as int)).push(OwnedV { owner, stroke: s@ }));
        } else {
            let ghost k0 = kept@;
            kept.push(s);
            assert(strokes_view(kept@) =~= strokes_view(k0).push(s@));
        }
        proof {
            i = i + 1;
        }
    }
    assert(sv.take(n) =~= sv);
    kept
}

/// Every stroke the rubber takes is a stroke of the layer.
proof fn lemma_hit_members(ss: Seq<StrokeV>, owner: Owner, x: int, y: int, r: int)
    ensures
        forall|k: int| 0 <= k < hit_seq(ss, owner, x, y, r).len() ==> ss.contains((#[trigger] hit_seq(ss, owner, x, y, r)[k]).stroke),
    decreases ss.len(),
{
    if ss.len() > 0 {
        let pre = ss.drop_last();
        lemma_hit_members(pre, owner, x, y, r);
        let l = hit_seq(pre, owner, x, y, r);
        assert forall|k: int| 0 <= k < hit_seq(ss, owner, x, y, r).len() implies ss.contains((#[trigger] hit_seq(ss, owner, x, y, r)[k]).stroke) by {
            if k < l.len() {
                assert(hit_seq(ss, owner, x, y, r)[k] == l[k]);
                let j = choose|j: int| 0 <= j < pre.len() && pre[j] == l[k].stroke;
                assert(ss[j] == l[k].stroke);
            } else {
                assert(ss[ss.len() - 1] == ss.last());
            }
        }
    }
}

proof fn lemma_patches_hit_ok(ps: Seq<PatchV>, x: int, y: int, r: int)
    requires
        forall|k: int| 0 <= k < ps.len() ==> strokes_ok((#[trigger] ps[k]).strokes),
    ensures
        forall|k: int| 0 <= k < patches_hit(ps, x, y, r).len() ==> pts_ok((#[trigger] patches_hit(ps, x, y, r)[k]).stroke.pts),
    decreases ps.len(),
{
    if ps.len() > 0 {
        let pre = ps.drop_last();
        assert forall|k: int| 0 <= k < pre.len() implies strokes_ok((#[trigger] pre[k]).strokes) by {
            assert(pre[k] == ps[k]);
        }
        lemma_patches_hit_ok(pre, x, y, r);
        let p = ps.last();
        assert(strokes_ok(ps[ps.len() - 1].strokes));
        lemma_hit_members(p.strokes, Owner::Patch(p.id), x, y, r);
        let a = patches_hit(pre, x, y, r);
        let b = hit_seq(p.strokes, Owner::Patch(p.id), x, y, r);
        assert forall|k: int| 0 <= k < (a + b).len() implies pts_ok((#[trigger] (a + b)[k]).stroke.pts) by {
            if k < a.len() {
                assert((a + b)[k] == a[k]);
            } else {
                assert((a + b)[k] == b[k - a.len()]);
                let j = choose|j: int| 0 <= j < p.strokes.len() && p.strokes[j] == b[k - a.len()].stroke;
                assert(pts_ok(p.strokes[j].pts));
            }
        }
    }
}

impl Page {
    /// A rubber pass at (x, y) with radius `r` (tenths of a pixel): every
    /// stroke (user or assistant) within reach leaves the page. Returns
    /// the region they covered and the lifted strokes (one undo op), or
    /// `None` when nothing was taken. Patches left without strokes are
    /// dropped.
    pub fn erase_at(&mut self, x: i32, y: i32, r: i32) -> (res: Option<(Rect, Vec<OwnedStroke>)>)
        requires
            page_pts_ok(old(self)@),
            -COORD_LIM <= x <= COORD_LIM && -COORD_LIM <= y <= COORD_LIM && -COORD_LIM <= r <= COORD_LIM,
        ensures
            final(self)@ == erase_spec(old(self)@, x as int, y as int, r as int).0,
            match res {
                Some((g, v)) => owned_view(v@) == erase_spec(old(self)@, x as int, y as int, r as int).1
                    && owned_box(owned_view(v@)) == Some(g),
                None => owned_box(erase_spec(old(self)@, x as int, y as int, r as int).1) is None,
            },
    {
        let ghost pv = self@;
        let mut out: Vec<OwnedStroke> = Vec::new();
        let mut user: Vec<Stroke> = Vec::new();
        std::mem::swap(&mut user, &mut self.strokes);
        let kept = erase_layer(user, Owner::User, x, y, r, &mut out);
        self.strokes = kept;
        let mut rest: Vec<Patch> = Vec::new();
        std::mem::swap(&mut rest, &mut self.patches);
        let mut ps: Vec<Patch> = Vec::new();
        let ghost pvs = pv.patches;
        let ghost n = pvs.len() as int;
        let ghost mut i: int = 0;
        assert(owned_view(out@) =~= hit_seq(pv.strokes, Owner::User, x as int, y as int, r as int) + patches_hit(pvs.take(0), x as int, y as int, r as int));
        while rest.len() > 0
            invariant
                0 <= i <= n,
                n == pvs.len(),
                rest@.len() == n - i,
                patches_view(rest@) =~= pvs.skip(i),
                forall|k: int| 0 <= k < pvs.len() ==> strokes_ok((#[trigger] pvs[k]).strokes),
                -COORD_LIM <= x <= COORD_LIM && -COORD_LIM <= y <= COORD_LIM && -COORD_LIM <= r <= COORD_LIM,
                patches_view(ps@) == patches_erased(pvs.take(i), x as int, y as int, r as int),
                owned_view(out@) == hit_seq(pv.strokes, Owner::User, x as int, y as int, r as int) + patches_hit(pvs.take(i), x as int, y as int, r as int),
                strokes_view(self.strokes@) == miss_seq(pv.strokes, x as int, y as int, r as int),
                self.next_patch == pv.next_patch,
                self.next_stroke == pv.next_stroke,
                self.dirty == pv.dirty,
            decreases rest.len(),
        {
            let ghost r0 = rest@;
            let p = rest.remove(0);
            assert(patches_view(r0)[0] == p@);
            assert(pvs.skip(i)[0] == pvs[i]);
            assert(patches_view(rest@) =~= patches_view(r0).skip(1));
            assert(pvs.skip(i).skip(1) =~= pvs.skip(i + 1));
            assert(pvs.take(i + 1).drop_last() =~= pvs.take(i));
            assert(pvs.take(i + 1).last() == p@);
            assert(strokes_ok(pvs[i].strokes));
            let Patch { id: pid, strokes: pstrokes, texts } = p;
            let pk = erase_layer(pstrokes, Owner::Patch(pid), x, y, r, &mut out);
            assert(owned_view(out@) =~= hit_seq(pv.strokes, Owner::User, x as int, y as int, r as int) + patches_hit(pvs.take(i + 1), x as int, y as int, r as int));
            if pk.len() > 0 {
                let np = Patch { id: pid, strokes: pk, texts };
                let ghost ps0 = ps@;
                ps.push(np);
                assert(patches_view(ps@) =~= patches_view(ps0).push(np@));
            }
            proof {
                i = i + 1;
            }
        }
        assert(pvs.take(n) =~= pvs);
        self.patches = ps;
        proof {
            lemma_hit_members(pv.strokes, Owner::User, x as int, y as int, r as int);
            lemma_patches_hit_ok(pvs, x as int, y as int, r as int);
            let a = hit_seq(pv.strokes, Owner::User, x as int, y as int, r as int);
            let b = patches_hit(pvs, x as int, y as int, r as int);
            assert forall|k: int| 0 <= k < out@.len() implies pts_ok((#[trigger] out@[k]).stroke.pts@) by {
                assert(owned_view(out@)[k] == out@[k]@);
                if k < a.len() {
                    assert((a + b)[k] == a[k]);
                    let j = choose|j: int| 0 <= j < pv.strokes.len() && pv.strokes[j] == a[k].stroke;
                    assert(pts_ok(pv.strokes[j].pts));
                } else {
                    assert((a + b)[k] == b[k - a.len()]);
                }
            }
        }
        let gone = lifted_bbox(&out);
        match gone {
            Some(g) => {
                self.dirty = true;
                Some((g, out))
            },
            None => None,
        }
    }
}

/// A stroke the rubber reaches is among the strokes it takes.
proof fn lemma_hit_seq_has(ss: Seq<StrokeV>, owner: Owner, i: int, x: int, y: int, r: int)
    requires
        0 <= i < ss.len(),
        hit_spec(ss[i], x, y, r),
    ensures
        hit_seq(ss, owner, x, y, r).contains(OwnedV { owner, stroke: ss[i] }),
    decreases ss.len(),
{
    let l = hit_seq(ss.drop_last(), owner, x, y, r);
    if i < ss.len() - 1 {
        assert(ss.drop_last()[i] == ss[i]);
        lemma_hit_seq_has(ss.drop_last(), owner, i, x, y, r);
        let j = choose|j: int| 0 <= j < l.len() && l[j] == OwnedV { owner, stroke: ss[i] };
        if hit_spec(ss.last(), x, y, r) {
            assert(hit_seq(ss, owner, x, y, r)[j] == l[j]);
        }
    } else {
        assert(hit_seq(ss, owner, x, y, r)[l.len() as int] == OwnedV { owner, stroke: ss[i] });
    }
}

/// No stroke the rubber reaches is left behind.
proof fn lemma_miss_seq_lacks(ss: Seq<StrokeV>, x: int, y: int, r: int)
    ensures
        forall|k: int| 0 <= k < miss_seq(ss, x, y, r).len() ==> !hit_spec(#[trigger] miss_seq(ss, x, y, r)[k], x, y, r),
    decreases ss.len(),
{
    if ss.len() > 0 {
        lemma_miss_seq_lacks(ss.drop_last(), x, y, r);
        let m = miss_seq(ss.drop_last(), x, y, r);
        assert forall|k: int| 0 <= k < miss_seq(ss, x, y, r).len() implies !hit_spec(#[trigger] miss_seq(ss, x, y, r)[k], x, y, r) by {
            if k < m.len() {
                assert(miss_seq(ss, x, y, r)[k] == m[k]);
            }
        }
    }
}

/// What the rubber takes from the patches includes every patch stroke it reaches.
proof fn lemma_patches_hit_has(ps: Seq<PatchV>, j: int, i: int, x: int, y: int, r: int)
    requires
        0 <= j < ps.len(),
        0 <= i < ps[j].strokes.len(),
        hit_spec(ps[j].strokes[i], x, y, r),
    ensures
        patches_hit(ps, x, y, r).contains(OwnedV { owner: Owner::Patch(ps[j].id), stroke: ps[j].strokes[i] }),
    decreases ps.len(),
{
    let pre = ps.drop_last();
    let a = patches_hit(pre, x, y, r);
    let b = hit_seq(ps.last().strokes, Owner::Patch(ps.last().id), x, y, r);
    let o = OwnedV { owner: Owner::Patch(ps[j].id), stroke: ps[j].strokes[i] };
    if j < ps.len() - 1 {
        assert(pre[j] == ps[j]);
        lemma_patches_hit_has(pre, j, i, x, y, r);
        let q = choose|q: int| 0 <= q < a.len() && a[q] == o;
        assert((a + b)[q] == a[q]);
    } else {
        lemma_hit_seq_has(ps.last().strokes, Owner::Patch(ps.last().id), i, x, y, r);
        let q = choose|q: int| 0 <= q < b.len() && b[q] == o;
        assert((a + b)[a.len() + q] == b[q]);
    }
}

/// A run of lifted strokes holding a stroke with a box has a box.
proof fn lemma_owned_box_some(os: Seq<OwnedV>, q: int)
    requires
        0 <= q < os.len(),
        stroke_box(os[q].stroke) is Some,
    ensures
        owned_box(os) is Some,
    decreases os.len(),
{
    if q < os.len() - 1 {
        assert(os.drop_last()[q] == os[q]);
        lemma_owned_box_some(os.drop_last(), q);
    }
}

/// The rubber's reach over a stroke of two or more samples: when the
/// point (x, y) lies within `pts[k].r + r` of any one segment
/// `pts[k]..pts[k + 1]` (not only the first) and inside the stroke's box
/// grown by `r`, the pass takes the stroke: it is among the lifted
/// strokes under its layer, no equal stroke stays on the user layer, and
/// the pass reports a region (so `erase_at` answers `Some`).
pub proof fn lemma_rubber_takes_reached_segment(pv: PageV, layer: int, i: int, k: int, x: int, y: int, r: int)
    requires
        -1 <= layer < pv.patches.len(),
        layer == -1 ==> 0 <= i < pv.strokes.len(),
        layer >= 0 ==> 0 <= i < pv.patches[layer].strokes.len(),
        ({
            let s = if layer == -1 { pv.strokes[i] } else { pv.patches[layer].strokes[i] };
            &&& 0 <= k < s.pts.len() - 1
            &&& seg_near(s.pts[k], s.pts[k + 1], x, y, r)
            &&& stroke_box(s) matches Some(b) && x >= b.x0 * 10 - r && x <= b.x1 * 10 + r && y >= b.y0 * 10 - r
                && y <= b.y1 * 10 + r
        }),
    ensures
        layer == -1 ==> erase_spec(pv, x, y, r).1.contains(OwnedV { owner: Owner::User, stroke: pv.strokes[i] }),
        layer == -1 ==> !erase_spec(pv, x, y, r).0.strokes.contains(pv.strokes[i]),
        layer >= 0 ==> erase_spec(pv, x, y, r).1.contains(
            OwnedV { owner: Owner::Patch(pv.patches[layer].id), stroke: pv.patches[layer].strokes[i] },
        ),
        owned_box(erase_spec(pv, x, y, r).1) is Some,
{
    let s = if layer == -1 { pv.strokes[i] } else { pv.patches[layer].strokes[i] };
    assert(s.pts.len() != 1);
    assert(any_seg_near(s.pts, x, y, r));
    assert(hit_spec(s, x, y, r));
    let a = hit_seq(pv.strokes, Owner::User, x, y, r);
    let b = patches_hit(pv.patches, x, y, r);
    let o = if layer == -1 { OwnedV { owner: Owner::User, stroke: s } } else {
        OwnedV { owner: Owner::Patch(pv.patches[layer].id), stroke: s }
    };
    if layer == -1 {
        lemma_hit_seq_has(pv.strokes, Owner::User, i, x, y, r);
        let q = choose|q: int| 0 <= q < a.len() && a[q] == o;
        assert((a + b)[q] == a[q]);
        lemma_owned_box_some(a + b, q);
        lemma_miss_seq_lacks(pv.strokes, x, y, r);
    } else {
        lemma_patches_hit_has(pv.patches, layer, i, x, y, r);
        let q = choose|q: int| 0 <= q < b.len() && b[q] == o;
        assert((a + b)[a.len() + q] == b[q]);
        lemma_owned_box_some(a + b, a.len() + q);
    }
}

/// A stroke the rubber misses stays in its layer.
proof fn lemma_miss_seq_has(ss: Seq<StrokeV>, i: int, x: int, y: int, r: int)
    requires
        0 <= i < ss.len(),
        !hit_spec(ss[i], x, y, r),
    ensures
        miss_seq(ss, x, y, r).contains(ss[i]),
    decreases ss.len(),
{
    let m = miss_seq(ss.drop_last(), x, y, r);
    if i < ss.len() - 1 {
        assert(ss.drop_last()[i] == ss[i]);
        lemma_miss_seq_has(ss.drop_last(), i, x, y, r);
        let j = choose|j: int| 0 <= j < m.len() && m[j] == ss[i];
        if !hit_spec(ss.last(), x, y, r) {
            assert(miss_seq(ss, x, y, r)[j] == m[j]);
        }
    } else {
        assert(miss_seq(ss, x, y, r)[m.len() as int] == ss[i]);
    }
}

/// Everything a layer gives up carries the layer's tag and is reached.
proof fn lemma_hit_seq_all_hit(ss: Seq<StrokeV>, owner: Owner, x: int, y: int, r: int)
    ensures
        forall|k: int| 0 <= k < hit_seq(ss, owner, x, y, r).len() ==> (#[trigger] hit_seq(ss, owner, x, y, r)[k]).owner == owner
            && hit_spec(hit_seq(ss, owner, x, y, r)[k].stroke, x, y, r),
    decreases ss.len(),
{
    if ss.len() > 0 {
        lemma_hit_seq_all_hit(ss.drop_last(), owner, x, y, r);
        let l = hit_seq(ss.drop_last(), owner, x, y, r);
        assert forall|k: int| 0 <= k < hit_seq(ss, owner, x, y, r).len() implies (#[trigger] hit_seq(ss, owner, x, y, r)[k]).owner
            == owner && hit_spec(hit_seq(ss, owner, x, y, r)[k].stroke, x, y, r) by {
            if k < l.len() {
                assert(hit_seq(ss, owner, x, y, r)[k] == l[k]);
            }
        }
    }
}

/// What the patches give up is tagged with a patch, never the user layer.
proof fn lemma_patches_hit_not_user(ps: Seq<PatchV>, x: int, y: int, r: int)
    ensures
        forall|k: int| 0 <= k < patches_hit(ps, x, y, r).len() ==> (#[trigger] patches_hit(ps, x, y, r)[k]).owner != Owner::User,
    decreases ps.len(),
{
    if ps.len() > 0 {
        let pre = ps.drop_last();
        lemma_patches_hit_not_user(pre, x, y, r);
        let a = patches_hit(pre, x, y, r);
        let b = hit_seq(ps.last().strokes, Owner::Patch(ps.last().id), x, y, r);
        lemma_hit_seq_all_hit(ps.last().strokes, Owner::Patch(ps.last().id), x, y, r);
        assert forall|k: int| 0 <= k < (a + b).len() implies (#[trigger] (a + b)[k]).owner != Owner::User by {
            if k < a.len() {
                assert((a + b)[k] == a[k]);
            } else {
                assert((a + b)[k] == b[k - a.len()]);
            }
        }
    }
}

/// The rubber spares a user stroke of two or more samples that it does
/// not reach: when no segment `pts[k]..pts[k + 1]` passes within
/// `pts[k].r + r` of (x, y), or the point lies outside the stroke's box
/// grown by `r`, the stroke stays on the page and is not lifted.
pub proof fn lemma_rubber_spares_unreached(pv: PageV, i: int, x: int, y: int, r: int)
    requires
        0 <= i < pv.strokes.len(),
        pv.strokes[i].pts.len() >= 2,
        (forall|k: int|
            0 <= k < pv.strokes[i].pts.len() - 1 ==> !seg_near(
                #[trigger] pv.strokes[i].pts[k],
                pv.strokes[i].pts[k + 1],
                x,
                y,
                r,
            )) || (stroke_box(pv.strokes[i]) matches Some(b) && !(x >= b.x0 * 10 - r && x <= b.x1 * 10 + r && y >= b.y0
            * 10 - r && y <= b.y1 * 10 + r)),
    ensures
        erase_spec(pv, x, y, r).0.strokes.contains(pv.strokes[i]),
        !erase_spec(pv, x, y, r).1.contains(OwnedV { owner: Owner::User, stroke: pv.strokes[i] }),
{
    let s = pv.strokes[i];
    if any_seg_near(s.pts, x, y, r) {
        let k = choose|k: int| 0 <= k < s.pts.len() - 1 && seg_near(#[trigger] s.pts[k], s.pts[k + 1], x, y, r);
        assert(!seg_near(s.pts[k], s.pts[k + 1], x, y, r) || !(stroke_box(s) matches Some(b) && x >= b.x0 * 10 - r
            && x <= b.x1 * 10 + r && y >= b.y0 * 10 - r && y <= b.y1 * 10 + r));
    }
    assert(!hit_spec(s, x, y, r));
    lemma_miss_seq_has(pv.strokes, i, x, y, r);
    let a = hit_seq(pv.strokes, Owner::User, x, y, r);
    let b = patches_hit(pv.patches, x, y, r);
    lemma_hit_seq_all_hit(pv.strokes, Owner::User, x, y, r);
    lemma_patches_hit_not_user(pv.patches, x, y, r);
    let o = OwnedV { owner: Owner::User, stroke: s };
    if (a + b).contains(o) {
        let q = choose|q: int| 0 <= q < (a + b).len() && (a + b)[q] == o;
        if q < a.len() {
            assert((a + b)[q] == a[q]);
        } else {
            assert((a + b)[q] == b[q - a.len()]);
        }
    }
}

/* ---- healing ids ------------------------------------------------------------- */

/// The largest id among the strokes (0 when there are none).
pub open spec fn max_id(ss: Seq<StrokeV>) -> u64
    decreases ss.len(),
{
    if ss.len() == 0 {
        0
    } else {
        max_spec(max_id(ss.drop_last()) as int, ss.last().id as int) as u64
    }
}

pub open spec fn patches_max_id(ps: Seq<PatchV>) -> u64
    decreases ps.len(),
{
    if ps.len() == 0 {
        0
    } else {
        max_spec(patches_max_id(ps.drop_last()) as int, max_id(ps.last().strokes) as int) as u64
    }
}

/// Strokes without an id (0) take fresh ones from `n`, in order; the
/// strokes after, and the counter after.
pub open spec fn heal_seq(ss: Seq<StrokeV>, n: int) -> (Seq<StrokeV>, int)
    decreases ss.len(),
{
    if ss.len() == 0 {
        (ss, n)
    } else {
        let (h, m) = heal_seq(ss.drop_last(), n);
        if ss.last().id == 0 {
            (h.push(with_id(ss.last(), m as u64)), m + 1)
        } else {
            (h.push(ss.last()), m)
        }
    }
}

pub open spec fn heal_patches(ps: Seq<PatchV>, n: int) -> (Seq<PatchV>, int)
    decreases ps.len(),
{
    if ps.len() == 0 {
        (ps, n)
    } else {
        let (h, m) = heal_patches(ps.drop_last(), n);
        let (ss, m2) = heal_seq(ps.last().strokes, m);
        (h.push(PatchV { strokes: ss, ..ps.last() }), m2)
    }
}

/// A freshly read page with its ids healed: the counter starts past every
/// id (and at least at 1), and every stroke without an id (user strokes
/// first, then each patch's) takes the next one.
pub open spec fn heal_spec(pv: PageV) -> PageV {
    let top = max_spec(max_id(pv.strokes) as int, patches_max_id(pv.patches) as int);
    let start = max_spec(max_spec(pv.next_stroke as int, top + 1), 1);
    let (us, n1) = heal_seq(pv.strokes, start);
    let (ps, n2) = heal_patches(pv.patches, n1);
    PageV { strokes: us, patches: ps, next_stroke: n2 as u64, ..pv }
}

/// How many strokes the page holds, all layers.
pub open spec fn stroke_count(pv: PageV) -> int {
    pv.strokes.len() + patches_count(pv.patches)
}

pub open spec fn patches_count(ps: Seq<PatchV>) -> int
    decreases ps.len(),
{
    if ps.len() == 0 {
        0
    } else {
        patches_count(ps.drop_last()) + ps.last().strokes.len()
    }
}

proof fn lemma_heal_seq_bound(ss: Seq<StrokeV>, n: int)
    ensures
        n <= heal_seq(ss, n).1 <= n + ss.len(),
        heal_seq(ss, n).0.len() == ss.len(),
    decreases ss.len(),
{
    if ss.len() > 0 {
        lemma_heal_seq_bound(ss.drop_last(), n);
    }
}

proof fn lemma_heal_patches_bound(ps: Seq<PatchV>, n: int)
    ensures
        n <= heal_patches(ps, n).1 <= n + patches_count(ps),
        heal_patches(ps, n).0.len() == ps.len(),
        patches_count(ps) >= 0,
    decreases ps.len(),
{
    if ps.len() > 0 {
        lemma_heal_patches_bound(ps.drop_last(), n);
        lemma_heal_seq_bound(ps.last().strokes, heal_patches(ps.drop_last(), n).1);
    }
}

proof fn lemma_patches_count_prefix(ps: Seq<PatchV>, i: int)
    requires
        0 <= i <= ps.len(),
    ensures
        0 <= patches_count(ps.take(i)) <= patches_count(ps),
    decreases ps.len() - i,
{
    if i < ps.len() {
        lemma_patches_count_prefix(ps, i + 1);
        assert(ps.take(i + 1).drop_last() =~= ps.take(i));
        assert(ps.take(i + 1).last() == ps[i]);
        lemma_heal_patches_bound(ps.take(i), 0);
        assert(patches_count(ps.take(i + 1)) == patches_count(ps.take(i)) + ps[i].strokes.len());
    } else {
        assert(ps.take(i) =~= ps);
        lemma_heal_patches_bound(ps, 0);
    }
}

/// Give id-less strokes of one layer fresh ids from `*next`.
fn heal_layer(ss: Vec<Stroke>, next: &mut u64) -> (r: Vec<Stroke>)
    requires
        *old(next) + ss@.len() < u64::MAX,
    ensures
        (strokes_view(r@), *final(next) as int) == heal_seq(strokes_view(ss@), *old(next) as int),
{
    let ghost sv = strokes_view(ss@);
    let ghost n0 = *next as int;
    let mut rest = ss;
    let mut out: Vec<Stroke> = Vec::new();
    let ghost n = sv.len() as int;
    let ghost mut i: int = 0;
    while rest.len() > 0
        invariant
            0 <= i <= n,
            n == sv.len(),
            rest@.len() == n - i,
            strokes_view(rest@) =~= sv.skip(i),
            n0 + n < u64::MAX,
            (strokes_view(out@), *next as int) == heal_seq(sv.take(i), n0),
        decreases rest.len(),
    {
        proof {
            lemma_heal_seq_bound(sv.take(i), n0);
        }
        let ghost r0 = rest@;
        let mut s = rest.remove(0);
        assert(strokes_view(r0)[0] == s@);
        assert(sv.skip(i)[0] == sv[i]);
        assert(strokes_view(rest@) =~= strokes_view(r0).skip(1));
        assert(sv.skip(i).skip(1) =~= sv.skip(i + 1));
        assert(sv.take(i + 1).drop_last() =~= sv.take(i));
        assert(sv.take(i + 1).last() == s@);
        let ghost o0 = out@;
        if s.id == 0 {
            s.id = *next;
            *next = *next + 1;
        }
        out.push(s);
        assert(strokes_view(out@) =~= strokes_view(o0).push(s@));
        proof {
            i = i + 1;
        }
    }
    assert(sv.take(n) =~= sv);
    out
}

fn max_id_of(ss: &Vec<Stroke>) -> (m: u64)
    ensures
        m == max_id(strokes_view(ss@)),
{
    let ghost sv = strokes_view(ss@);
    let mut m: u64 = 0;
    let mut i: usize = 0;
    while i < ss.len()
        invariant
            i <= ss@.len(),
            sv == strokes_view(ss@),
            m == max_id(sv.take(i as int)),
        decreases ss.len() - i,
    {
        assert(sv.take(i + 1).drop_last() =~= sv.take(i as int));
        assert(sv[i as int].id == ss@[i as int].id);
        if ss[i].id > m {
            m = ss[i].id;
        }
        i += 1;
    }
    assert(sv.take(ss@.len() as int) =~= sv);
    m
}

impl Page {
    /// Heal the ids of a page just read from a file (pre-id pages, or
    /// foreign writers): strokes without an id get fresh ones.
    pub fn heal_ids(&mut self)
        requires
            max_spec(max_id(old(self)@.strokes) as int, patches_max_id(old(self)@.patches) as int) < u64::MAX,
            max_spec(old(self).next_stroke as int, max_spec(max_id(old(self)@.strokes) as int, patches_max_id(old(self)@.patches) as int) + 1)
                + stroke_count(old(self)@) < u64::MAX,
        ensures
            final(self)@ == heal_spec(old(self)@),
    {
        let ghost pv = self@;
        let mut top = max_id_of(&self.strokes);
        let mut k: usize = 0;
        while k < self.patches.len()
            invariant
                k <= self.patches@.len(),
                pv == self@,
                top == max_spec(max_id(pv.strokes) as int, patches_max_id(pv.patches.take(k as int)) as int),
            decreases self.patches.len() - k,
        {
            assert(pv.patches.take(k + 1).drop_last() =~= pv.patches.take(k as int));
            assert(pv.patches[k as int] == self.patches@[k as int]@);
            let m = max_id_of(&self.patches[k].strokes);
            if m > top {
                top = m;
            }
            k += 1;
        }
        assert(pv.patches.take(self.patches@.len() as int) =~= pv.patches);
        let mut next = if self.next_stroke >= top + 1 { self.next_stroke } else { top + 1 };
        if next < 1 {
            next = 1;
        }
        let ghost start = next as int;
        assert(start == max_spec(max_spec(pv.next_stroke as int, max_spec(max_id(pv.strokes) as int, patches_max_id(pv.patches) as int) + 1), 1));
        proof {
            lemma_heal_patches_bound(pv.patches, 0);
        }
        let mut user: Vec<Stroke> = Vec::new();
        std::mem::swap(&mut user, &mut self.strokes);
        let healed = heal_layer(user, &mut next);
        self.strokes = healed;
        let mut rest: Vec<Patch> = Vec::new();
        std::mem::swap(&mut rest, &mut self.patches);
        let ghost pvs = pv.patches;
        let ghost n1 = next as int;
        proof {
            lemma_heal_seq_bound(pv.strokes, start);
        }
        let ghost np = pvs.len() as int;
        let mut ps: Vec<Patch> = Vec::new();
        let ghost mut i: int = 0;
        while rest.len() > 0
            invariant
                0 <= i <= np,
                np == pvs.len(),
                rest@.len() == np - i,
                patches_view(rest@) =~= pvs.skip(i),
                (patches_view(ps@), next as int) == heal_patches(pvs.take(i), n1),
                n1 + patches_count(pvs) < u64::MAX,
                strokes_view(self.strokes@) == heal_seq(pv.strokes, start).0,
                n1 == heal_seq(pv.strokes, start).1,
                self.next_patch == pv.next_patch,
                self.dirty == pv.dirty,
            decreases rest.len(),
        {
            proof {
                lemma_patches_count_prefix(pvs, i);
                lemma_patches_count_prefix(pvs, i + 1);
                assert(pvs.take(i + 1).drop_last() =~= pvs.take(i));
                lemma_heal_patches_bound(pvs.take(i), n1);
            }
            let ghost r0 = rest@;
            let p = rest.remove(0);
            assert(patches_view(r0)[0] == p@);
            assert(pvs.skip(i)[0] == pvs[i]);
            assert(patches_view(rest@) =~= patches_view(r0).skip(1));
            assert(pvs.skip(i).skip(1) =~= pvs.skip(i + 1));
            assert(pvs.take(i + 1).last() == p@);
            let Patch { id, strokes, texts } = p;
            let hs = heal_layer(strokes, &mut next);
            let np2 = Patch { id, strokes: hs, texts };
            let ghost ps0 = ps@;
            ps.push(np2);
            assert(patches_view(ps@) =~= patches_view(ps0).push(np2@));
            proof {
                i = i + 1;
            }
        }
        assert(pvs.take(np) =~= pvs);
        self.patches = ps;
        self.next_stroke = next;
    }
}

/* ---- range checks ------------------------------------------------------------ */

fn pt_in_range(p: Pt) -> (b: bool)
    ensures
        b == (-COORD_LIM <= p.x <= COORD_LIM && -COORD_LIM <= p.y <= COORD_LIM && -COORD_LIM <= p.r <= COORD_LIM),
{
    -COORD_LIM <= p.x && p.x <= COORD_LIM && -COORD_LIM <= p.y && p.y <= COORD_LIM && -COORD_LIM <= p.r && p.r
        <= COORD_LIM
}

fn pts_in_range(pts: &Vec<Pt>) -> (b: bool)
    ensures
        b == pts_ok(pts@),
{
    let mut i: usize = 0;
    while i < pts.len()
        invariant
            i <= pts@.len(),
            forall|k: int| 0 <= k < i ==> {
                let p = #[trigger] pts@[k];
                -COORD_LIM <= p.x <= COORD_LIM && -COORD_LIM <= p.y <= COORD_LIM && -COORD_LIM <= p.r <= COORD_LIM
            },
        decreases pts.len() - i,
    {
        if !pt_in_range(pts[i]) {
            return false;
        }
        i += 1;
    }
    true
}

/// Are the samples of every stroke in range?
pub fn strokes_in_range(ss: &Vec<Stroke>) -> (b: bool)
    ensures
        b == strokes_ok(strokes_view(ss@)),
{
    let ghost sv = strokes_view(ss@);
    let mut i: usize = 0;
    while i < ss.len()
        invariant
            i <= ss@.len(),
            sv == strokes_view(ss@),
            forall|k: int| 0 <= k < i ==> pts_ok((#[trigger] sv[k]).pts),
        decreases ss.len() - i,
    {
        if !pts_in_range(&ss[i].pts) {
            assert(!pts_ok(sv[i as int].pts));
            return false;
        }
        i += 1;
    }
    true
}

fn shifted_in_range(ss: &Vec<Stroke>, dx: i32, dy: i32) -> (b: bool)
    ensures
        b == shift_ok(strokes_view(ss@), dx as int, dy as int),
{
    let ghost sv = strokes_view(ss@);
    let mut i: usize = 0;
    while i < ss.len()
        invariant
            i <= ss@.len(),
            sv == strokes_view(ss@),
            forall|k: int, j: int| 0 <= k < i && 0 <= j < sv[k].pts.len() ==> {
                let p = #[trigger] sv[k].pts[j];
                -COORD_LIM <= p.x + dx <= COORD_LIM && -COORD_LIM <= p.y + dy <= COORD_LIM
            },
        decreases ss.len() - i,
    {
        let pts = &ss[i].pts;
        let mut j: usize = 0;
        while j < pts.len()
            invariant
                j <= pts@.len(),
                pts@ == sv[i as int].pts,
                sv == strokes_view(ss@),
                0 <= i < sv.len(),
                forall|q: int| 0 <= q < j ==> {
                    let p = #[trigger] pts@[q];
                    -COORD_LIM <= p.x + dx <= COORD_LIM && -COORD_LIM <= p.y + dy <= COORD_LIM
                },
            decreases pts.len() - j,
        {
            let p = pts[j];
            let (x, y) = (p.x as i64 + dx as i64, p.y as i64 + dy as i64);
            if !(-(COORD_LIM as i64) <= x && x <= COORD_LIM as i64 && -(COORD_LIM as i64) <= y && y <= COORD_LIM as i64) {
                assert(sv[i as int].pts[j as int] == p);
                assert(!(-COORD_LIM <= sv[i as int].pts[j as int].x + dx <= COORD_LIM && -COORD_LIM
                    <= sv[i as int].pts[j as int].y + dy <= COORD_LIM));
                return false;
            }
            j += 1;
        }
        i += 1;
    }
    true
}

impl Page {
    /// Are the samples of every stroke in range?
    pub fn in_range(&self) -> (b: bool)
        ensures
            b == page_pts_ok(self@),
    {
        if !strokes_in_range(&self.strokes) {
            return false;
        }
        let mut k: usize = 0;
        while k < self.patches.len()
            invariant
                k <= self.patches@.len(),
                forall|q: int| 0 <= q < k ==> strokes_ok((#[trigger] self@.patches[q]).strokes),
            decreases self.patches.len() - k,
        {
            if !strokes_in_range(&self.patches[k].strokes) {
                assert(self@.patches[k as int] == self.patches@[k as int]@);
                return false;
            }
            assert(self@.patches[k as int] == self.patches@[k as int]@);
            k += 1;
        }
        true
    }

    /// Would every sample stay in range if moved by (dx, dy)?
    pub fn shift_in_range(&self, dx: i32, dy: i32) -> (b: bool)
        ensures
            b == page_shift_ok(self@, dx as int, dy as int),
    {
        if !shifted_in_range(&self.strokes, dx, dy) {
            return false;
        }
        let mut k: usize = 0;
        while k < self.patches.len()
            invariant
                k <= self.patches@.len(),
                forall|q: int| 0 <= q < k ==> shift_ok((#[trigger] self@.patches[q]).strokes, dx as int, dy as int),
            decreases self.patches.len() - k,
        {
            if !shifted_in_range(&self.patches[k].strokes, dx, dy) {
                assert(self@.patches[k as int] == self.patches@[k as int]@);
                return false;
            }
            assert(self@.patches[k as int] == self.patches@[k as int]@);
            k += 1;
        }
        true
    }
}

/* ---- laws of the page ---------------------------------------------------- */

/// Does the page hold the stroke in the layer?
pub open spec fn has_stroke(pv: PageV, owner: Owner, s: StrokeV) -> bool {
    match owner {
        Owner::User => pv.strokes.contains(s),
        Owner::Patch(pid) => exists|k: int| 0 <= k < pv.patches.len() && (#[trigger] pv.patches[k]).id == pid && pv.patches[k].strokes.contains(s),
    }
}

proof fn lemma_insert_one_has(pv: PageV, x: OwnedV, o: Owner, s: StrokeV)
    ensures
        has_stroke(insert_one(pv, x), o, s) <==> (has_stroke(pv, o, s) || x == (OwnedV { owner: o, stroke: s })),
{
    let after = insert_one(pv, x);
    match x.owner {
        Owner::User => {
            assert(after.patches == pv.patches);
            if o == Owner::User {
                if after.strokes.contains(s) && !pv.strokes.contains(s) {
                    let j = choose|j: int| 0 <= j < after.strokes.len() && after.strokes[j] == s;
                    if j < pv.strokes.len() {
                        assert(pv.strokes[j] == s);
                    }
                }
                if pv.strokes.contains(s) {
                    let j = choose|j: int| 0 <= j < pv.strokes.len() && pv.strokes[j] == s;
                    assert(after.strokes[j] == s);
                }
                if x == (OwnedV { owner: o, stroke: s }) {
                    assert(after.strokes[pv.strokes.len() as int] == s);
                }
            }
        },
        Owner::Patch(pid) => {
            assert(after.strokes == pv.strokes);
            let k = first_patch(pv.patches, pid);
            if let Owner::Patch(q) = o {
                if k < 0 {
                    let np = PatchV { id: pid, strokes: seq![x.stroke], texts: Seq::empty() };
                    assert(after.patches == pv.patches.push(np));
                    if has_stroke(after, o, s) {
                        let m = choose|m: int| 0 <= m < after.patches.len() && (#[trigger] after.patches[m]).id == q && after.patches[m].strokes.contains(s);
                        if m < pv.patches.len() {
                            assert(pv.patches[m] == after.patches[m]);
                        } else {
                            assert(after.patches[m] == np);
                            let j = choose|j: int| 0 <= j < np.strokes.len() && np.strokes[j] == s;
                            assert(s == x.stroke);
                        }
                    }
                    if has_stroke(pv, o, s) {
                        let m = choose|m: int| 0 <= m < pv.patches.len() && (#[trigger] pv.patches[m]).id == q && pv.patches[m].strokes.contains(s);
                        assert(after.patches[m] == pv.patches[m]);
                    }
                    if x == (OwnedV { owner: o, stroke: s }) {
                        let m = pv.patches.len() as int;
                        assert(after.patches[m] == np);
                        assert(np.strokes[0] == s);
                    }
                } else {
                    let old_p = pv.patches[k];
                    let new_p = PatchV { strokes: old_p.strokes.push(x.stroke), ..old_p };
                    assert(after.patches == pv.patches.update(k, new_p));
                    assert(old_p.id == pid);
                    if has_stroke(after, o, s) {
                        let m = choose|m: int| 0 <= m < after.patches.len() && (#[trigger] after.patches[m]).id == q && after.patches[m].strokes.contains(s);
                        if m != k {
                            assert(pv.patches[m] == after.patches[m]);
                        } else {
                            let j = choose|j: int| 0 <= j < new_p.strokes.len() && new_p.strokes[j] == s;
                            if j < old_p.strokes.len() {
                                assert(old_p.strokes[j] == s);
                                assert(pv.patches[m].strokes.contains(s));
                            }
                        }
                    }
                    if has_stroke(pv, o, s) {
                        let m = choose|m: int| 0 <= m < pv.patches.len() && (#[trigger] pv.patches[m]).id == q && pv.patches[m].strokes.contains(s);
                        if m != k {
                            assert(after.patches[m] == pv.patches[m]);
                        } else {
                            let j = choose|j: int| 0 <= j < old_p.strokes.len() && old_p.strokes[j] == s;
                            assert(new_p.strokes[j] == s);
                            assert(after.patches[m] == new_p);
                        }
                    }
                    if x == (OwnedV { owner: o, stroke: s }) {
                        assert(after.patches[k] == new_p);
                        assert(new_p.strokes[old_p.strokes.len() as int] == s);
                    }
                }
            } else {
                if has_stroke(after, o, s) || has_stroke(pv, o, s) {
                    assert(after.strokes == pv.strokes);
                }
            }
        },
    }
}

proof fn lemma_insert_all_has(pv: PageV, os: Seq<OwnedV>, o: Owner, s: StrokeV)
    ensures
        has_stroke(insert_all(pv, os), o, s) <==> (has_stroke(pv, o, s) || os.contains(OwnedV { owner: o, stroke: s })),
    decreases os.len(),
{
    if os.len() > 0 {
        let pre = os.drop_last();
        lemma_insert_all_has(pv, pre, o, s);
        lemma_insert_one_has(insert_all(pv, pre), os.last(), o, s);
        let t = OwnedV { owner: o, stroke: s };
        if os.contains(t) {
            let j = choose|j: int| 0 <= j < os.len() && os[j] == t;
            if j < pre.len() {
                assert(pre[j] == t);
            }
        }
        if pre.contains(t) {
            let j = choose|j: int| 0 <= j < pre.len() && pre[j] == t;
            assert(os[j] == t);
        }
    }
}

proof fn lemma_patches_kept_has(ps: Seq<PatchV>, refs: Seq<(Owner, u64)>, q: u64, s: StrokeV)
    ensures
        (exists|k: int| 0 <= k < patches_kept(ps, refs).len() && (#[trigger] patches_kept(ps, refs)[k]).id == q && patches_kept(ps, refs)[k].strokes.contains(s))
            <==> (exists|k: int| 0 <= k < ps.len() && (#[trigger] ps[k]).id == q && ps[k].strokes.contains(s))
                && !wanted_spec(refs, Owner::Patch(q), s.id),
    decreases ps.len(),
{
    if ps.len() > 0 {
        let pre = ps.drop_last();
        lemma_patches_kept_has(pre, refs, q, s);
        let p = ps.last();
        let kp = patch_kept(p, refs);
        lemma_split_members(p.strokes, refs, Owner::Patch(p.id));
        let kk = patches_kept(pre, refs);
        let all = patches_kept(ps, refs);
        if exists|k: int| 0 <= k < all.len() && (#[trigger] all[k]).id == q && all[k].strokes.contains(s) {
            let k = choose|k: int| 0 <= k < all.len() && (#[trigger] all[k]).id == q && all[k].strokes.contains(s);
            if k < kk.len() {
                assert(all[k] == kk[k]);
                let m = choose|m: int| 0 <= m < pre.len() && (#[trigger] pre[m]).id == q && pre[m].strokes.contains(s);
                assert(ps[m] == pre[m]);
            } else {
                assert(all[k] == kp);
                let j = choose|j: int| 0 <= j < kp.strokes.len() && kp.strokes[j] == s;
                assert(ps[ps.len() - 1] == p);
            }
        }
        if (exists|k: int| 0 <= k < ps.len() && (#[trigger] ps[k]).id == q && ps[k].strokes.contains(s)) && !wanted_spec(refs, Owner::Patch(q), s.id) {
            let k = choose|k: int| 0 <= k < ps.len() && (#[trigger] ps[k]).id == q && ps[k].strokes.contains(s);
            if k < pre.len() {
                assert(pre[k] == ps[k]);
                let m = choose|m: int| 0 <= m < kk.len() && (#[trigger] kk[m]).id == q && kk[m].strokes.contains(s);
                assert(all[m] == kk[m]);
            } else {
                assert(ps[k] == p);
                let j = choose|j: int| 0 <= j < p.strokes.len() && p.strokes[j] == s;
                assert(kp.strokes.contains(s));
                assert(all[kk.len() as int] == kp);
            }
        }
    }
}

proof fn lemma_patches_lift_has(ps: Seq<PatchV>, refs: Seq<(Owner, u64)>, q: u64, s: StrokeV)
    ensures
        patches_lift(ps, refs).contains(OwnedV { owner: Owner::Patch(q), stroke: s })
            <==> (exists|k: int| 0 <= k < ps.len() && (#[trigger] ps[k]).id == q && ps[k].strokes.contains(s))
                && wanted_spec(refs, Owner::Patch(q), s.id),
        forall|k: int| 0 <= k < patches_lift(ps, refs).len() ==> (#[trigger] patches_lift(ps, refs)[k]).owner != Owner::User,
    decreases ps.len(),
{
    if ps.len() > 0 {
        let pre = ps.drop_last();
        lemma_patches_lift_has(pre, refs, q, s);
        let p = ps.last();
        lemma_split_members(p.strokes, refs, Owner::Patch(p.id));
        let a = patches_lift(pre, refs);
        let b = lift_seq(p.strokes, refs, Owner::Patch(p.id));
        let t = OwnedV { owner: Owner::Patch(q), stroke: s };
        assert(patches_lift(ps, refs) == a + b);
        assert forall|k: int| 0 <= k < (a + b).len() implies (#[trigger] (a + b)[k]).owner != Owner::User by {
            if k < a.len() {
                assert((a + b)[k] == a[k]);
            } else {
                assert((a + b)[k] == b[k - a.len()]);
            }
        }
        if (a + b).contains(t) {
            let k = choose|k: int| 0 <= k < (a + b).len() && (a + b)[k] == t;
            if k < a.len() {
                assert((a + b)[k] == a[k]);
                let m = choose|m: int| 0 <= m < pre.len() && (#[trigger] pre[m]).id == q && pre[m].strokes.contains(s);
                assert(ps[m] == pre[m]);
            } else {
                assert((a + b)[k] == b[k - a.len()]);
                assert(ps[ps.len() - 1] == p);
            }
        }
        if (exists|k: int| 0 <= k < ps.len() && (#[trigger] ps[k]).id == q && ps[k].strokes.contains(s)) && wanted_spec(refs, Owner::Patch(q), s.id) {
            let k = choose|k: int| 0 <= k < ps.len() && (#[trigger] ps[k]).id == q && ps[k].strokes.contains(s);
            if k < pre.len() {
                assert(pre[k] == ps[k]);
                let m = choose|m: int| 0 <= m < a.len() && a[m] == t;
                assert((a + b)[m] == t);
            } else {
                assert(ps[k] == p);
                let j = choose|j: int| 0 <= j < p.strokes.len() && p.strokes[j] == s;
                let m = choose|m: int| 0 <= m < b.len() && b[m] == t;
                assert((a + b)[a.len() + m] == t);
            }
        }
    }
}

/// Lifting strokes out and putting them back keeps every stroke in its
/// layer: a lasso delete (or a rubber batch) undone leaves the page
/// holding exactly the strokes it held, each where it was.
pub proof fn lemma_lift_then_restore(pv: PageV, refs: Seq<(Owner, u64)>, o: Owner, s: StrokeV)
    ensures
        has_stroke(insert_spec(remove_refs_spec(pv, refs).0, remove_refs_spec(pv, refs).1), o, s) <==> has_stroke(pv, o, s),
{
    let (mid, lifted) = remove_refs_spec(pv, refs);
    lemma_insert_all_has(mid, lifted, o, s);
    assert(insert_spec(mid, lifted).strokes == insert_all(mid, lifted).strokes);
    assert(insert_spec(mid, lifted).patches == insert_all(mid, lifted).patches);
    assert(has_stroke(insert_spec(mid, lifted), o, s) == has_stroke(insert_all(mid, lifted), o, s));
    let a = lift_seq(pv.strokes, refs, Owner::User);
    let b = patches_lift(pv.patches, refs);
    let t = OwnedV { owner: o, stroke: s };
    assert(lifted == a + b);
    lemma_split_members(pv.strokes, refs, Owner::User);
    let w = wanted_spec(refs, o, s.id);
    match o {
        Owner::User => {
            lemma_patches_lift_has(pv.patches, refs, 0, s);
            // what stays
            assert(mid.strokes == keep_seq(pv.strokes, refs, Owner::User));
            if has_stroke(mid, o, s) {
                let k = choose|k: int| 0 <= k < mid.strokes.len() && mid.strokes[k] == s;
                assert(pv.strokes.contains(s) && !w);
            }
            if pv.strokes.contains(s) && !w {
                let j = choose|j: int| 0 <= j < pv.strokes.len() && pv.strokes[j] == s;
                assert(mid.strokes.contains(pv.strokes[j]));
            }
            // what was lifted
            if lifted.contains(t) {
                let k = choose|k: int| 0 <= k < lifted.len() && lifted[k] == t;
                if k >= a.len() {
                    assert(lifted[k] == b[k - a.len()]);
                    assert(b[k - a.len()].owner != Owner::User);
                } else {
                    assert(lifted[k] == a[k]);
                    assert(pv.strokes.contains(s) && w);
                }
            }
            if pv.strokes.contains(s) && w {
                let j = choose|j: int| 0 <= j < pv.strokes.len() && pv.strokes[j] == s;
                assert(a.contains(OwnedV { owner: Owner::User, stroke: pv.strokes[j] }));
                let k = choose|k: int| 0 <= k < a.len() && a[k] == t;
                assert(lifted[k] == t);
            }
        },
        Owner::Patch(q) => {
            lemma_patches_kept_has(pv.patches, refs, q, s);
            lemma_patches_lift_has(pv.patches, refs, q, s);
            assert(mid.patches == patches_kept(pv.patches, refs));
            if lifted.contains(t) {
                let k = choose|k: int| 0 <= k < lifted.len() && lifted[k] == t;
                if k < a.len() {
                    assert(lifted[k] == a[k]);
                    assert(a[k].owner == Owner::User);
                } else {
                    assert(lifted[k] == b[k - a.len()]);
                    assert(b.contains(t));
                }
            }
            if b.contains(t) {
                let k = choose|k: int| 0 <= k < b.len() && b[k] == t;
                assert(lifted[a.len() + k] == t);
            }
        },
    }
}

/// Landing a stroke and then removing it by the id it was given gives
/// the stroke back and leaves the user layer as it was (the page's ids
/// are below its counter, as every operation keeps them).
pub proof fn lemma_push_then_remove(pv: PageV, s: StrokeV)
    requires
        forall|k: int| 0 <= k < pv.strokes.len() ==> (#[trigger] pv.strokes[k]).id < fresh_id(pv),
    ensures
        remove_id_spec(push_spec(pv, s), fresh_id(pv)).0.strokes == pv.strokes,
        remove_id_spec(push_spec(pv, s), fresh_id(pv)).1 == if stroke_box(s) is Some {
            Some(with_id(s, fresh_id(pv)))
        } else {
            None::<StrokeV>
        },
{
    let id = fresh_id(pv);
    let pushed = push_spec(pv, s);
    let n = pv.strokes.len() as int;
    assert(pushed.strokes[n].id == id);
    assert forall|j: int| 0 <= j < n implies pushed.strokes[j].id != id by {
        assert(pushed.strokes[j] == pv.strokes[j]);
    }
    let c = choose|c: int| 0 <= c < pushed.strokes.len() && pushed.strokes[c].id == id && forall|j: int| 0 <= j < c ==> pushed.strokes[j].id != id;
    assert(c == n) by {
        if c < n {
            assert(pushed.strokes[c] == pv.strokes[c]);
        }
    }
    assert(first_id(pushed.strokes, id) == n);
    assert(pushed.strokes.remove(n) =~= pv.strokes);
    assert(stroke_box(with_id(s, id)) == stroke_box(s));
}


/* ---- typeset text under the rubber ------------------------------------------ */

/// Does the rubber at (x, y, r) (tenths) reach the measured box of the run?
pub open spec fn text_near(t: TextRunV, x: int, y: int, r: int) -> bool {
    match t.bbox {
        Some(b) => x >= b.x0 * 10 - r && x <= b.x1 * 10 + r && y >= b.y0 * 10 - r && y <= b.y1 * 10 + r,
        None => false,
    }
}

pub open spec fn patch_text_hit(p: PatchV, x: int, y: int, r: int) -> bool {
    exists|j: int| 0 <= j < p.texts.len() && #[trigger] text_near(p.texts[j], x, y, r)
}

/// The first patch (in page order) with a typeset run under the rubber.
pub open spec fn text_patch_spec(ps: Seq<PatchV>, x: int, y: int, r: int) -> Option<u64>
    decreases ps.len(),
{
    if ps.len() == 0 {
        None
    } else if patch_text_hit(ps[0], x, y, r) {
        Some(ps[0].id)
    } else {
        text_patch_spec(ps.skip(1), x, y, r)
    }
}

fn run_near(t: &TextRun, x: i32, y: i32, r: i32) -> (b: bool)
    ensures
        b == text_near(t@, x as int, y as int, r as int),
{
    match t.bbox {
        Some(b) => {
            let (xx, yy, rr) = (x as i64, y as i64, r as i64);
            xx >= b.x0 as i64 * 10 - rr && xx <= b.x1 as i64 * 10 + rr && yy >= b.y0 as i64 * 10 - rr && yy
                <= b.y1 as i64 * 10 + rr
        },
        None => false,
    }
}

impl Page {
    /// The patch whose typeset text a rubber pass at (x, y, r) lands on
    /// (typeset runs are erased a whole patch at a time).
    pub fn text_patch_at(&self, x: i32, y: i32, r: i32) -> (id: Option<u64>)
        ensures
            id == text_patch_spec(self@.patches, x as int, y as int, r as int),
    {
        let ghost ps = self@.patches;
        assert(ps.skip(0) =~= ps);
        let mut i: usize = 0;
        while i < self.patches.len()
            invariant
                i <= self.patches@.len(),
                ps == patches_view(self.patches@),
                ps == self@.patches,
                ps.len() == self.patches@.len(),
                text_patch_spec(ps, x as int, y as int, r as int) == text_patch_spec(ps.skip(i as int), x as int, y as int, r as int),
            decreases self.patches.len() - i,
        {
            let p = &self.patches[i];
            let ghost pv = ps[i as int];
            assert(pv == p@);
            assert(ps.skip(i as int)[0] == pv);
            assert(ps.skip(i as int).skip(1) =~= ps.skip(i + 1));
            let mut j: usize = 0;
            while j < p.texts.len()
                invariant
                    j <= p.texts@.len(),
                    pv == p@,
                    ps == self@.patches,
                    ps.skip(i as int)[0] == pv,
                    0 < ps.skip(i as int).len(),
                    text_patch_spec(ps, x as int, y as int, r as int) == text_patch_spec(ps.skip(i as int), x as int, y as int, r as int),
                    forall|q: int| 0 <= q < j ==> !#[trigger] text_near(pv.texts[q], x as int, y as int, r as int),
                decreases p.texts.len() - j,
            {
                assert(pv.texts[j as int] == p.texts@[j as int]@);
                if run_near(&p.texts[j], x, y, r) {
                    assert(text_near(pv.texts[j as int], x as int, y as int, r as int));
                    assert(patch_text_hit(pv, x as int, y as int, r as int));
                    assert(text_patch_spec(ps.skip(i as int), x as int, y as int, r as int) == Some(pv.id));
                    return Some(p.id);
                }
                j += 1;
            }
            assert(!patch_text_hit(pv, x as int, y as int, r as int));
            i += 1;
        }
        assert(ps.skip(i as int) =~= Seq::<PatchV>::empty());
        None
    }
}

} // verus!
