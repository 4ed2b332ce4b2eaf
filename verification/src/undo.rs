//! Op-based undo and redo, per page.
//!
//! An op owns stroke data only while that data is absent from the page
//! (an applied erase holds the erased strokes; an undone add holds the
//! removed stroke); everything else is an (owner, id) reference, stable
//! because ids persist with the page. Undo and redo are last-in,
//! first-out, so undoing a move after a later erase brings the erase back
//! first, restoring the strokes the move refers to.

use vstd::prelude::*;
use crate::geom::Rect;
use crate::ink::{
    Owner, Stroke, StrokeV, TextRun, TextRunV, OwnedStroke, OwnedV, Page, PageV, strokes_view,
    texts_view, owned_view, stroke_box, owned_box, join_box, body_box, remove_id_spec,
    remove_refs_spec, insert_spec, translate_spec, take_patch_spec, readd_spec, pts_ok,
    strokes_ok, page_pts_ok, page_shift_ok, ids_bounded, owned_ids_bounded, body_bbox,
    stroke_bbox, has_stroke, lemma_lift_then_restore,
};
use crate::geom::max_spec;
use crate::ink::{strokes_in_range, COORD_LIM};

verus! {

/// Most ops kept per page.
pub const UNDO_CAP: usize = 100;

/// Most samples the kept ops may own together (an op's cost is the
/// samples it holds; references are free).
pub const UNDO_PT_CAP: usize = 200_000;

/// Most pages whose histories are kept.
pub const PAGES_LRU: usize = 8;

/// The content of a patch, as undo stashes and restores it.
pub type PatchBody = (Vec<Stroke>, Vec<TextRun>);

/// One undoable edit.
#[derive(Debug)]
pub enum EditOp {
    /// A finished user stroke; `stroke` is held only while undone.
    AddStroke { id: u64, stroke: Option<Stroke> },
    /// A rubber batch or lasso delete; `strokes` is held while applied,
    /// `refs` always names the victims.
    EraseStrokes { refs: Vec<(Owner, u64)>, strokes: Option<Vec<OwnedStroke>> },
    /// A pixel-rubber contact: victims split into surviving fragments.
    /// `removed` (the originals) is held while applied, `added` (the
    /// fragments) only while undone; the refs always name both.
    SplitStrokes {
        removed_refs: Vec<(Owner, u64)>,
        removed: Option<Vec<OwnedStroke>>,
        added_refs: Vec<(Owner, u64)>,
        added: Option<Vec<OwnedStroke>>,
    },
    /// A lasso move, in tenths of a pixel.
    MoveStrokes { refs: Vec<(Owner, u64)>, dx: i32, dy: i32 },
    /// The assistant drew a patch; `body` is held only while undone.
    AddPatch { id: u64, body: Option<PatchBody> },
    /// A patch was erased; `body` is held while applied.
    ErasePatch { id: u64, body: Option<PatchBody> },
}

/// What an op is, mathematically.
pub enum OpV {
    AddStroke { id: u64, stroke: Option<StrokeV> },
    EraseStrokes { refs: Seq<(Owner, u64)>, strokes: Option<Seq<OwnedV>> },
    SplitStrokes {
        removed_refs: Seq<(Owner, u64)>,
        removed: Option<Seq<OwnedV>>,
        added_refs: Seq<(Owner, u64)>,
        added: Option<Seq<OwnedV>>,
    },
    MoveStrokes { refs: Seq<(Owner, u64)>, dx: i32, dy: i32 },
    AddPatch { id: u64, body: Option<(Seq<StrokeV>, Seq<TextRunV>)> },
    ErasePatch { id: u64, body: Option<(Seq<StrokeV>, Seq<TextRunV>)> },
}

pub open spec fn opt_owned(o: Option<Vec<OwnedStroke>>) -> Option<Seq<OwnedV>> {
    match o {
        Some(v) => Some(owned_view(v@)),
        None => None,
    }
}

pub open spec fn opt_body(o: Option<PatchBody>) -> Option<(Seq<StrokeV>, Seq<TextRunV>)> {
    match o {
        Some(b) => Some((strokes_view(b.0@), texts_view(b.1@))),
        None => None,
    }
}

impl View for EditOp {
    type V = OpV;

    open spec fn view(&self) -> OpV {
        match self {
            EditOp::AddStroke { id, stroke } => OpV::AddStroke {
                id: *id,
                stroke: match stroke {
                    Some(s) => Some(s@),
                    None => None,
                },
            },
            EditOp::EraseStrokes { refs, strokes } => OpV::EraseStrokes { refs: refs@, strokes: opt_owned(*strokes) },
            EditOp::SplitStrokes { removed_refs, removed, added_refs, added } => OpV::SplitStrokes {
                removed_refs: removed_refs@,
                removed: opt_owned(*removed),
                added_refs: added_refs@,
                added: opt_owned(*added),
            },
            EditOp::MoveStrokes { refs, dx, dy } => OpV::MoveStrokes { refs: refs@, dx: *dx, dy: *dy },
            EditOp::AddPatch { id, body } => OpV::AddPatch { id: *id, body: opt_body(*body) },
            EditOp::ErasePatch { id, body } => OpV::ErasePatch { id: *id, body: opt_body(*body) },
        }
    }
}

pub open spec fn ops_view(v: Seq<EditOp>) -> Seq<OpV> {
    Seq::new(v.len(), |i: int| v[i]@)
}

/// The references to lifted strokes.
pub open spec fn refs_of(os: Seq<OwnedV>) -> Seq<(Owner, u64)> {
    Seq::new(os.len(), |i: int| (os[i].owner, os[i].stroke.id))
}

/// Samples held by lifted strokes.
pub open spec fn owned_pts(os: Seq<OwnedV>) -> int
    decreases os.len(),
{
    if os.len() == 0 {
        0
    } else {
        owned_pts(os.drop_last()) + os.last().stroke.pts.len()
    }
}

/// Samples held by strokes.
pub open spec fn strokes_pts(ss: Seq<StrokeV>) -> int
    decreases ss.len(),
{
    if ss.len() == 0 {
        0
    } else {
        strokes_pts(ss.drop_last()) + ss.last().pts.len()
    }
}

pub open spec fn opt_owned_pts(o: Option<Seq<OwnedV>>) -> int {
    match o {
        Some(v) => owned_pts(v),
        None => 0,
    }
}

/// The samples an op owns.
pub open spec fn op_pts(op: OpV) -> int {
    match op {
        OpV::AddStroke { stroke, .. } => match stroke {
            Some(s) => s.pts.len() as int,
            None => 0,
        },
        OpV::EraseStrokes { strokes, .. } => opt_owned_pts(strokes),
        OpV::SplitStrokes { removed, added, .. } => opt_owned_pts(removed) + opt_owned_pts(added),
        OpV::MoveStrokes { .. } => 0,
        OpV::AddPatch { body, .. } => match body {
            Some(b) => strokes_pts(b.0),
            None => 0,
        },
        OpV::ErasePatch { body, .. } => match body {
            Some(b) => strokes_pts(b.0),
            None => 0,
        },
    }
}

/// The samples a run of ops owns together.
pub open spec fn ops_pts(ops: Seq<OpV>) -> int
    decreases ops.len(),
{
    if ops.len() == 0 {
        0
    } else {
        ops_pts(ops.drop_last()) + op_pts(ops.last())
    }
}

/// The erase op for strokes just lifted out of the page.
pub fn erased(lifted: Vec<OwnedStroke>) -> (op: EditOp)
    ensures
        op@ == (OpV::EraseStrokes { refs: refs_of(owned_view(lifted@)), strokes: Some(owned_view(lifted@)) }),
{
    let ghost ov = owned_view(lifted@);
    let mut refs: Vec<(Owner, u64)> = Vec::new();
    let mut i: usize = 0;
    while i < lifted.len()
        invariant
            i <= lifted@.len(),
            ov == owned_view(lifted@),
            refs@ =~= refs_of(ov).take(i as int),
        decreases lifted.len() - i,
    {
        refs.push((lifted[i].owner, lifted[i].stroke.id));
        i += 1;
    }
    assert(refs_of(ov).take(lifted@.len() as int) =~= refs_of(ov));
    EditOp::EraseStrokes { refs, strokes: Some(lifted) }
}

fn owned_vec_pts(v: &Vec<OwnedStroke>) -> (n: usize)
    ensures
        n == if owned_pts(owned_view(v@)) > usize::MAX { usize::MAX as int } else { owned_pts(owned_view(v@)) },
{
    let ghost ov = owned_view(v@);
    let mut n: usize = 0;
    let mut i: usize = 0;
    while i < v.len()
        invariant
            i <= v@.len(),
            ov == owned_view(v@),
            n == if owned_pts(ov.take(i as int)) > usize::MAX { usize::MAX as int } else { owned_pts(ov.take(i as int)) },
            owned_pts(ov.take(i as int)) >= 0,
        decreases v.len() - i,
    {
        assert(ov.take(i + 1).drop_last() =~= ov.take(i as int));
        n = n.saturating_add(v[i].stroke.pts.len());
        i += 1;
    }
    assert(ov.take(v@.len() as int) =~= ov);
    n
}

fn stroke_vec_pts(v: &Vec<Stroke>) -> (n: usize)
    ensures
        n == if strokes_pts(strokes_view(v@)) > usize::MAX { usize::MAX as int } else { strokes_pts(strokes_view(v@)) },
{
    let ghost sv = strokes_view(v@);
    let mut n: usize = 0;
    let mut i: usize = 0;
    while i < v.len()
        invariant
            i <= v@.len(),
            sv == strokes_view(v@),
            n == if strokes_pts(sv.take(i as int)) > usize::MAX { usize::MAX as int } else { strokes_pts(sv.take(i as int)) },
            strokes_pts(sv.take(i as int)) >= 0,
        decreases v.len() - i,
    {
        assert(sv.take(i + 1).drop_last() =~= sv.take(i as int));
        n = n.saturating_add(v[i].pts.len());
        i += 1;
    }
    assert(sv.take(v@.len() as int) =~= sv);
    n
}

/// The samples an op owns, saturating at `usize::MAX`.
fn op_owned_pts(op: &EditOp) -> (n: usize)
    ensures
        n == if op_pts(op@) > usize::MAX { usize::MAX as int } else { op_pts(op@) },
{
    proof {
        lemma_op_pts_nonneg(op@);
    }
    match op {
        EditOp::AddStroke { stroke, .. } => match stroke {
            Some(s) => s.pts.len(),
            None => 0,
        },
        EditOp::EraseStrokes { strokes, .. } => match strokes {
            Some(v) => owned_vec_pts(v),
            None => 0,
        },
        EditOp::SplitStrokes { removed, added, .. } => {
            let a = match removed {
                Some(v) => owned_vec_pts(v),
                None => 0,
            };
            let b = match added {
                Some(v) => owned_vec_pts(v),
                None => 0,
            };
            a.saturating_add(b)
        },
        EditOp::MoveStrokes { .. } => 0,
        EditOp::AddPatch { body, .. } => match body {
            Some(b) => stroke_vec_pts(&b.0),
            None => 0,
        },
        EditOp::ErasePatch { body, .. } => match body {
            Some(b) => stroke_vec_pts(&b.0),
            None => 0,
        },
    }
}

proof fn lemma_owned_pts_nonneg(os: Seq<OwnedV>)
    ensures
        owned_pts(os) >= 0,
    decreases os.len(),
{
    if os.len() > 0 {
        lemma_owned_pts_nonneg(os.drop_last());
    }
}

proof fn lemma_strokes_pts_nonneg(ss: Seq<StrokeV>)
    ensures
        strokes_pts(ss) >= 0,
    decreases ss.len(),
{
    if ss.len() > 0 {
        lemma_strokes_pts_nonneg(ss.drop_last());
    }
}

proof fn lemma_op_pts_nonneg(op: OpV)
    ensures
        op_pts(op) >= 0,
{
    match op {
        OpV::EraseStrokes { strokes, .. } => {
            if let Some(v) = strokes {
                lemma_owned_pts_nonneg(v);
            }
        },
        OpV::SplitStrokes { removed, added, .. } => {
            if let Some(v) = removed {
                lemma_owned_pts_nonneg(v);
            }
            if let Some(v) = added {
                lemma_owned_pts_nonneg(v);
            }
        },
        OpV::AddPatch { body, .. } => {
            if let Some(b) = body {
                lemma_strokes_pts_nonneg(b.0);
            }
        },
        OpV::ErasePatch { body, .. } => {
            if let Some(b) = body {
                lemma_strokes_pts_nonneg(b.0);
            }
        },
        _ => {},
    }
}

proof fn lemma_ops_pts_nonneg(ops: Seq<OpV>)
    ensures
        ops_pts(ops) >= 0,
    decreases ops.len(),
{
    if ops.len() > 0 {
        lemma_ops_pts_nonneg(ops.drop_last());
        lemma_op_pts_nonneg(ops.last());
    }
}

/// `ops` with the oldest dropped until at most `UNDO_CAP` remain and,
/// unless only one is left, they own at most `UNDO_PT_CAP` samples.
pub open spec fn trimmed(ops: Seq<OpV>) -> Seq<OpV>
    decreases ops.len(),
{
    if ops.len() > UNDO_CAP || (ops_pts(ops) > UNDO_PT_CAP && ops.len() > 1) {
        trimmed(ops.drop_first())
    } else {
        ops
    }
}

/// Lifted strokes whose samples are in range and whose ids can be stepped past.
pub open spec fn owned_ok(os: Seq<OwnedV>) -> bool {
    owned_ids_bounded(os) && forall|k: int| 0 <= k < os.len() ==> pts_ok((#[trigger] os[k]).stroke.pts)
}

/// The payloads an op holds are in range.
pub open spec fn op_ok(op: OpV) -> bool {
    match op {
        OpV::AddStroke { stroke, .. } => stroke matches Some(s) ==> pts_ok(s.pts) && s.id < u64::MAX,
        OpV::EraseStrokes { strokes, .. } => strokes matches Some(v) ==> owned_ok(v),
        OpV::SplitStrokes { removed, added, .. } => (removed matches Some(v) ==> owned_ok(v)) && (added matches Some(v) ==> owned_ok(v)),
        OpV::MoveStrokes { dx, dy, .. } => -crate::ink::COORD_LIM <= dx <= crate::ink::COORD_LIM && -crate::ink::COORD_LIM <= dy <= crate::ink::COORD_LIM,
        OpV::AddPatch { id, body } => id < u64::MAX && (body matches Some(b) ==> strokes_ok(b.0) && ids_bounded(b.0)),
        OpV::ErasePatch { id, body } => id < u64::MAX && (body matches Some(b) ==> strokes_ok(b.0) && ids_bounded(b.0)),
    }
}

/// The page can take the op being undone (its samples in range, and a
/// move back keeps them in range).
pub open spec fn undo_ok(pv: PageV, op: OpV) -> bool {
    &&& page_pts_ok(pv)
    &&& op_ok(op)
    &&& (op matches OpV::MoveStrokes { dx, dy, .. } ==> page_shift_ok(pv, -dx, -dy))
}

/// The page can take the op being redone.
pub open spec fn redo_ok(pv: PageV, op: OpV) -> bool {
    &&& page_pts_ok(pv)
    &&& op_ok(op)
    &&& (op matches OpV::MoveStrokes { dx, dy, .. } ==> page_shift_ok(pv, dx as int, dy as int))
}

/// Undoing an op: the page after, the op as it goes to the redo stack,
/// and the region to repaint. When the inverse cannot be applied (what
/// it needs is gone) the region is `None`, but the op still moves.
pub open spec fn undo_apply(pv: PageV, op: OpV) -> (PageV, OpV, Option<Rect>) {
    match op {
        OpV::AddStroke { id, stroke } => {
            let (p, r) = remove_id_spec(pv, id);
            match r {
                Some(s) => (p, OpV::AddStroke { id, stroke: Some(s) }, stroke_box(s)),
                None => (p, op, None),
            }
        },
        OpV::EraseStrokes { refs, strokes } => match strokes {
            Some(v) => (insert_spec(pv, v), OpV::EraseStrokes { refs, strokes: None }, owned_box(v)),
            None => (pv, op, None),
        },
        OpV::SplitStrokes { removed_refs, removed, added_refs, added } => {
            let (p1, lifted) = remove_refs_spec(pv, added_refs);
            match removed {
                Some(v) => (
                    insert_spec(p1, v),
                    OpV::SplitStrokes { removed_refs, removed: None, added_refs, added: Some(lifted) },
                    join_box(owned_box(lifted), owned_box(v)),
                ),
                None => (p1, OpV::SplitStrokes { removed_refs, removed, added_refs, added: Some(lifted) }, None),
            }
        },
        OpV::MoveStrokes { refs, dx, dy } => {
            let (p, b) = translate_spec(pv, refs, -dx, -dy);
            (p, op, b)
        },
        OpV::AddPatch { id, body } => {
            let (p, t) = take_patch_spec(pv, id);
            match t {
                Some(pt) => (p, OpV::AddPatch { id, body: Some((pt.strokes, pt.texts)) }, body_box(pt.strokes, pt.texts)),
                None => (p, op, None),
            }
        },
        OpV::ErasePatch { id, body } => match body {
            Some(b) => (readd_spec(pv, id, b.0, b.1), OpV::ErasePatch { id, body: None }, body_box(b.0, b.1)),
            None => (pv, op, None),
        },
    }
}

/// Redoing an op: the page after, the op as it goes back to the undo
/// stack, and the region to repaint.
pub open spec fn redo_apply(pv: PageV, op: OpV) -> (PageV, OpV, Option<Rect>) {
    match op {
        OpV::AddStroke { id, stroke } => match stroke {
            Some(s) => (
                PageV {
                    strokes: pv.strokes.push(s),
                    next_stroke: max_spec(pv.next_stroke as int, s.id + 1) as u64,
                    dirty: true,
                    ..pv
                },
                OpV::AddStroke { id: s.id, stroke: None },
                stroke_box(s),
            ),
            None => (pv, op, None),
        },
        OpV::EraseStrokes { refs, strokes } => {
            let (p, l) = remove_refs_spec(pv, refs);
            (p, OpV::EraseStrokes { refs, strokes: Some(l) }, owned_box(l))
        },
        OpV::SplitStrokes { removed_refs, removed, added_refs, added } => {
            let (p1, lifted) = remove_refs_spec(pv, removed_refs);
            match added {
                Some(v) => (
                    insert_spec(p1, v),
                    OpV::SplitStrokes { removed_refs, removed: Some(lifted), added_refs, added: None },
                    join_box(owned_box(lifted), owned_box(v)),
                ),
                None => (p1, OpV::SplitStrokes { removed_refs, removed: Some(lifted), added_refs, added }, None),
            }
        },
        OpV::MoveStrokes { refs, dx, dy } => {
            let (p, b) = translate_spec(pv, refs, dx as int, dy as int);
            (p, op, b)
        },
        OpV::AddPatch { id, body } => match body {
            Some(b) => (readd_spec(pv, id, b.0, b.1), OpV::AddPatch { id, body: None }, body_box(b.0, b.1)),
            None => (pv, op, None),
        },
        OpV::ErasePatch { id, body } => {
            let (p, t) = take_patch_spec(pv, id);
            match t {
                Some(pt) => (p, OpV::ErasePatch { id, body: Some((pt.strokes, pt.texts)) }, body_box(pt.strokes, pt.texts)),
                None => (p, op, None),
            }
        },
    }
}

proof fn lemma_owned_ok_vec(v: Seq<OwnedStroke>)
    requires
        owned_ok(owned_view(v)),
    ensures
        forall|k: int| 0 <= k < v.len() ==> pts_ok((#[trigger] v[k]).stroke.pts@),
{
    assert forall|k: int| 0 <= k < v.len() implies pts_ok((#[trigger] v[k]).stroke.pts@) by {
        assert(owned_view(v)[k] == v[k]@);
    }
}

/// Apply the inverse of `op` to the page.
fn undo_op(page: &mut Page, op: EditOp) -> (r: (EditOp, Option<Rect>))
    requires
        undo_ok(old(page)@, op@),
    ensures
        final(page)@ == undo_apply(old(page)@, op@).0,
        r.0@ == undo_apply(old(page)@, op@).1,
        r.1 == undo_apply(old(page)@, op@).2,
{
    match op {
        EditOp::AddStroke { id, stroke } => match page.remove_stroke_by_id(id) {
            Some((s, b)) => (EditOp::AddStroke { id, stroke: Some(s) }, Some(b)),
            None => (EditOp::AddStroke { id, stroke }, None),
        },
        EditOp::EraseStrokes { refs, strokes } => match strokes {
            Some(v) => {
                proof {
                    lemma_owned_ok_vec(v@);
                }
                let b = page.insert_owned(v);
                (EditOp::EraseStrokes { refs, strokes: None }, b)
            },
            None => (EditOp::EraseStrokes { refs, strokes: None }, None),
        },
        EditOp::SplitStrokes { removed_refs, removed, added_refs, added } => {
            let (lifted, b1) = page.remove_strokes_by_ids(&added_refs);
            match removed {
                Some(v) => {
                    proof {
                        lemma_owned_ok_vec(v@);
                    }
                    let b2 = page.insert_owned(v);
                    let b = match (b1, b2) {
                        (Some(a), Some(c)) => Some(a.union(c)),
                        (Some(a), None) => Some(a),
                        (None, c) => c,
                    };
                    (EditOp::SplitStrokes { removed_refs, removed: None, added_refs, added: Some(lifted) }, b)
                },
                None => (EditOp::SplitStrokes { removed_refs, removed: None, added_refs, added: Some(lifted) }, None),
            }
        },
        EditOp::MoveStrokes { refs, dx, dy } => {
            let b = page.translate_strokes(&refs, -dx, -dy);
            (EditOp::MoveStrokes { refs, dx, dy }, b)
        },
        EditOp::AddPatch { id, body } => match page.take_patch(id) {
            Some((content, b)) => (EditOp::AddPatch { id, body: Some(content) }, Some(b)),
            None => (EditOp::AddPatch { id, body }, None),
        },
        EditOp::ErasePatch { id, body } => match body {
            Some(content) => {
                let b = body_bbox(&content.0, &content.1);
                page.add_patch_with_id(id, content);
                (EditOp::ErasePatch { id, body: None }, b)
            },
            None => (EditOp::ErasePatch { id, body: None }, None),
        },
    }
}

/// Re-apply `op` to the page.
fn redo_op(page: &mut Page, op: EditOp) -> (r: (EditOp, Option<Rect>))
    requires
        redo_ok(old(page)@, op@),
    ensures
        final(page)@ == redo_apply(old(page)@, op@).0,
        r.0@ == redo_apply(old(page)@, op@).1,
        r.1 == redo_apply(old(page)@, op@).2,
{
    match op {
        EditOp::AddStroke { id, stroke } => match stroke {
            Some(s) => {
                let b = stroke_bbox(&s);
                let sid = s.id;
                if page.next_stroke < sid + 1 {
                    page.next_stroke = sid + 1;
                }
                let ghost s0 = page.strokes@;
                page.strokes.push(s);
                assert(strokes_view(page.strokes@) =~= strokes_view(s0).push(s@));
                page.dirty = true;
                (EditOp::AddStroke { id: sid, stroke: None }, b)
            },
            None => (EditOp::AddStroke { id, stroke: None }, None),
        },
        EditOp::EraseStrokes { refs, strokes } => {
            let (lifted, b) = page.remove_strokes_by_ids(&refs);
            (EditOp::EraseStrokes { refs, strokes: Some(lifted) }, b)
        },
        EditOp::SplitStrokes { removed_refs, removed, added_refs, added } => {
            let (lifted, b1) = page.remove_strokes_by_ids(&removed_refs);
            match added {
                Some(v) => {
                    proof {
                        lemma_owned_ok_vec(v@);
                    }
                    let b2 = page.insert_owned(v);
                    let b = match (b1, b2) {
                        (Some(a), Some(c)) => Some(a.union(c)),
                        (Some(a), None) => Some(a),
                        (None, c) => c,
                    };
                    (EditOp::SplitStrokes { removed_refs, removed: Some(lifted), added_refs, added: None }, b)
                },
                None => (EditOp::SplitStrokes { removed_refs, removed: Some(lifted), added_refs, added: None }, None),
            }
        },
        EditOp::MoveStrokes { refs, dx, dy } => {
            let b = page.translate_strokes(&refs, dx, dy);
            (EditOp::MoveStrokes { refs, dx, dy }, b)
        },
        EditOp::AddPatch { id, body } => match body {
            Some(content) => {
                let b = body_bbox(&content.0, &content.1);
                page.add_patch_with_id(id, content);
                (EditOp::AddPatch { id, body: None }, b)
            },
            None => (EditOp::AddPatch { id, body: None }, None),
        },
        EditOp::ErasePatch { id, body } => match page.take_patch(id) {
            Some((content, b)) => (EditOp::ErasePatch { id, body: Some(content) }, Some(b)),
            None => (EditOp::ErasePatch { id, body }, None),
        },
    }
}

/// The undo and redo stacks of one page.
#[derive(Debug)]
pub struct UndoStack {
    undo: Vec<EditOp>,
    redo: Vec<EditOp>,
}

impl Default for UndoStack {
    fn default() -> (s: UndoStack)
        ensures
            s.undos().len() == 0,
            s.redos().len() == 0,
    {
        UndoStack { undo: Vec::new(), redo: Vec::new() }
    }
}

/// `min(ops_pts(ops), usize::MAX)`.
fn stack_pts(ops: &Vec<EditOp>) -> (n: usize)
    ensures
        n == if ops_pts(ops_view(ops@)) > usize::MAX { usize::MAX as int } else { ops_pts(ops_view(ops@)) },
{
    let ghost ov = ops_view(ops@);
    let mut n: usize = 0;
    let mut i: usize = 0;
    while i < ops.len()
        invariant
            i <= ops@.len(),
            ov == ops_view(ops@),
            n == if ops_pts(ov.take(i as int)) > usize::MAX { usize::MAX as int } else { ops_pts(ov.take(i as int)) },
        decreases ops.len() - i,
    {
        proof {
            lemma_ops_pts_nonneg(ov.take(i as int));
        }
        assert(ov.take(i + 1).drop_last() =~= ov.take(i as int));
        n = n.saturating_add(op_owned_pts(&ops[i]));
        i += 1;
    }
    assert(ov.take(ops@.len() as int) =~= ov);
    n
}

impl UndoStack {
    /// The ops that can be undone, oldest first.
    pub closed spec fn undos(&self) -> Seq<OpV> {
        ops_view(self.undo@)
    }

    /// The ops that can be redone, oldest first.
    pub closed spec fn redos(&self) -> Seq<OpV> {
        ops_view(self.redo@)
    }

    pub fn can_undo(&self) -> (b: bool)
        ensures
            b == (self.undos().len() > 0),
    {
        self.undo.len() > 0
    }

    pub fn can_redo(&self) -> (b: bool)
        ensures
            b == (self.redos().len() > 0),
    {
        self.redo.len() > 0
    }

    /// Record an op that has already been applied, without discarding
    /// the redo stack (the assistant's draws must not destroy the user's
    /// ability to redo their own just-undone edit). The oldest ops are
    /// dropped to keep within the caps.
    pub fn push_keep_redo(&mut self, op: EditOp)
        ensures
            final(self).undos() == trimmed(old(self).undos().push(op@)),
            final(self).redos() == old(self).redos(),
    {
        let ghost u0 = self.undos();
        self.undo.push(op);
        assert(ops_view(self.undo@) =~= u0.push(op@));
        loop
            invariant
                trimmed(ops_view(self.undo@)) == trimmed(u0.push(op@)),
                self.redo == old(self).redo,
            ensures
                trimmed(ops_view(self.undo@)) == trimmed(u0.push(op@)),
                self.redo == old(self).redo,
                !(ops_view(self.undo@).len() > UNDO_CAP || (ops_pts(ops_view(self.undo@)) > UNDO_PT_CAP
                    && ops_view(self.undo@).len() > 1)),
            decreases self.undo@.len(),
        {
            let n = self.undo.len();
            let over = n > UNDO_CAP || (n > 1 && stack_pts(&self.undo) > UNDO_PT_CAP);
            if !over {
                break;
            }
            let ghost before = ops_view(self.undo@);
            self.undo.remove(0);
            assert(ops_view(self.undo@) =~= before.drop_first());
        }
    }

    /// Record a fresh user edit (already applied to the page); a user edit
    /// clears the redo stack.
    pub fn push(&mut self, op: EditOp)
        ensures
            final(self).undos() == trimmed(old(self).undos().push(op@)),
            final(self).redos().len() == 0,
    {
        self.redo.clear();
        self.push_keep_redo(op);
    }
}

impl UndoStack {
    /// Un-apply the newest op; returns the region to repaint. The op
    /// always moves to the redo stack, even when its inverse changed
    /// nothing visible.
    pub fn undo(&mut self, page: &mut Page) -> (r: Option<Rect>)
        requires
            old(self).undos().len() > 0 ==> undo_ok(old(page)@, old(self).undos().last()),
        ensures
            old(self).undos().len() == 0 ==> r is None && final(page)@ == old(page)@ && final(self).undos() == old(self).undos()
                && final(self).redos() == old(self).redos(),
            old(self).undos().len() > 0 ==> {
                let (pv, op, b) = undo_apply(old(page)@, old(self).undos().last());
                &&& final(page)@ == pv
                &&& final(self).undos() == old(self).undos().drop_last()
                &&& final(self).redos() == old(self).redos().push(op)
                &&& r == b
            },
    {
        let ghost u0 = ops_view(self.undo@);
        let ghost r0 = ops_view(self.redo@);
        match self.undo.pop() {
            None => None,
            Some(op) => {
                assert(ops_view(self.undo@) =~= u0.drop_last());
                assert(op@ == u0.last());
                let (op2, dirty) = undo_op(page, op);
                self.redo.push(op2);
                assert(ops_view(self.redo@) =~= r0.push(op2@));
                dirty
            },
        }
    }

    /// Re-apply the newest undone op; returns the region to repaint. The
    /// op always moves back to the undo stack.
    pub fn redo(&mut self, page: &mut Page) -> (r: Option<Rect>)
        requires
            old(self).redos().len() > 0 ==> redo_ok(old(page)@, old(self).redos().last()),
        ensures
            old(self).redos().len() == 0 ==> r is None && final(page)@ == old(page)@ && final(self).undos() == old(self).undos()
                && final(self).redos() == old(self).redos(),
            old(self).redos().len() > 0 ==> {
                let (pv, op, b) = redo_apply(old(page)@, old(self).redos().last());
                &&& final(page)@ == pv
                &&& final(self).redos() == old(self).redos().drop_last()
                &&& final(self).undos() == old(self).undos().push(op)
                &&& r == b
            },
    {
        let ghost u0 = ops_view(self.undo@);
        let ghost r0 = ops_view(self.redo@);
        match self.redo.pop() {
            None => None,
            Some(op) => {
                assert(ops_view(self.redo@) =~= r0.drop_last());
                assert(op@ == r0.last());
                let (op2, dirty) = redo_op(page, op);
                self.undo.push(op2);
                assert(ops_view(self.undo@) =~= u0.push(op2@));
                dirty
            },
        }
    }
}

fn pts_in_range(pts: &Vec<crate::ink::Pt>) -> (b: bool)
    ensures
        b == pts_ok(pts@),
{
    let mut i: usize = 0;
    while i < pts.len()
        invariant
            i <= pts@.len(),
            forall|k: int| 0 <= k < i ==> {
                let p = #[trigger] pts@[k];
                -COORD_LIM <= p.x <= COORD_LIM && -COORD_LIM <= p.y <= COORD_LIM && -COORD_LIM <= p.r <= COORD_LIM
            },
        decreases pts.len() - i,
    {
        let p = pts[i];
        if !(-COORD_LIM <= p.x && p.x <= COORD_LIM && -COORD_LIM <= p.y && p.y <= COORD_LIM && -COORD_LIM <= p.r
            && p.r <= COORD_LIM) {
            return false;
        }
        i += 1;
    }
    true
}

fn owned_in_range(v: &Vec<OwnedStroke>) -> (b: bool)
    ensures
        b == owned_ok(owned_view(v@)),
{
    let ghost ov = owned_view(v@);
    let mut i: usize = 0;
    while i < v.len()
        invariant
            i <= v@.len(),
            ov == owned_view(v@),
            forall|k: int| 0 <= k < i ==> {
                &&& (#[trigger] ov[k]).stroke.id < u64::MAX
                &&& (ov[k].owner matches Owner::Patch(pid) ==> pid < u64::MAX)
                &&& pts_ok(ov[k].stroke.pts)
            },
        decreases v.len() - i,
    {
        let o = &v[i];
        assert(ov[i as int] == o@);
        if o.stroke.id == u64::MAX {
            return false;
        }
        if let Owner::Patch(pid) = o.owner {
            if pid == u64::MAX {
                return false;
            }
        }
        if !pts_in_range(&o.stroke.pts) {
            return false;
        }
        i += 1;
    }
    true
}

fn ids_below_max(v: &Vec<Stroke>) -> (b: bool)
    ensures
        b == ids_bounded(strokes_view(v@)),
{
    let ghost sv = strokes_view(v@);
    let mut i: usize = 0;
    while i < v.len()
        invariant
            i <= v@.len(),
            sv == strokes_view(v@),
            forall|k: int| 0 <= k < i ==> (#[trigger] sv[k]).id < u64::MAX,
        decreases v.len() - i,
    {
        assert(sv[i as int].id == v[i as int].id);
        if v[i].id == u64::MAX {
            return false;
        }
        i += 1;
    }
    true
}

fn body_in_range(b: &Option<PatchBody>) -> (r: bool)
    ensures
        r == (opt_body(*b) matches Some(c) ==> strokes_ok(c.0) && ids_bounded(c.0)),
{
    match b {
        Some(c) => strokes_in_range(&c.0) && ids_below_max(&c.0),
        None => true,
    }
}

/// Are the payloads of the op in range?
fn op_in_range(op: &EditOp) -> (b: bool)
    ensures
        b == op_ok(op@),
{
    match op {
        EditOp::AddStroke { stroke, .. } => match stroke {
            Some(s) => s.id < u64::MAX && pts_in_range(&s.pts),
            None => true,
        },
        EditOp::EraseStrokes { strokes, .. } => match strokes {
            Some(v) => owned_in_range(v),
            None => true,
        },
        EditOp::SplitStrokes { removed, added, .. } => {
            let a = match removed {
                Some(v) => owned_in_range(v),
                None => true,
            };
            let c = match added {
                Some(v) => owned_in_range(v),
                None => true,
            };
            a && c
        },
        EditOp::MoveStrokes { dx, dy, .. } => -COORD_LIM <= *dx && *dx <= COORD_LIM && -COORD_LIM <= *dy && *dy
            <= COORD_LIM,
        EditOp::AddPatch { id, body } => *id < u64::MAX && body_in_range(body),
        EditOp::ErasePatch { id, body } => *id < u64::MAX && body_in_range(body),
    }
}

impl UndoStack {
    /// Is there an op to undo, and can the page take it? (Coordinates and
    /// ids in range; a move back keeps the page in range.)
    pub fn undo_ready(&self, page: &Page) -> (b: bool)
        ensures
            b == (self.undos().len() > 0 && undo_ok(page@, self.undos().last())),
    {
        let n = self.undo.len();
        if n == 0 {
            return false;
        }
        let op = &self.undo[n - 1];
        assert(self.undos().last() == op@);
        if !page.in_range() || !op_in_range(op) {
            return false;
        }
        match op {
            EditOp::MoveStrokes { dx, dy, .. } => page.shift_in_range(-*dx, -*dy),
            _ => true,
        }
    }

    /// Is there an op to redo, and can the page take it?
    pub fn redo_ready(&self, page: &Page) -> (b: bool)
        ensures
            b == (self.redos().len() > 0 && redo_ok(page@, self.redos().last())),
    {
        let n = self.redo.len();
        if n == 0 {
            return false;
        }
        let op = &self.redo[n - 1];
        assert(self.redos().last() == op@);
        if !page.in_range() || !op_in_range(op) {
            return false;
        }
        match op {
            EditOp::MoveStrokes { dx, dy, .. } => page.shift_in_range(*dx, *dy),
            _ => true,
        }
    }
}

/// The trimmed stack keeps the newest ops, at most `UNDO_CAP` of them,
/// and the newest op always survives.
pub proof fn lemma_trimmed_bounds(ops: Seq<OpV>)
    requires
        ops.len() > 0,
    ensures
        0 < trimmed(ops).len() <= UNDO_CAP,
        trimmed(ops).last() == ops.last(),
        ops.len() >= trimmed(ops).len(),
        trimmed(ops) == ops.skip(ops.len() - trimmed(ops).len()),
    decreases ops.len(),
{
    if ops.len() > UNDO_CAP || (ops_pts(ops) > UNDO_PT_CAP && ops.len() > 1) {
        lemma_trimmed_bounds(ops.drop_first());
        let t = trimmed(ops.drop_first());
        assert(ops.drop_first().skip(ops.drop_first().len() - t.len()) =~= ops.skip(ops.len() - t.len()));
    } else {
        assert(ops.skip(0) =~= ops);
    }
}

/// Undoing a landed stroke and redoing it puts the stroke back in the
/// user layer, and the op returns to the undo stack as it was.
pub proof fn lemma_undo_redo_stroke(pv: PageV, id: u64, t: StrokeV)
    requires
        remove_id_spec(pv, id).1 is Some,
    ensures
        ({
            let (p1, o1, _) = undo_apply(pv, OpV::AddStroke { id, stroke: None });
            let (p2, o2, _) = redo_apply(p1, o1);
            &&& o2 == (OpV::AddStroke { id, stroke: None })
            &&& (p2.strokes.contains(t) <==> pv.strokes.contains(t))
            &&& p2.patches == pv.patches
        }),
{
    let i = crate::ink::first_id(pv.strokes, id);
    let s = pv.strokes[i];
    let (p1, o1, _) = undo_apply(pv, OpV::AddStroke { id, stroke: None });
    assert(p1.strokes == pv.strokes.remove(i));
    assert(o1 == (OpV::AddStroke { id, stroke: Some(s) }));
    let (p2, o2, _) = redo_apply(p1, o1);
    assert(p2.strokes == pv.strokes.remove(i).push(s));
    if pv.strokes.contains(t) {
        let j = choose|j: int| 0 <= j < pv.strokes.len() && pv.strokes[j] == t;
        if j < i {
            assert(p2.strokes[j] == t);
        } else if j > i {
            assert(p2.strokes[j - 1] == t);
        } else {
            assert(p2.strokes[pv.strokes.len() - 1] == t);
        }
    }
    if p2.strokes.contains(t) {
        let j = choose|j: int| 0 <= j < p2.strokes.len() && p2.strokes[j] == t;
        if j < i {
            assert(pv.strokes[j] == t);
        } else if j < pv.strokes.len() - 1 {
            assert(pv.strokes[j + 1] == t);
        } else {
            assert(pv.strokes[i] == t);
        }
    }
}

proof fn lemma_shift_back(ss: Seq<StrokeV>, refs: Seq<(Owner, u64)>, owner: Owner, dx: int, dy: int)
    requires
        crate::ink::shift_ok(ss, -dx, -dy),
        -crate::ink::COORD_LIM <= dx <= crate::ink::COORD_LIM,
        -crate::ink::COORD_LIM <= dy <= crate::ink::COORD_LIM,
        strokes_ok(ss),
    ensures
        crate::ink::shift_seq(crate::ink::shift_seq(ss, refs, owner, -dx, -dy), refs, owner, dx, dy) == ss,
{
    let once = crate::ink::shift_seq(ss, refs, owner, -dx, -dy);
    let twice = crate::ink::shift_seq(once, refs, owner, dx, dy);
    assert forall|k: int| 0 <= k < ss.len() implies twice[k] == ss[k] by {
        if crate::ink::wanted_spec(refs, owner, ss[k].id) {
            let a = ss[k].pts;
            let b = once[k].pts;
            let c = twice[k].pts;
            assert forall|j: int| 0 <= j < a.len() implies c[j] == a[j] by {
                assert(pts_ok(a));
                assert(-crate::ink::COORD_LIM <= a[j].x + (-dx) <= crate::ink::COORD_LIM);
                assert(-crate::ink::COORD_LIM <= a[j].y + (-dy) <= crate::ink::COORD_LIM);
                assert(b[j].x == a[j].x - dx);
                assert(b[j].y == a[j].y - dy);
            }
            assert(c =~= a);
        }
    }
    assert(twice =~= ss);
}

/// Undoing a lasso move and redoing it puts every stroke exactly where
/// it was (coordinates are whole tenths of a pixel, so moving back and
/// forth is exact).
pub proof fn lemma_undo_redo_move(pv: PageV, refs: Seq<(Owner, u64)>, dx: i32, dy: i32)
    requires
        page_pts_ok(pv),
        page_shift_ok(pv, -dx, -dy),
        -crate::ink::COORD_LIM <= dx <= crate::ink::COORD_LIM,
        -crate::ink::COORD_LIM <= dy <= crate::ink::COORD_LIM,
    ensures
        ({
            let op = OpV::MoveStrokes { refs, dx, dy };
            let (p1, o1, _) = undo_apply(pv, op);
            let (p2, o2, _) = redo_apply(p1, o1);
            &&& o2 == op
            &&& p2.strokes == pv.strokes
            &&& p2.patches == pv.patches
        }),
{
    let op = OpV::MoveStrokes { refs, dx, dy };
    let (p1, o1, _) = undo_apply(pv, op);
    let (p2, o2, _) = redo_apply(p1, o1);
    lemma_shift_back(pv.strokes, refs, Owner::User, dx as int, dy as int);
    let ps = pv.patches;
    let once = crate::ink::shift_patches(ps, refs, -dx, -dy);
    let twice = crate::ink::shift_patches(once, refs, dx as int, dy as int);
    assert(p1.patches == once);
    assert(p2.patches == twice);
    assert forall|k: int| 0 <= k < ps.len() implies twice[k] == ps[k] by {
        assert(strokes_ok(ps[k].strokes));
        assert(crate::ink::shift_ok(ps[k].strokes, -dx, -dy));
        lemma_shift_back(ps[k].strokes, refs, Owner::Patch(ps[k].id), dx as int, dy as int);
    }
    assert(twice =~= ps);
}

/// Redoing an erase and undoing it again leaves every stroke in the layer
/// it was in before.
pub proof fn lemma_redo_undo_erase(pv: PageV, refs: Seq<(Owner, u64)>, o: Owner, t: StrokeV)
    ensures
        ({
            let (p1, o1, _) = redo_apply(pv, OpV::EraseStrokes { refs, strokes: None });
            let (p2, o2, _) = undo_apply(p1, o1);
            &&& o2 == (OpV::EraseStrokes { refs, strokes: None })
            &&& (has_stroke(p2, o, t) <==> has_stroke(pv, o, t))
        }),
{
    lemma_lift_then_restore(pv, refs, o, t);
}

/* ---- histories per page ---------------------------------------------------- */

/// The keys, as text.
pub open spec fn keys_of(ks: Seq<String>) -> Seq<Seq<char>> {
    Seq::new(ks.len(), |i: int| ks[i]@)
}

/// No key occurs twice.
pub open spec fn distinct_keys(ks: Seq<Seq<char>>) -> bool {
    forall|i: int, j: int| 0 <= i < ks.len() && 0 <= j < ks.len() && i != j ==> ks[i] != ks[j]
}

/// `ks` without `k`, in order.
pub open spec fn without(ks: Seq<Seq<char>>, k: Seq<char>) -> Seq<Seq<char>>
    decreases ks.len(),
{
    if ks.len() == 0 {
        ks
    } else {
        let w = without(ks.drop_last(), k);
        if ks.last() == k {
            w
        } else {
            w.push(ks.last())
        }
    }
}

/// The most recent `PAGES_LRU` keys.
pub open spec fn newest(ks: Seq<Seq<char>>) -> Seq<Seq<char>> {
    if ks.len() > PAGES_LRU {
        ks.skip(ks.len() - PAGES_LRU)
    } else {
        ks
    }
}

/// Undo histories keyed by the page's ink-file path, for the most
/// recently used pages: `order` holds the keys, least recent first, and
/// `stacks` the history of each.
#[derive(Debug)]
pub struct PerPage {
    order: Vec<String>,
    stacks: Vec<UndoStack>,
}

impl Default for PerPage {
    fn default() -> (p: PerPage)
        ensures
            p.keys().len() == 0,
            p.wf(),
    {
        PerPage { order: Vec::new(), stacks: Vec::new() }
    }
}

impl PerPage {
    /// The pages with a history, least recently used first.
    pub closed spec fn keys(&self) -> Seq<Seq<char>> {
        keys_of(self.order@)
    }

    /// The history of the `i`-th page of `keys()`.
    pub closed spec fn stack_at(&self, i: int) -> UndoStack {
        self.stacks@[i]
    }

    /// Keys are distinct, each has its history, and at most `PAGES_LRU`
    /// are kept.
    pub closed spec fn wf(&self) -> bool {
        distinct_keys(self.keys()) && self.keys().len() <= PAGES_LRU && self.stacks@.len() == self.order@.len()
    }

    fn find(&self, key: &String) -> (r: Option<usize>)
        ensures
            match r {
                Some(i) => i < self.keys().len() && self.keys()[i as int] == key@,
                None => !self.keys().contains(key@),
            },
    {
        let mut i: usize = 0;
        while i < self.order.len()
            invariant
                i <= self.order@.len(),
                forall|j: int| 0 <= j < i ==> self.keys()[j] != key@,
            decreases self.order.len() - i,
        {
            if self.order[i] == *key {
                return Some(i);
            }
            i += 1;
        }
        None
    }

    /// The history of a page without touching the recency order.
    pub fn peek(&self, key: &str) -> (r: Option<&UndoStack>)
        requires
            self.wf(),
        ensures
            match r {
                Some(s) => exists|i: int| 0 <= i < self.keys().len() && self.keys()[i] == key@ && *s == self.stack_at(i),
                None => !self.keys().contains(key@),
            },
    {
        let k = key.to_string();
        match self.find(&k) {
            Some(i) => {
                assert(self.keys()[i as int] == key@ && self.stacks@[i as int] == self.stack_at(i as int));
                Some(&self.stacks[i])
            },
            None => None,
        }
    }

    /// Forget a page's history (its ids went stale).
    pub fn drop_page(&mut self, key: &str)
        requires
            old(self).wf(),
        ensures
            final(self).wf(),
            final(self).keys() == without(old(self).keys(), key@),
    {
        let ghost k0 = self.keys();
        proof {
            lemma_without_props(k0, key@);
        }
        let k = key.to_string();
        match self.find(&k) {
            Some(i) => {
                self.order.remove(i);
                self.stacks.remove(i);
                proof {
                    assert(keys_of(self.order@) =~= k0.remove(i as int));
                    lemma_without_remove(k0, key@, i as int);
                }
            },
            None => {
                proof {
                    lemma_without_absent(k0, key@);
                }
            },
        }
    }

    /// The history of a page, created empty if the page has none; the page
    /// becomes the most recent, and the least recent beyond `PAGES_LRU`
    /// are forgotten.
    pub fn stack(&mut self, key: &str) -> (r: &mut UndoStack)
        requires
            old(self).wf(),
        ensures
            final(self).wf(),
            final(self).keys() == newest(without(old(self).keys(), key@).push(key@)),
            final(self).keys().last() == key@,
            old(self).keys().contains(key@) ==> exists|i: int|
                0 <= i < old(self).keys().len() && old(self).keys()[i] == key@ && *r == old(self).stack_at(i),
            !old(self).keys().contains(key@) ==> r.undos().len() == 0 && r.redos().len() == 0,
            *final(r) == final(self).stack_at(final(self).keys().len() - 1),
    {
        let ghost k0 = self.keys();
        let ghost s_old = self.stacks@;
        let ghost mut wi: int = -1;
        proof {
            lemma_without_props(k0, key@);
        }
        let k = key.to_string();
        let (name, st) = match self.find(&k) {
            Some(i) => {
                proof {
                    wi = i as int;
                }
                let name = self.order.remove(i);
                let st = self.stacks.remove(i);
                proof {
                    assert(keys_of(self.order@) =~= k0.remove(i as int));
                    lemma_without_remove(k0, key@, i as int);
                }
                (name, st)
            },
            None => {
                proof {
                    lemma_without_absent(k0, key@);
                }
                (k, UndoStack::default())
            },
        };
        let ghost pushed_stack = st;
        self.order.push(name);
        self.stacks.push(st);
        let ghost big = without(k0, key@).push(key@);
        assert(keys_of(self.order@) =~= big);
        assert(distinct_keys(big)) by {
            let w = without(k0, key@);
            assert forall|a: int, b: int| 0 <= a < big.len() && 0 <= b < big.len() && a != b implies big[a] != big[b] by {
                if a == w.len() {
                    assert(w.contains(big[b]));
                } else if b == w.len() {
                    assert(w.contains(big[a]));
                }
            }
        }
        while self.order.len() > PAGES_LRU
            invariant
                self.order@.len() >= 1,
                self.stacks@.len() == self.order@.len(),
                self.order@.len() >= PAGES_LRU || self.order@.len() == big.len(),
                keys_of(self.order@) == big.skip(big.len() - self.order@.len()),
                self.order@.len() <= big.len(),
                self.stacks@.last() == pushed_stack,
            decreases self.order.len(),
        {
            let ghost e0 = self.order@;
            self.order.remove(0);
            self.stacks.remove(0);
            assert(keys_of(self.order@) =~= keys_of(e0).skip(1));
            assert(big.skip(big.len() - e0.len()).skip(1) =~= big.skip(big.len() - self.order@.len()));
        }
        proof {
            if big.len() <= PAGES_LRU {
                assert(big.skip(0) =~= big);
            }
            let ks = keys_of(self.order@);
            assert forall|a: int, b: int| 0 <= a < ks.len() && 0 <= b < ks.len() && a != b implies ks[a] != ks[b] by {
                let off = big.len() - ks.len();
                assert(ks[a] == big[a + off]);
                assert(ks[b] == big[b + off]);
            }
            assert(ks.last() == big[big.len() - 1]);
            if wi >= 0 {
                assert(k0[wi] == key@);
                assert(s_old[wi] == pushed_stack);
            }
        }
        let n = self.stacks.len();
        assert(self.wf());
        assert(wi >= 0 ==> old(self).keys()[wi] == key@ && self.stacks@[n - 1] == old(self).stack_at(wi));
        &mut self.stacks[n - 1]
    }
}

proof fn lemma_newest_distinct(ks: Seq<Seq<char>>)
    requires
        distinct_keys(ks),
    ensures
        distinct_keys(newest(ks)),
        newest(ks).len() <= PAGES_LRU || newest(ks).len() == ks.len(),
{
    let n = newest(ks);
    let off = ks.len() - n.len();
    assert forall|a: int, b: int| 0 <= a < n.len() && 0 <= b < n.len() && a != b implies n[a] != n[b] by {
        assert(n[a] == ks[a + off]);
        assert(n[b] == ks[b + off]);
    }
}

proof fn lemma_without_absent(ks: Seq<Seq<char>>, k: Seq<char>)
    requires
        !ks.contains(k),
    ensures
        without(ks, k) == ks,
    decreases ks.len(),
{
    if ks.len() > 0 {
        let pre = ks.drop_last();
        assert(!pre.contains(k)) by {
            if pre.contains(k) {
                let j = choose|j: int| 0 <= j < pre.len() && pre[j] == k;
                assert(ks[j] == k);
            }
        }
        lemma_without_absent(pre, k);
        assert(ks[ks.len() - 1] != k);
        assert(pre.push(ks.last()) =~= ks);
    }
}

proof fn lemma_without_remove(ks: Seq<Seq<char>>, k: Seq<char>, i: int)
    requires
        distinct_keys(ks),
        0 <= i < ks.len(),
        ks[i] == k,
    ensures
        without(ks, k) == ks.remove(i),
    decreases ks.len(),
{
    let pre = ks.drop_last();
    let n = ks.len() - 1;
    if i == n {
        assert(!pre.contains(k)) by {
            if pre.contains(k) {
                let j = choose|j: int| 0 <= j < pre.len() && pre[j] == k;
                assert(ks[j] == ks[n]);
            }
        }
        lemma_without_absent(pre, k);
        assert(ks.remove(i) =~= pre);
    } else {
        assert(distinct_keys(pre)) by {
            assert forall|a: int, b: int| 0 <= a < pre.len() && 0 <= b < pre.len() && a != b implies pre[a] != pre[b] by {
                assert(ks[a] != ks[b]);
            }
        }
        lemma_without_remove(pre, k, i);
        assert(ks[n] != ks[i]);
        assert(pre.remove(i).push(ks.last()) =~= ks.remove(i));
    }
}

/// Without `k`, no key is `k`, and distinct keys stay distinct.
proof fn lemma_without_props(ks: Seq<Seq<char>>, k: Seq<char>)
    requires
        distinct_keys(ks),
    ensures
        !without(ks, k).contains(k),
        distinct_keys(without(ks, k)),
        without(ks, k).len() <= ks.len(),
        forall|x: Seq<char>| #[trigger] without(ks, k).contains(x) ==> ks.contains(x),
    decreases ks.len(),
{
    if ks.len() > 0 {
        let pre = ks.drop_last();
        assert(distinct_keys(pre)) by {
            assert forall|a: int, b: int| 0 <= a < pre.len() && 0 <= b < pre.len() && a != b implies pre[a] != pre[b] by {
                assert(ks[a] != ks[b]);
            }
        }
        lemma_without_props(pre, k);
        let w = without(pre, k);
        assert forall|x: Seq<char>| #[trigger] without(ks, k).contains(x) implies ks.contains(x) by {
            if w.contains(x) {
                let j = choose|j: int| 0 <= j < pre.len() && pre[j] == x;
                assert(ks[j] == x);
            } else {
                assert(x == ks.last());
                assert(ks[ks.len() - 1] == x);
            }
            if without(ks, k) == w {
            } else {
                let j = choose|j: int| 0 <= j < w.push(ks.last()).len() && w.push(ks.last())[j] == x;
                if j < w.len() {
                    assert(w[j] == x);
                }
            }
        }
        if ks.last() != k {
            let v = w.push(ks.last());
            assert(!pre.contains(ks.last())) by {
                if pre.contains(ks.last()) {
                    let j = choose|j: int| 0 <= j < pre.len() && pre[j] == ks.last();
                    assert(ks[j] == ks[ks.len() - 1]);
                }
            }
            assert(!w.contains(ks.last()));
            assert forall|a: int, b: int| 0 <= a < v.len() && 0 <= b < v.len() && a != b implies v[a] != v[b] by {
                if a == w.len() {
                    assert(w.contains(v[b]) || b == a);
                } else if b == w.len() {
                    assert(w.contains(v[a]));
                }
            }
            assert(!v.contains(k)) by {
                if v.contains(k) {
                    let j = choose|j: int| 0 <= j < v.len() && v[j] == k;
                    if j < w.len() {
                        assert(w[j] == k);
                    }
                }
            }
        }
    }
}

} // verus!
