use remarkable::geom::Rect;
use remarkable::ink::{Owner, Page, Pt, Stroke};
use remarkable::undo::{erased, EditOp, PerPage, UndoStack, PAGES_LRU, UNDO_CAP};

fn stroke(x: i32, y: i32) -> Stroke {
    Stroke { id: 0, pts: vec![Pt { x, y, r: 10 }], gray: 0 }
}

fn user_ids(p: &Page) -> Vec<u64> {
    p.strokes.iter().map(|s| s.id).collect()
}

#[test]
fn undo_and_redo_a_stroke() {
    let mut page = Page::default();
    let mut st = UndoStack::default();
    assert!(!st.can_undo() && !st.can_redo());
    let id = page.push_stroke(stroke(100, 100));
    st.push(EditOp::AddStroke { id, stroke: None });
    assert!(st.can_undo());
    let r = st.undo(&mut page);
    assert_eq!(r, Some(Rect { x0: 9, y0: 9, x1: 11, y1: 11 }));
    assert!(page.strokes.is_empty());
    assert!(!st.can_undo() && st.can_redo());
    let r = st.redo(&mut page);
    assert_eq!(r, Some(Rect { x0: 9, y0: 9, x1: 11, y1: 11 }));
    assert_eq!(user_ids(&page), vec![id]);
    assert!(st.can_undo() && !st.can_redo());
}

#[test]
fn an_op_that_cannot_apply_still_moves_to_redo() {
    let mut page = Page::default();
    let mut st = UndoStack::default();
    st.push(EditOp::AddStroke { id: 99, stroke: None });
    assert_eq!(st.undo(&mut page), None);
    assert!(st.can_redo());
    assert!(!st.can_undo());
}

#[test]
fn undo_on_an_empty_stack_does_nothing() {
    let mut page = Page::default();
    let mut st = UndoStack::default();
    assert_eq!(st.undo(&mut page), None);
    assert_eq!(st.redo(&mut page), None);
}

#[test]
fn erase_undo_redo_round_trip() {
    let mut page = Page::default();
    let a = page.push_stroke(stroke(100, 100));
    let b = page.push_stroke(stroke(300, 300));
    let mut st = UndoStack::default();
    let (lifted, _) = page.remove_strokes_by_ids(&vec![(Owner::User, a)]);
    st.push(erased(lifted));
    assert_eq!(user_ids(&page), vec![b]);
    st.undo(&mut page);
    assert_eq!(user_ids(&page), vec![b, a]);
    st.redo(&mut page);
    assert_eq!(user_ids(&page), vec![b]);
    st.undo(&mut page);
    assert_eq!(user_ids(&page), vec![b, a]);
}

#[test]
fn undo_and_redo_a_move_is_exact() {
    let mut page = Page::default();
    let a = page.push_stroke(stroke(100, 100));
    let refs = vec![(Owner::User, a)];
    page.translate_strokes(&refs, 55, -33);
    let mut st = UndoStack::default();
    st.push(EditOp::MoveStrokes { refs, dx: 55, dy: -33 });
    st.undo(&mut page);
    assert_eq!(page.strokes[0].pts[0], Pt { x: 100, y: 100, r: 10 });
    st.redo(&mut page);
    assert_eq!(page.strokes[0].pts[0], Pt { x: 155, y: 67, r: 10 });
}

#[test]
fn undo_and_redo_a_patch() {
    let mut page = Page::default();
    let pid = page.add_patch(vec![stroke(500, 500)], Vec::new());
    let mut st = UndoStack::default();
    st.push_keep_redo(EditOp::AddPatch { id: pid, body: None });
    assert_eq!(st.undo(&mut page), Some(Rect { x0: 49, y0: 49, x1: 51, y1: 51 }));
    assert!(page.patches.is_empty());
    assert_eq!(st.redo(&mut page), Some(Rect { x0: 49, y0: 49, x1: 51, y1: 51 }));
    assert_eq!(page.patches[0].id, pid);
}

#[test]
fn a_user_edit_clears_redo_but_a_pi_draw_keeps_it() {
    let mut page = Page::default();
    let mut st = UndoStack::default();
    let id = page.push_stroke(stroke(100, 100));
    st.push(EditOp::AddStroke { id, stroke: None });
    st.undo(&mut page);
    assert!(st.can_redo());
    st.push_keep_redo(EditOp::AddPatch { id: 0, body: None });
    assert!(st.can_redo());
    st.push(EditOp::AddStroke { id: 5, stroke: None });
    assert!(!st.can_redo());
}

#[test]
fn the_stack_keeps_at_most_the_cap() {
    let mut page = Page::default();
    let mut st = UndoStack::default();
    for i in 0..(UNDO_CAP + 20) {
        st.push(EditOp::AddStroke { id: i as u64 + 1000, stroke: None });
    }
    let mut n = 0;
    while st.can_undo() {
        st.undo(&mut page);
        n += 1;
    }
    assert_eq!(n, UNDO_CAP);
}

#[test]
fn per_page_histories_are_kept_for_recent_pages_only() {
    let mut pp = PerPage::default();
    for i in 0..(PAGES_LRU + 2) {
        let s = pp.stack(&format!("page{i}"));
        s.push(EditOp::AddStroke { id: 1, stroke: None });
    }
    assert!(pp.peek("page0").is_none());
    assert!(pp.peek("page1").is_none());
    assert!(pp.peek("page2").unwrap().can_undo());
    pp.stack("page2");
    pp.stack("new");
    assert!(pp.peek("page2").is_some());
    assert!(pp.peek("page3").is_none());
    pp.drop_page("page2");
    assert!(pp.peek("page2").is_none());
    assert!(!pp.stack("page2").can_undo());
}

#[test]
fn readiness_checks_what_undo_and_redo_need() {
    let mut page = Page::default();
    let mut st = UndoStack::default();
    assert!(!st.undo_ready(&page));
    let id = page.push_stroke(stroke(100, 100));
    st.push(EditOp::AddStroke { id, stroke: None });
    assert!(st.undo_ready(&page));
    assert!(!st.redo_ready(&page));
    st.undo(&mut page);
    assert!(st.redo_ready(&page));
    st.redo(&mut page);
    st.push(EditOp::MoveStrokes { refs: vec![(Owner::User, id)], dx: -remarkable::ink::COORD_LIM, dy: 0 });
    assert!(!st.undo_ready(&page), "moving back would leave the coordinate range");
}
