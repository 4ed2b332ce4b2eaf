use remarkable::canvas::{
    no_patch_error, page_text_part, plan, CmdReq, Plan,
    doc_state, downsample, ink_rel, insert_note, label, note_after, occurrence, page_range, phrase_error, req_page, Entry,
    StoredState,
};

#[test]
fn reading_order_from_state_or_defaults() {
    let st = StoredState { seq: Some(vec![Entry::Pdf(0), Entry::Note(4), Entry::Pdf(1)]), next_note: Some(2) };
    let (seq, next) = doc_state(st, false, 9);
    assert_eq!(seq, vec![Entry::Pdf(0), Entry::Note(4), Entry::Pdf(1)]);
    assert_eq!(next, 5);
    let st = StoredState { seq: Some(vec![Entry::Note(1)]), next_note: Some(9) };
    assert_eq!(doc_state(st, false, 0).1, 9);
    let (seq, next) = doc_state(StoredState { seq: Some(Vec::new()), next_note: None }, true, 3);
    assert_eq!((seq, next), (vec![Entry::Note(1)], 2));
    let (seq, next) = doc_state(StoredState { seq: None, next_note: None }, false, 3);
    assert_eq!((seq, next), (vec![Entry::Pdf(0), Entry::Pdf(1), Entry::Pdf(2)], 1));
}

#[test]
fn ink_paths_and_labels() {
    assert_eq!(ink_rel(Entry::Pdf(0)), "ink/pdf-0001.json");
    assert_eq!(ink_rel(Entry::Note(12345)), "ink/note-12345.json");
    let seq = vec![Entry::Pdf(11), Entry::Note(3)];
    assert_eq!(label(&seq, 0), "p.12");
    assert_eq!(label(&seq, 1), "note");
    assert_eq!(label(&seq, 2), "");
}

#[test]
fn page_requests() {
    assert_eq!(req_page(Some(3), 5), Ok(2));
    assert_eq!(req_page(Some(0), 5), Err("no page 0 (document has 5)".to_string()));
    assert_eq!(req_page(Some(6), 5), Err("no page 6 (document has 5)".to_string()));
    assert_eq!(req_page(None, 5), Err("page required (the session passes the current page)".to_string()));
    assert_eq!(note_after(Some(1), 1), Ok(0));
    assert_eq!(note_after(None, 1), Err("after_page required (the session passes the current page)".to_string()));
}

#[test]
fn notes_go_right_after_their_page() {
    let seq = vec![Entry::Pdf(0), Entry::Pdf(1), Entry::Pdf(2)];
    assert_eq!(insert_note(&seq, 1, 7), vec![Entry::Pdf(0), Entry::Pdf(1), Entry::Note(7), Entry::Pdf(2)]);
    assert_eq!(insert_note(&seq, 2, 7), vec![Entry::Pdf(0), Entry::Pdf(1), Entry::Pdf(2), Entry::Note(7)]);
}

#[test]
fn text_ranges_cover_at_most_eight_pages() {
    assert_eq!(page_range(Some(2), None, 20), Ok((2, 2)));
    assert_eq!(page_range(Some(2), Some(100), 20), Ok((2, 9)));
    assert_eq!(page_range(Some(18), Some(100), 20), Ok((18, 20)));
    assert_eq!(page_range(Some(5), Some(1), 20), Ok((5, 5)));
    assert_eq!(page_range(None, None, 20), Err("no page 0 (document has 20)".to_string()));
    assert_eq!(page_range(Some(21), None, 20), Err("no page 21 (document has 20)".to_string()));
}

#[test]
fn phrase_requests() {
    assert_eq!(occurrence(None), 1);
    assert_eq!(occurrence(Some(0)), 1);
    assert_eq!(occurrence(Some(3)), 3);
    assert_eq!(
        phrase_error(0, 4),
        "phrase not found on page 4 — quote it exactly as it appears (matching ignores case and punctuation)"
    );
    assert_eq!(phrase_error(2, 4), "only 2 occurrence(s) on page 4");
}

#[test]
fn the_page_image_is_the_block_mean_of_the_screen() {
    let (w, h) = (1404usize, 1872usize);
    assert_eq!(downsample(None, 2), vec![255u8; (w / 2) * (h / 2)]);
    let mut screen = vec![255u8; w * h];
    screen[0] = 0;
    screen[1] = 3;
    screen[w] = 4;
    screen[w + 1] = 5;
    screen[2] = 100; // second block: (100 + 255 * 3) / 4
    let out = downsample(Some(&screen), 2);
    assert_eq!(out.len(), 702 * 936);
    assert_eq!(out[0], 3);
    assert_eq!(out[1], ((100 + 255 * 3) / 4) as u8);
    assert_eq!(out[2], 255);
    let out3 = downsample(Some(&screen), 3);
    assert_eq!(out3.len(), 468 * 624);
    assert_eq!(out3[0], ((0 + 3 + 100 + 4 + 5 + 255 * 4) / 9) as u8);
}

fn req(cmd: &str) -> CmdReq {
    CmdReq {
        cmd: cmd.to_string(),
        page: None,
        svg: None,
        phrase: None,
        occurrence: None,
        id: None,
        after_page: None,
        from: None,
        to: None,
    }
}

fn fail_text(p: Plan) -> String {
    match p {
        Plan::Fail(e) => e,
        _ => panic!("expected a failure"),
    }
}

#[test]
fn commands_are_checked_before_anything_is_loaded() {
    let seq = vec![Entry::Pdf(0), Entry::Note(1), Entry::Pdf(1)];
    assert_eq!(fail_text(plan(req("fly"), &seq)), "unknown cmd 'fly'");
    assert_eq!(fail_text(plan(req("view"), &seq)), "page required (the session passes the current page)");
    assert!(matches!(plan(CmdReq { page: Some(3), ..req("view") }, &seq), Plan::View(2)));
    assert_eq!(fail_text(plan(CmdReq { page: Some(4), ..req("view") }, &seq)), "no page 4 (document has 3)");
    assert_eq!(fail_text(plan(CmdReq { page: Some(1), ..req("draw") }, &seq)), "missing 'svg'");
    assert_eq!(fail_text(plan(CmdReq { page: Some(1), phrase: Some("  ".into()), ..req("underline") }, &seq)), "missing 'phrase'");
    assert_eq!(
        fail_text(plan(CmdReq { page: Some(2), phrase: Some("the end".into()), ..req("underline") }, &seq)),
        "nothing printed on that page to underline"
    );
    match plan(CmdReq { page: Some(3), phrase: Some("the end".into()), occurrence: Some(0), ..req("underline") }, &seq) {
        Plan::Underline(2, 1, ph, 1) => assert_eq!(ph, "the end"),
        _ => panic!("expected an underline"),
    }
    assert_eq!(fail_text(plan(CmdReq { page: Some(1), ..req("erase") }, &seq)), "missing 'id'");
    assert!(matches!(plan(CmdReq { page: Some(1), id: Some(7), ..req("erase") }, &seq), Plan::Erase(0, 7)));
    assert!(matches!(plan(CmdReq { after_page: Some(3), ..req("insert_note") }, &seq), Plan::InsertNote(2)));
    assert!(matches!(plan(CmdReq { from: Some(2), to: Some(99), ..req("page_text") }, &seq), Plan::PageText(2, 3)));
}

#[test]
fn page_text_parts_and_the_missing_patch_answer() {
    assert_eq!(page_text_part(0, Entry::Pdf(4), "Call me"), "--- page 1 (p.5) ---\nCall me\n");
    assert_eq!(
        page_text_part(1, Entry::Note(1), "ignored"),
        "--- page 2 (note page \u{2014} handwriting only, use canvas_view) ---\n"
    );
    assert_eq!(no_patch_error(12, 3), "no patch #12 on page 3");
}
