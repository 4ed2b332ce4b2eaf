use remarkable::pause::{book_pause_message, kind_text, page_excerpt, pause_step, PageKind, PauseStep};

#[test]
fn a_pause_waits_while_the_user_is_busy_or_before_the_deadline() {
    assert_eq!(pause_step(true, true, true, false, true, true, false), PauseStep::Wait);
    assert_eq!(pause_step(false, false, true, false, true, true, false), PauseStep::Wait);
    assert_eq!(pause_step(false, true, false, false, true, true, false), PauseStep::Wait);
}

#[test]
fn a_due_pause_defers_disarms_skips_or_sends() {
    assert_eq!(pause_step(false, true, true, true, true, true, false), PauseStep::Defer);
    assert_eq!(pause_step(false, true, true, false, false, true, false), PauseStep::Disarm);
    assert_eq!(pause_step(false, true, true, false, true, false, false), PauseStep::Skip);
    assert_eq!(pause_step(false, true, true, false, true, true, true), PauseStep::Skip);
    assert_eq!(pause_step(false, true, true, false, true, true, false), PauseStep::Send);
}

#[test]
fn short_text_goes_as_is_and_blank_text_gets_a_placeholder() {
    assert_eq!(page_excerpt("Chapter 1\nIt was"), "Chapter 1\nIt was");
    assert_eq!(page_excerpt(""), "(no extractable text on this page)");
    assert_eq!(page_excerpt(" \n\t "), "(no extractable text on this page)");
}

#[test]
fn long_text_is_cut_at_a_character_boundary_within_the_cap() {
    let long = "a".repeat(5000);
    let e = page_excerpt(&long);
    assert_eq!(e, format!("{}\n[...]", "a".repeat(4500)));
    // a two-byte character straddling byte 4500 is left out whole
    let mixed = format!("{}é{}", "a".repeat(4499), "b".repeat(10));
    assert_eq!(page_excerpt(&mixed), format!("{}\n[...]", "a".repeat(4499)));
    // exactly at the cap is not cut
    let exact = "x".repeat(4500);
    assert_eq!(page_excerpt(&exact), exact);
}

#[test]
fn page_kinds_read_as_the_assistant_is_told() {
    assert_eq!(kind_text(PageKind::Notebook), "a notebook page");
    assert_eq!(kind_text(PageKind::Printed(11)), "printed page 12 of the PDF");
    assert_eq!(kind_text(PageKind::Note), "a blank note page in a book");
}

#[test]
fn the_pause_message_carries_every_part() {
    let m = book_pause_message("Walden", 3, 40, "printed page 2 of the PDF", "Economy", "none", "rows: 100-200.");
    assert_eq!(
        m,
        "\"Walden\" \u{2014} page 3 of 40 (printed page 2 of the PDF). The attached image is the page as the user \
         sees it (half scale), with everyone's ink. The user just paused writing. Extracted text of this \
         page:\n---\nEconomy\n---\nYour existing patches here: none. Measured layout (page coordinates \u{2014} \
         trust these numbers): rows: 100-200. Respond with your canvas_* tools only if it genuinely helps; \
         otherwise reply `pass`."
    );
}
