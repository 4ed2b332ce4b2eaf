use remarkable::book::{flip_step, open_position, page_file, render_file, FlipStep};
use remarkable::raster::{next_raster_id, RasterPatch};

#[test]
fn flipping_inside_the_book_goes_to_the_page() {
    assert_eq!(flip_step(2, 5, 1, false), FlipStep::Go(3));
    assert_eq!(flip_step(2, 5, -2, true), FlipStep::Go(0));
    assert_eq!(flip_step(0, 5, 4, true), FlipStep::Go(4));
}

#[test]
fn flipping_before_the_first_page_does_nothing() {
    assert_eq!(flip_step(0, 5, -1, false), FlipStep::Stay);
    assert_eq!(flip_step(1, 5, i32::MIN, false), FlipStep::Stay);
}

#[test]
fn flipping_past_the_end_starts_one_fresh_page_unless_blank() {
    assert_eq!(flip_step(4, 5, 1, false), FlipStep::Fresh);
    assert_eq!(flip_step(4, 5, 1, true), FlipStep::Stay);
    // a long jump past the end still adds just one page
    assert_eq!(flip_step(1, 5, 10, false), FlipStep::Fresh);
    assert_eq!(flip_step(1, 5, i32::MAX, true), FlipStep::Stay);
}

#[test]
fn the_book_opens_on_its_last_page() {
    assert_eq!(open_position(0), (0, 1));
    assert_eq!(open_position(1), (0, 1));
    assert_eq!(open_position(7), (6, 7));
}

#[test]
fn page_files_are_numbered_from_one_with_four_digits() {
    assert_eq!(page_file(0), "page-0001.json");
    assert_eq!(page_file(41), "page-0042.json");
    assert_eq!(page_file(12344), "page-12345.json");
    assert_eq!(render_file(0), "render-0001.skr");
}

#[test]
fn the_next_raster_id_follows_the_largest() {
    let r = |id: u64| RasterPatch { id, x0: 0, y0: 0, w: 1, h: 1, gray: vec![0] };
    assert_eq!(next_raster_id(&vec![]), 1);
    assert_eq!(next_raster_id(&vec![r(3), r(9), r(2)]), 10);
    assert_eq!(next_raster_id(&vec![r(0)]), 1);
}
