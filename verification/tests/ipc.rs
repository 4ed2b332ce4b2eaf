use remarkable::ipc::{is_runaway, take_requests};

#[test]
fn complete_lines_come_out_and_the_rest_waits() {
    let mut buf = b"{\"cmd\":\"view\"}\n\n{\"cmd\":\"erase\"}\n{\"cmd\":".to_vec();
    let lines = take_requests(&mut buf);
    assert_eq!(lines, vec![b"{\"cmd\":\"view\"}".to_vec(), b"{\"cmd\":\"erase\"}".to_vec()]);
    assert_eq!(buf, b"{\"cmd\":".to_vec());
    buf.extend_from_slice(b"\"goto\"}\n");
    assert_eq!(take_requests(&mut buf), vec![b"{\"cmd\":\"goto\"}".to_vec()]);
    assert!(buf.is_empty());
}

#[test]
fn a_buffer_without_a_line_end_is_left_alone() {
    let mut buf = b"partial".to_vec();
    assert!(take_requests(&mut buf).is_empty());
    assert_eq!(buf, b"partial".to_vec());
    let mut empty: Vec<u8> = Vec::new();
    assert!(take_requests(&mut empty).is_empty());
    let mut blank = b"\n\n\n".to_vec();
    assert!(take_requests(&mut blank).is_empty());
    assert!(blank.is_empty());
}

#[test]
fn more_than_four_mebibytes_pending_is_a_runaway() {
    assert!(!is_runaway(4 << 20));
    assert!(is_runaway((4 << 20) + 1));
}
