use remarkable::rm2fb::{
    full_refresh_request, gc16_partial_request, gl16_full_request, init_check_request, update_request,
};

fn words(m: &[u8]) -> Vec<i32> {
    m.chunks(4).map(|c| i32::from_le_bytes([c[0], c[1], c[2], c[3]])).collect()
}

#[test]
fn update_requests_are_clamped_records() {
    let m = update_request(-10, 5, 100, 50, true);
    assert_eq!(m.len(), 32);
    let w = words(&m);
    assert_eq!(&w[0..4], &[5, 0, 54, 89]);
    assert_eq!(w[4], 4);
    assert_eq!(w[5], 1 | 0xf000);
    assert_eq!(w[6], 0);
    assert_eq!(w[7], 0);
    let slow = words(&update_request(0, 0, 10, 10, false));
    assert_eq!((slow[4], slow[5]), (0, 3 | 0xf000));
}

#[test]
fn single_pixels_are_widened() {
    let w = words(&update_request(5, 5, 1, 1, true));
    assert_eq!(&w[0..4], &[5, 5, 5, 6]);
    let w = words(&update_request(1403, 5, 1, 1, true));
    assert_eq!(&w[0..4], &[5, 1402, 5, 1403]);
}

#[test]
fn waveform_choices() {
    let g = gc16_partial_request(0, 0, 100, 100);
    assert_eq!(&g[24..28], &25.0f32.to_le_bytes());
    assert_eq!(words(&g)[5], 2 | 0xf000);
    let l = words(&gl16_full_request(0, 0, 100, 100));
    assert_eq!((l[4], l[5]), (1, 3 | 0xf000));
    let f = words(&full_refresh_request());
    assert_eq!(&f[0..6], &[0, 0, 1871, 1403, 1, 2 | 0xf000]);
    assert_eq!(words(&init_check_request()), vec![0, 0, 0, 0, 0, 0xf000, 0, 0]);
}
