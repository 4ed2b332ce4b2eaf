use remarkable::geom::Rect;
use remarkable::raster::{decode_rasters, encode_rasters, raster_composite, RasterPatch};

fn patch(id: u64, x0: i32, y0: i32, w: i32, h: i32) -> RasterPatch {
    let gray = (0..(w * h)).map(|i| (i * 7 % 256) as u8).collect();
    RasterPatch { id, x0, y0, w, h, gray }
}

#[test]
fn rasters_round_trip_through_their_file() {
    let ps = vec![patch(5, 10, 20, 3, 2), patch(u64::MAX, -4, 7, 1, 1)];
    let bytes = encode_rasters(&ps);
    assert_eq!(&bytes[0..4], b"SKR2");
    assert_eq!(&bytes[4..8], &2u32.to_le_bytes());
    assert_eq!(bytes.len(), 8 + (24 + 6) + (24 + 1));
    let back = decode_rasters(&bytes);
    assert_eq!(back.len(), 2);
    for (a, b) in ps.iter().zip(back.iter()) {
        assert_eq!((a.id, a.x0, a.y0, a.w, a.h), (b.id, b.x0, b.y0, b.w, b.h));
        assert_eq!(a.gray, b.gray);
    }
}

#[test]
fn damaged_files_yield_what_precedes_the_damage() {
    assert!(decode_rasters(&b"SKR".to_vec()).is_empty());
    assert!(decode_rasters(&b"XXXX\x01\x00\x00\x00".to_vec()).is_empty());
    let ps = vec![patch(1, 0, 0, 2, 2), patch(2, 0, 0, 2, 2)];
    let mut bytes = encode_rasters(&ps);
    bytes.truncate(bytes.len() - 1);
    let back = decode_rasters(&bytes);
    assert_eq!(back.len(), 1);
    assert_eq!(back[0].id, 1);
}

#[test]
fn rect_and_contains() {
    let p = patch(1, 10, 20, 5, 3);
    assert_eq!(p.rect(), Rect { x0: 10, y0: 20, x1: 14, y1: 22 });
    assert!(p.contains(10, 20) && p.contains(14, 22));
    assert!(!p.contains(15, 20) && !p.contains(10, 23) && !p.contains(9, 20));
}

#[test]
fn renders_crop_to_their_ink_plus_a_margin() {
    let (w, h) = (10, 8);
    let mut g = vec![255u8; 80];
    g[3 * 10 + 4] = 0;
    g[4 * 10 + 5] = 100;
    let (out, cw, ch, x0, y0) = remarkable::raster::content_crop(g.clone(), w, h);
    assert_eq!((cw, ch, x0, y0), (6, 6, 2, 1));
    assert_eq!(out.len(), 36);
    assert_eq!(out[(3 - 1) * 6 + (4 - 2)], 0);
    assert_eq!(out[(4 - 1) * 6 + (5 - 2)], 100);
    let blank = vec![255u8; 80];
    assert_eq!(remarkable::raster::content_crop(blank.clone(), w, h), (blank, 10, 8, 0, 0));
    let mut corner = vec![255u8; 80];
    corner[0] = 0;
    corner[79] = 0;
    assert_eq!(remarkable::raster::content_crop(corner.clone(), w, h), (corner, 10, 8, 0, 0));
}

#[test]
fn composite_keeps_the_darkest_tone_and_white_elsewhere() {
    let a = RasterPatch { id: 1, x0: 0, y0: 0, w: 2, h: 2, gray: vec![10, 200, 200, 200] };
    let b = RasterPatch { id: 2, x0: 1, y0: 0, w: 2, h: 1, gray: vec![50, 5] };
    let buf = raster_composite(&[&a, &b], Rect { x0: 0, y0: 0, x1: 2, y1: 1 });
    assert_eq!(buf, vec![10, 50, 5, 200, 200, 255]);
    // the region cuts the patches and shifts the buffer's origin
    let buf = raster_composite(&[&a, &b], Rect { x0: 1, y0: 0, x1: 3, y1: 0 });
    assert_eq!(buf, vec![50, 5, 255]);
    assert_eq!(raster_composite(&[], Rect { x0: 5, y0: 5, x1: 6, y1: 5 }), vec![255, 255]);
}
