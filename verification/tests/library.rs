use remarkable::calendar::{civil_from_days, ymd};
use remarkable::fb::{gray_to_565, lum_of_565};
use remarkable::history::{pack_bits, unpack_bits};
use remarkable::home::rel_date;
use remarkable::num::{decimal, decimal_padded, signed_decimal, to_digits};
use remarkable::phrase::norm_token;
use remarkable::png::{base64, base64_decode, encode_gray};
use remarkable::project::valid_slug;
use remarkable::store::{base36, folders, notebook_id, sort_names};
use remarkable::wrap::wrap;

fn s(v: &[&str]) -> Vec<String> {
    v.iter().map(|x| x.to_string()).collect()
}

#[test]
fn civil_dates_of_day_numbers() {
    assert_eq!(civil_from_days(0), (1970, 1, 1));
    assert_eq!(civil_from_days(19723), (2024, 1, 1));
    assert_eq!(civil_from_days(19782), (2024, 2, 29));
    assert_eq!(civil_from_days(-1), (1969, 12, 31));
    assert_eq!(ymd(1_700_000_000), "2023-11-14");
    assert_eq!(ymd(-1), "1969-12-31");
    assert_eq!(ymd(0), "1970-01-01");
}

#[test]
fn numbers_in_text() {
    assert_eq!(to_digits(35, 36), vec!['z']);
    assert_eq!(to_digits(0, 10), vec!['0']);
    assert_eq!(decimal(1203), vec!['1', '2', '0', '3']);
    assert_eq!(decimal_padded(7, 3), vec!['0', '0', '7']);
    assert_eq!(decimal_padded(12345, 3), vec!['1', '2', '3', '4', '5']);
    assert_eq!(signed_decimal(-12), vec!['-', '1', '2']);
    assert_eq!(signed_decimal(i64::MIN).len(), 20);
}

#[test]
fn notebook_ids_are_base36_times() {
    assert_eq!(base36(0), "0");
    assert_eq!(base36(1_234_567_890), "kf12oi");
    assert_eq!(notebook_id(1_234_567_890, 1), "nb-kf12oi");
    assert_eq!(notebook_id(1_234_567_890, 3), "nb-kf12oi-3");
}

#[test]
fn the_folder_list_is_the_union_sorted() {
    let r = folders(s(&["work", "Art"]), &s(&["", "zoo", "work", "alpha", "zoo"]));
    assert_eq!(r, s(&["Art", "alpha", "work", "zoo"]));
    assert_eq!(sort_names(&s(&["b", "a", "B"])), s(&["B", "a", "b"]));
}

#[test]
fn base64_round_trips() {
    assert_eq!(base64(b"hello"), "aGVsbG8=");
    assert_eq!(base64(b""), "");
    assert_eq!(base64_decode("aGVsbG8="), b"hello".to_vec());
    let data: Vec<u8> = (0..=255u8).collect();
    assert_eq!(base64_decode(&base64(&data)), data);
}

#[test]
fn png_of_a_gray_image() {
    let png = encode_gray(2, 1, &[0, 255]);
    assert_eq!(&png[0..8], &[0x89, b'P', b'N', b'G', 0x0D, 0x0A, 0x1A, 0x0A]);
    assert_eq!(&png[12..16], b"IHDR");
    assert_eq!(&png[16..24], &[0, 0, 0, 2, 0, 0, 0, 1]);
    assert_eq!(&png[png.len() - 8..png.len() - 4], b"IEND");
}

#[test]
fn packed_ink_bits_unpack_to_the_same_mask() {
    let g = vec![0u8, 255, 10, 200, 255, 255, 0, 0, 3];
    let bits = pack_bits(&g);
    assert_eq!(bits.len(), 2);
    let back = unpack_bits(&bits, g.len());
    assert_eq!(back.len(), g.len());
    assert_eq!(pack_bits(&back), bits);
}

#[test]
fn the_565_grey_round_trip_is_close() {
    assert_eq!(gray_to_565(0), 0);
    assert_eq!(gray_to_565(255), 0xFFFF);
    assert_eq!(lum_of_565(0xFFFF), 255);
    assert_eq!(lum_of_565(0), 0);
}

#[test]
fn days_ago_labels() {
    assert_eq!(rel_date(0, 5), "new");
    assert_eq!(rel_date(1000, 1000 + 3600), "Today");
    assert_eq!(rel_date(1000, 1000 + 86400), "Yesterday");
    assert_eq!(rel_date(1000, 1000 + 3 * 86400 + 5), "3 days ago");
    assert_eq!(rel_date(5000, 10), "Today");
}

#[test]
fn tokens_ignore_case_and_punctuation() {
    assert_eq!(norm_token("Hello,"), "hello");
    assert_eq!(norm_token("Ünïcode-42!"), "ünïcode42");
    assert_eq!(norm_token("—"), "");
}

#[test]
fn slugs() {
    assert!(valid_slug("my-proj_1"));
    assert!(!valid_slug(""));
    assert!(!valid_slug(".hidden"));
    assert!(!valid_slug("a/b"));
}

#[test]
fn wrapping_breaks_at_spaces_and_long_words() {
    assert_eq!(wrap("hello world", 5), s(&["hello", "world"]));
    assert_eq!(wrap("", 5), s(&[""]));
    assert_eq!(wrap("abcdefgh", 3), s(&["abc", "def", "gh"]));
}
