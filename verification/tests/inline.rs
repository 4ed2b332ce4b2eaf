use remarkable::fold::Face;
use remarkable::inline::{math_spans, parse_inline, Shrink, Span};
use remarkable::mdview::hard_wrap_mono;

fn flat(spans: &[Span]) -> Vec<(String, Face, Shrink, bool, Vec<bool>)> {
    spans.iter().map(|s| (s.text.clone(), s.face, s.shrink, s.underline, s.scripts.clone())).collect()
}

fn plain(t: &str, f: Face) -> (String, Face, Shrink, bool, Vec<bool>) {
    (t.to_string(), f, Shrink::Full, false, vec![])
}

fn math(s: &str, gl: &[char]) -> Vec<(String, Face, Shrink, bool, Vec<bool>)> {
    let b: Vec<char> = s.chars().collect();
    flat(&math_spans(&b, Face::Body, gl))
}

#[test]
fn scripts_shrink_and_nest() {
    assert_eq!(math("x^2", &[]), vec![plain("x", Face::Body), ("2".into(), Face::Body, Shrink::Full, false, vec![true])]);
    assert_eq!(
        math("x_{i_j}", &[]),
        vec![
            plain("x", Face::Body),
            ("i".into(), Face::Body, Shrink::Full, false, vec![false]),
            ("j".into(), Face::Body, Shrink::Full, false, vec![false, false]),
        ]
    );
}

#[test]
fn fractions_become_a_slash_between_parenthesised_parts() {
    assert_eq!(math("\\frac{a+b}{2}", &[]), vec![plain("(a+b)", Face::Body), plain("/", Face::Body), plain("2", Face::Body)]);
    assert_eq!(
        math("\\frac{\\pi}{n}", &['\u{03C0}']),
        vec![plain("\u{03C0}", Face::Body), plain("/", Face::Body), plain("n", Face::Body)]
    );
}

#[test]
fn symbols_use_the_glyph_only_when_the_face_has_it() {
    assert_eq!(math("\\alpha+1", &['\u{03B1}']), vec![plain("\u{03B1}+1", Face::Body)]);
    assert_eq!(math("\\alpha+1", &[]), vec![plain("alpha+1", Face::Body)]);
    assert_eq!(math("\\sqrt{x}", &[]), vec![plain("sqrt(", Face::Body), plain("x", Face::Body), plain(")", Face::Body)]);
    assert_eq!(math("\\sqrt{x}", &['\u{221A}']), vec![plain("\u{221A}(", Face::Body), plain("x", Face::Body), plain(")", Face::Body)]);
    assert_eq!(math("\\foo", &[]), vec![plain("foo", Face::Body)]);
}

#[test]
fn spacing_text_and_braces() {
    assert_eq!(math("a\\,b~c", &[]), vec![plain("a b c", Face::Body)]);
    assert_eq!(math("\\text{if } x", &[]), vec![plain("if  x", Face::Body)]);
    assert_eq!(math("{a}\\left(b\\right)", &[]), vec![plain("a(b)", Face::Body)]);
    assert_eq!(math("", &[]), vec![plain("", Face::Body)]);
}

#[test]
fn inline_markup_becomes_styled_spans() {
    let spans = parse_inline("Hello **world** and `code` $x^2$ [link](http://x) ![pic](u) *it*", Face::Body, &[]);
    assert_eq!(
        flat(&spans),
        vec![
            plain("Hello ", Face::Body),
            plain("world", Face::Heading),
            plain(" and ", Face::Body),
            ("code".into(), Face::Mono, Shrink::Code, false, vec![]),
            plain(" ", Face::Body),
            plain("x", Face::Body),
            ("2".into(), Face::Body, Shrink::Full, false, vec![true]),
            plain(" ", Face::Body),
            ("link".into(), Face::Body, Shrink::Full, true, vec![]),
            plain(" ", Face::Body),
            ("[image: pic]".into(), Face::Mono, Shrink::Image, false, vec![]),
            plain(" it", Face::Body),
        ]
    );
}

#[test]
fn html_is_dropped_and_unclosed_markers_fall_back() {
    assert_eq!(flat(&parse_inline("<b>x</b>   y", Face::Heading, &[])), vec![plain("x y", Face::Heading)]);
    assert_eq!(flat(&parse_inline("**bold", Face::Body, &[])), vec![plain("bold", Face::Body)]);
    assert_eq!(flat(&parse_inline("a `b", Face::Body, &[])), vec![plain("a `b", Face::Body)]);
    assert_eq!(flat(&parse_inline("[x] (y)", Face::Body, &[])), vec![plain("[x] (y)", Face::Body)]);
    assert!(parse_inline("", Face::Body, &[]).is_empty());
}

#[test]
fn mono_lines_are_cut_at_the_block_capacity() {
    // 100 px at 10 px a character: 10 per line
    let s = "abcdefghijklmnopqrstuvwxy";
    assert_eq!(hard_wrap_mono(s, 100, 10), vec!["abcdefghij", "klmnopqrst", "uvwxy"]);
    assert_eq!(hard_wrap_mono("short", 100, 10), vec!["short"]);
    // never fewer than 8 per line, and a zero advance counts as 1
    assert_eq!(hard_wrap_mono("0123456789", 20, 10), vec!["01234567", "89"]);
    assert_eq!(hard_wrap_mono("", 5, 0), vec![""]);
}
