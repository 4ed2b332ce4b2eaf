use remarkable::highlight::Word;
use remarkable::phrase::{underline_spans, Span};

fn word(x0: i32, y0: i32, x1: i32, y1: i32) -> Word {
    Word { x0, y0, x1, y1, text: String::from("w") }
}

#[test]
fn words_on_one_line_share_one_underline() {
    let ws = vec![word(100, 200, 160, 230), word(170, 202, 240, 232), word(250, 198, 300, 228)];
    assert_eq!(underline_spans(&ws, &[0, 1, 2]), vec![Span { x0: 100, x1: 300, y: 232 }]);
}

#[test]
fn a_match_that_wraps_gets_one_underline_per_line() {
    let ws = vec![word(900, 200, 1000, 230), word(100, 250, 180, 280), word(190, 250, 260, 281)];
    assert_eq!(
        underline_spans(&ws, &[0, 1, 2]),
        vec![Span { x0: 900, x1: 1000, y: 230 }, Span { x0: 100, x1: 260, y: 281 }]
    );
}

#[test]
fn a_word_far_left_of_the_last_starts_a_new_line_even_at_the_same_height() {
    let ws = vec![word(500, 200, 560, 230), word(400, 200, 450, 230), word(470, 200, 490, 230)];
    // 400 < 500 - 40: new line; 470 >= 400 - 40: joins it
    assert_eq!(
        underline_spans(&ws, &[0, 1, 2]),
        vec![Span { x0: 500, x1: 560, y: 230 }, Span { x0: 400, x1: 490, y: 230 }]
    );
    // the tolerance is at least 6 px for flat boxes
    let flat = vec![word(0, 100, 10, 100), word(20, 106, 30, 106), word(40, 113, 50, 113)];
    assert_eq!(
        underline_spans(&flat, &[0, 1, 2]),
        vec![Span { x0: 0, x1: 30, y: 106 }, Span { x0: 40, x1: 50, y: 113 }]
    );
    assert!(underline_spans(&ws, &[]).is_empty());
}
