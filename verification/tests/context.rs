use contextual::context::{
    character_range, context_around, context_window, cursor_byte_index, cursor_context,
    cursor_sentence_index, get_sentence_range, hit_sentence_index, result_context,
    utf8_range_to_utf16_range,
};
use std::ops::Range;

fn sentences(n: usize) -> Vec<Range<usize>> {
    (0..n).map(|i| i * 10..i * 10 + 10).collect()
}

#[test]
fn window_of_three_in_the_middle() {
    assert_eq!(get_sentence_range(&sentences(20), 10, 3), 8..11);
}

#[test]
fn window_of_three_at_the_start() {
    assert_eq!(get_sentence_range(&sentences(20), 0, 3), 0..1);
    assert_eq!(get_sentence_range(&sentences(20), 1, 3), 0..2);
    assert_eq!(get_sentence_range(&sentences(20), 2, 3), 0..3);
}

#[test]
fn window_of_three_at_the_end() {
    assert_eq!(get_sentence_range(&sentences(20), 19, 3), 17..20);
    assert_eq!(get_sentence_range(&sentences(20), 25, 3), 17..20);
}

#[test]
fn window_sizes_round_down() {
    assert_eq!(get_sentence_range(&sentences(20), 10, 0), 10..10);
    assert_eq!(get_sentence_range(&sentences(20), 10, 1), 9..10);
    assert_eq!(get_sentence_range(&sentences(20), 10, 4), 8..12);
    assert_eq!(get_sentence_range(&sentences(20), 10, 5), 7..12);
    assert_eq!(get_sentence_range(&sentences(0), 0, 3), 0..0);
    assert_eq!(get_sentence_range(&sentences(3), usize::MAX, usize::MAX), 0..3);
}

#[test]
fn utf16_range_of_ascii() {
    assert_eq!(utf8_range_to_utf16_range(3..7, "hello world"), 3..7);
}

#[test]
fn utf16_range_counts_surrogate_pairs() {
    // 'é' takes 2 bytes and 1 unit, '👒' takes 4 bytes and 2 units.
    let text = "é👒a";
    assert_eq!(utf8_range_to_utf16_range(0..2, text), 0..1);
    assert_eq!(utf8_range_to_utf16_range(2..6, text), 1..3);
    assert_eq!(utf8_range_to_utf16_range(6..7, text), 3..4);
    assert_eq!(utf8_range_to_utf16_range(2..7, text), 1..4);
    assert_eq!(utf8_range_to_utf16_range(7..7, text), 4..4);
}

#[test]
fn character_range_counts_code_points() {
    let text = "é👒a";
    assert_eq!(character_range(0..2, text), 0..1);
    assert_eq!(character_range(2..7, text), 1..3);
    assert_eq!(character_range(0..15, "my note is here"), 0..15);
}

#[test]
fn cursor_stops_at_the_first_code_point_that_reaches_it() {
    let text = "abc def";
    assert_eq!(cursor_byte_index(text, 0).unwrap(), 0);
    assert_eq!(cursor_byte_index(text, 1).unwrap(), 0);
    assert_eq!(cursor_byte_index(text, 2).unwrap(), 1);
    assert_eq!(cursor_byte_index(text, 7).unwrap(), 6);
}

#[test]
fn cursor_in_units_maps_to_bytes() {
    let text = "é👒a";
    assert_eq!(cursor_byte_index(text, 1).unwrap(), 0);
    assert_eq!(cursor_byte_index(text, 2).unwrap(), 2);
    assert_eq!(cursor_byte_index(text, 3).unwrap(), 2);
    assert_eq!(cursor_byte_index(text, 4).unwrap(), 6);
}

#[test]
fn cursor_out_of_range() {
    assert!(cursor_byte_index("", 0).is_err());
    assert!(cursor_byte_index("abc", 4).is_err());
    assert_eq!(
        cursor_byte_index("abc", 4).unwrap_err().message(),
        "Cannot search around a sentence that is not in the document"
    );
}

#[test]
fn cursor_sentence_is_first_that_ends_behind_it() {
    let s = vec![0..10, 10..20, 25..30];
    assert_eq!(cursor_sentence_index(&s, 0), Some(0));
    assert_eq!(cursor_sentence_index(&s, 10), Some(0));
    assert_eq!(cursor_sentence_index(&s, 11), Some(1));
    assert_eq!(cursor_sentence_index(&s, 22), Some(2));
    assert_eq!(cursor_sentence_index(&s, 31), Some(2));
    assert_eq!(cursor_sentence_index(&[], 0), None);
}

#[test]
fn hit_sentence_holds_the_hit() {
    let s = vec![0..10, 10..20, 25..30];
    assert_eq!(hit_sentence_index(&s, 0), Some(0));
    assert_eq!(hit_sentence_index(&s, 10), Some(1));
    assert_eq!(hit_sentence_index(&s, 22), Some(2));
    assert_eq!(hit_sentence_index(&s, 29), Some(2));
    assert_eq!(hit_sentence_index(&[], 0), None);
}

#[test]
fn context_around_joins_the_window() {
    let text = "- one\n- two\n- three\n- four";
    let s = vec![2..5, 8..11, 14..19, 22..26];
    assert_eq!(context_around(text, &s, 0).unwrap(), "one");
    assert_eq!(context_around(text, &s, 9).unwrap(), "onetwo");
    assert_eq!(context_around(text, &s, 26).unwrap(), "twothreefour");
    assert!(context_around(text, &s, 27).is_err());
    assert!(context_around(text, &vec![], 3).is_err());
}

#[test]
fn cursor_context_of_a_document() {
    let text = "The math is mathing QED. This is my note. The cat is here. Yes it is.";
    assert_eq!(
        cursor_context(text, 30).unwrap(),
        "The math is mathing QED. This is my note. "
    );
    assert_eq!(cursor_context("The cat is here", 0).unwrap(), "The cat is here");
    assert!(cursor_context("", 0).is_err());
    assert!(cursor_context("   ", 1).is_err());
}

#[test]
fn context_window_of_a_hit() {
    let body = "é one. 👒 two. three.";
    // "é one. " is 8 bytes, "👒 two. " is 10 bytes, "three." is 6 bytes.
    let s = vec![0..8, 8..18, 18..24];
    let w = context_window(body, &s, 8, 3).unwrap();
    assert_eq!(w.text, "é one. 👒 two. ");
    assert_eq!(w.relevant_range, 7..15);
    let w = context_window(body, &s, 18, 3).unwrap();
    assert_eq!(w.text, body);
    assert_eq!(w.relevant_range, 15..21);
    assert!(context_window(body, &s, 0, 0).is_none());
    assert!(context_window(body, &s, 0, 1).is_none());
    assert!(context_window(body, &vec![], 0, 3).is_none());
}

#[test]
fn test_note_context() {
    let body = "The math is mathing QED. The math is mathing QED. This is my note. The cat is here. Yes it is.";
    let hit_start = body.find("The cat is here").unwrap();
    let found = result_context(body, hit_start, 3).unwrap();
    assert_eq!(
        found.text,
        "The math is mathing QED. This is my note. The cat is here. "
    );
    assert_eq!(found.relevant_range, 42..59);
}
