use contextual::text::{byte_len, char_utf16_len, char_utf8_len, chars_of, Offsets};

#[test]
fn widths_are_those_of_the_encodings() {
    for code in 0..=0x10ffffu32 {
        if let Some(c) = char::from_u32(code) {
            assert_eq!(char_utf8_len(c), c.len_utf8());
            assert_eq!(char_utf16_len(c), c.len_utf16());
        }
    }
}

#[test]
fn widths_at_the_borders() {
    assert_eq!(char_utf8_len('\u{7f}'), 1);
    assert_eq!(char_utf8_len('\u{80}'), 2);
    assert_eq!(char_utf8_len('\u{7ff}'), 2);
    assert_eq!(char_utf8_len('\u{800}'), 3);
    assert_eq!(char_utf8_len('\u{ffff}'), 3);
    assert_eq!(char_utf8_len('\u{10000}'), 4);
    assert_eq!(char_utf16_len('\u{ffff}'), 1);
    assert_eq!(char_utf16_len('\u{10000}'), 2);
}

#[test]
fn code_points_and_lengths() {
    assert_eq!(chars_of("é👒a"), vec!['é', '👒', 'a']);
    assert!(chars_of("").is_empty());
    assert_eq!(byte_len("é👒a"), 7);
    assert_eq!(byte_len(""), 0);
}

#[test]
fn offsets_of_a_text() {
    let table = Offsets::of("é👒a");
    assert_eq!(table.chars, vec!['é', '👒', 'a']);
    assert_eq!(table.bytes, vec![0, 2, 6, 7]);
    assert_eq!(table.units, vec![0, 1, 3, 4]);
    assert_eq!(table.chars_before(0), 0);
    assert_eq!(table.chars_before(1), 1);
    assert_eq!(table.chars_before(2), 1);
    assert_eq!(table.chars_before(3), 2);
    assert_eq!(table.chars_before(6), 2);
    assert_eq!(table.chars_before(7), 3);
    assert_eq!(table.chars_before(100), 3);
    let empty = Offsets::of("");
    assert_eq!(empty.bytes, vec![0]);
    assert_eq!(empty.chars_before(5), 0);
}

#[test]
fn white_space_and_digits_below_128() {
    for code in 0..128u32 {
        let c = char::from_u32(code).unwrap();
        // white space before a bullet is skipped, anything else is not
        let text = format!("{}- x", c);
        let skipped = contextual::segment::block_segments(&text) == vec![3..4];
        assert_eq!(skipped, c == ' ' || (9..=13).contains(&code), "{:?}", c);
        // a digit at the head of a line marks it, as a hyphen does
        let text = format!("{}x\n- y", c);
        let marked = contextual::segment::block_segments(&text).len() == 2;
        assert_eq!(marked, (48..=57).contains(&code) || c == '-', "{:?}", c);
    }
}
