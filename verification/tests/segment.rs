use contextual::segment::chunk_text;

#[test]
fn test_chunk_text() {
    let text = "- this is a note\n    \t- this is a nested note\n- this is another note. This is another\n\r\t12. hello world\n\t3) this is a numbered list\n- this is another note\nThis\nis\na\nnote\n   ";
    let ranges = chunk_text(text);
    assert_eq!(
        ranges
            .into_iter()
            .map(|range| &text[range])
            .collect::<Vec<_>>(),
        vec![
            "this is a note",
            "this is a nested note",
            "this is another note. ",
            "This is another",
            "hello world",
            "this is a numbered list",
            "this is another note",
            "This\nis\na\nnote",
        ]
    )
}

fn texts<'a>(text: &'a str, ranges: Vec<std::ops::Range<usize>>) -> Vec<&'a str> {
    ranges.into_iter().map(|range| &text[range]).collect()
}

#[test]
fn unmarked_lines_between_marked_lines_are_dropped() {
    let text = "- a\nfoo\n- b";
    assert_eq!(texts(text, chunk_text(text)), vec!["a", "b"]);
    assert_eq!(
        texts(text, contextual::segment::block_segments(text)),
        vec!["a", "b"]
    );
}

#[test]
fn text_without_markers_is_one_trimmed_block() {
    let text = "  \n Hello there. General Kenobi.\nYou are bold.  \n ";
    assert_eq!(
        texts(text, contextual::segment::block_segments(text)),
        vec!["Hello there. General Kenobi.\nYou are bold."]
    );
    assert_eq!(
        texts(text, chunk_text(text)),
        vec!["Hello there. ", "General Kenobi.\n", "You are bold."]
    );
}

#[test]
fn unmarked_text_behind_the_last_marked_line_is_one_block() {
    let text = "1. one\ntwo\n\nthree\n";
    assert_eq!(
        texts(text, contextual::segment::block_segments(text)),
        vec!["one", "two\n\nthree"]
    );
}

#[test]
fn markers_without_text_give_no_chunk() {
    assert!(chunk_text("").is_empty());
    assert!(chunk_text("   \n\t ").is_empty());
    assert!(chunk_text("-").is_empty());
    assert!(chunk_text("-   ").is_empty());
    assert!(chunk_text("12.").is_empty());
    assert!(chunk_text(" 3) \n- \n").is_empty());
    assert_eq!(contextual::segment::block_segments("-"), vec![1..1]);
    assert_eq!(contextual::segment::block_segments("- \n12."), vec![2..2, 6..6]);
}

#[test]
fn white_space_behind_the_last_marked_line_gives_no_chunk() {
    let text = "- a\n   ";
    assert_eq!(texts(text, chunk_text(text)), vec!["a"]);
}

#[test]
fn markers_are_consumed_with_what_follows_them() {
    let text = "-- x\n3.14 is pi\n  7 ) . seven\n-\ty";
    assert_eq!(
        texts(text, contextual::segment::block_segments(text)),
        vec!["- x", "is pi", "seven", "y"]
    );
}

#[test]
fn chunks_are_byte_ranges() {
    let text = "- é one\n- 👒 two";
    assert_eq!(chunk_text(text), vec![2..8, 11..19]);
    assert_eq!(texts(text, chunk_text(text)), vec!["é one", "👒 two"]);
}

#[test]
fn white_space_and_digits_of_any_script_count() {
    let text = "\u{a0}-\u{2003}x\n\u{663}) three";
    assert_eq!(
        texts(text, contextual::segment::block_segments(text)),
        vec!["x", "three"]
    );
}

#[test]
fn sentences_of_a_block_are_moved_into_the_text() {
    let text = "1) First. Second.\n2) Third.";
    assert_eq!(chunk_text(text), vec![3..10, 10..17, 21..27]);
}

#[test]
fn shift_ranges_moves_each_range() {
    assert_eq!(
        contextual::segment::shift_ranges(&vec![0..3, 3..7], 10),
        vec![10..13, 13..17]
    );
    assert!(contextual::segment::shift_ranges(&Vec::new(), 10).is_empty());
}

#[test]
fn sentence_chunks_ignore_markers() {
    let text = "- one. Two.\n- three";
    assert_eq!(
        texts(text, contextual::segment::sentence_chunks(text)),
        vec!["- one. ", "Two.\n", "- three"]
    );
    assert!(contextual::segment::sentence_chunks("").is_empty());
}

#[test]
fn chunks_begin_and_end_where_code_points_do() {
    let text = "- é👒 one. 👒é two.\n越 three. é\n";
    for range in chunk_text(text) {
        assert!(text.is_char_boundary(range.start));
        assert!(text.is_char_boundary(range.end));
    }
    for range in contextual::segment::sentence_chunks(text) {
        assert!(text.is_char_boundary(range.start));
        assert!(text.is_char_boundary(range.end));
    }
}

#[test]
fn chunks_of_unmarked_text_lie_within_the_trimmed_text() {
    let text = " \n  One here. Two there.\nThree.  \n ";
    let from = text.find('O').unwrap();
    let to = text.rfind('.').unwrap() + 1;
    let ranges = chunk_text(text);
    assert!(!ranges.is_empty());
    assert_eq!(ranges[0].start, from);
    assert_eq!(ranges[ranges.len() - 1].end, to);
    for range in ranges {
        assert!(from <= range.start && range.start <= range.end && range.end <= to);
    }
}
