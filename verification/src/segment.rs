//! Cutting a note into the units that are indexed: the remainder of each
//! bulleted or numbered line, the unmarked text after the last such line, and
//! within each of these blocks its sentences.

use crate::text::{
    byte_offset, lemma_boundary_of_piece, lemma_byte_offset_monotonic, lemma_subrange_len, numeric,
    on_boundary, utf8_len, whitespace, Offsets,
};
use kalosm_language::search::SentenceChunker;
use std::ops::Range;
use vstd::prelude::*;

verus! {

/// The two ends of a range, as mathematical integers.
pub open spec fn span_of(r: Range<usize>) -> (int, int) {
    (r.start as int, r.end as int)
}

/// The ends of each range of `v`.
pub open spec fn spans(v: Seq<Range<usize>>) -> Seq<(int, int)> {
    v.map_values(|r: Range<usize>| span_of(r))
}

/// The pairs of `v`, as mathematical integers.
pub open spec fn pairs(v: Seq<(usize, usize)>) -> Seq<(int, int)> {
    v.map_values(|p: (usize, usize)| (p.0 as int, p.1 as int))
}

/// First index in `from..to` whose code point is not white space; `to` if there is none.
pub open spec fn skip_whitespace(text: Seq<char>, from: int, to: int) -> int
    decreases to - from,
{
    if from < to && whitespace(text[from]) {
        skip_whitespace(text, from + 1, to)
    } else {
        from
    }
}

/// Whether `c` may stand in the numbering at the head of a list item.
pub open spec fn numbering(c: char) -> bool {
    numeric(c) || c == ')' || c == '.' || whitespace(c)
}

/// First index in `from..to` whose code point is not part of a numbering; `to` if there is none.
pub open spec fn skip_numbering(text: Seq<char>, from: int, to: int) -> int
    decreases to - from,
{
    if from < to && numbering(text[from]) {
        skip_numbering(text, from + 1, to)
    } else {
        from
    }
}

/// The least `end` in `from..=to` such that `text[end..to]` is all white space.
pub open spec fn trim_end(text: Seq<char>, from: int, to: int) -> int
    decreases to - from,
{
    if from < to && whitespace(text[to - 1]) {
        trim_end(text, from, to - 1)
    } else {
        to
    }
}

/// The block that the line `text[start..end]` contributes: behind a leading
/// `-` and the white space after it, or behind a leading numbering, the rest of
/// the line. A line that begins otherwise contributes nothing.
pub open spec fn line_block(text: Seq<char>, start: int, end: int) -> Option<(int, int)> {
    let first = skip_whitespace(text, start, end);
    if first < end && text[first] == '-' {
        Some((skip_whitespace(text, first + 1, end), end))
    } else if first < end && numeric(text[first]) {
        Some((skip_numbering(text, first, end), end))
    } else {
        None
    }
}

/// Zero or one block, as a sequence.
pub open spec fn optional_block(block: Option<(int, int)>) -> Seq<(int, int)> {
    match block {
        Some(b) => seq![b],
        None => seq![],
    }
}

/// The blocks of the marked lines of `text`, from the line that begins at
/// `start` on; `pos` runs over that line in search of its end.
pub open spec fn marked_blocks(text: Seq<char>, start: int, pos: int) -> Seq<(int, int)>
    decreases text.len() - pos,
{
    if pos >= text.len() {
        optional_block(line_block(text, start, text.len() as int))
    } else if text[pos] == '\n' {
        optional_block(line_block(text, start, pos)) + marked_blocks(text, pos + 1, pos + 1)
    } else {
        marked_blocks(text, start, pos + 1)
    }
}

/// End of the last marked line of `text`, from the line that begins at `start`
/// on; `cursor` if none of these lines is marked.
pub open spec fn last_marked_end(text: Seq<char>, start: int, pos: int, cursor: int) -> int
    decreases text.len() - pos,
{
    if pos >= text.len() {
        if line_block(text, start, text.len() as int) is Some {
            text.len() as int
        } else {
            cursor
        }
    } else if text[pos] == '\n' {
        last_marked_end(
            text,
            pos + 1,
            pos + 1,
            if line_block(text, start, pos) is Some {
                pos
            } else {
                cursor
            },
        )
    } else {
        last_marked_end(text, start, pos + 1, cursor)
    }
}

/// What is left of `text[cursor..]` once white space is trimmed from both
/// ends, unless nothing is left.
pub open spec fn trailing_block(text: Seq<char>, cursor: int) -> Option<(int, int)> {
    let first = skip_whitespace(text, cursor, text.len() as int);
    if first < text.len() {
        Some((first, trim_end(text, first, text.len() as int)))
    } else {
        None
    }
}

/// The blocks of `text`, each as a pair of code point indices: those of its
/// marked lines, then the trimmed text behind the last marked line.
pub open spec fn blocks(text: Seq<char>) -> Seq<(int, int)> {
    marked_blocks(text, 0, 0) + optional_block(trailing_block(text, last_marked_end(text, 0, 0, 0)))
}

/// The sentences of `text`, as byte ranges into its UTF-8 encoding: what the
/// sentence chunker with its built-in rules answers for `text`.
pub uninterp spec fn sentence_ranges(text: Seq<char>) -> Seq<(int, int)>;

/// Every range lies within `0..=len`, and each begins where the one before it ended.
pub open spec fn consecutive_within(ranges: Seq<(int, int)>, len: int) -> bool {
    &&& forall|i: int|
        0 <= i < ranges.len() ==> 0 <= (#[trigger] ranges[i]).0 <= ranges[i].1 <= len
    &&& forall|i: int| 0 <= i < ranges.len() - 1 ==> (#[trigger] ranges[i]).1 == ranges[i + 1].0
}

/// Both ends of every range are boundaries of `text`: a code point begins
/// there, or the text ends there.
pub open spec fn on_boundaries(ranges: Seq<(int, int)>, text: Seq<char>) -> bool {
    forall|i: int|
        0 <= i < ranges.len() ==> on_boundary(text, (#[trigger] ranges[i]).0) && on_boundary(
            text,
            ranges[i].1,
        )
}

/// Whether `range` lies within one of `spans`.
pub open spec fn in_some_span(range: (int, int), spans: Seq<(int, int)>) -> bool {
    exists|k: int|
        0 <= k < spans.len() && (#[trigger] spans[k]).0 <= range.0 && range.1 <= spans[k].1
}

/// Whether each of `ranges` lies within one of `spans`.
pub open spec fn each_in_some_span(ranges: Seq<(int, int)>, spans: Seq<(int, int)>) -> bool {
    forall|i: int| 0 <= i < ranges.len() ==> in_some_span(#[trigger] ranges[i], spans)
}

/// Every range lies within `0..=len`, and none begins before an earlier one ended.
pub open spec fn ordered_within(ranges: Seq<(int, int)>, len: int) -> bool {
    &&& forall|i: int|
        0 <= i < ranges.len() ==> 0 <= (#[trigger] ranges[i]).0 <= ranges[i].1 <= len
    &&& forall|i: int, j: int|
        0 <= i < j < ranges.len() ==> (#[trigger] ranges[i]).1 <= (#[trigger] ranges[j]).0
}

/// `ranges`, each moved up by `by`.
pub open spec fn shifted(ranges: Seq<(int, int)>, by: int) -> Seq<(int, int)> {
    ranges.map_values(|r: (int, int)| (r.0 + by, r.1 + by))
}

/// The sentences of one block, as byte ranges into the whole text.
pub open spec fn block_sentences(text: Seq<char>, block: (int, int)) -> Seq<(int, int)> {
    shifted(
        sentence_ranges(text.subrange(block.0, block.1)),
        byte_offset(text, block.0) as int,
    )
}

/// The sentences of the given blocks, block after block.
pub open spec fn sentences_of(text: Seq<char>, blocks: Seq<(int, int)>) -> Seq<(int, int)>
    decreases blocks.len(),
{
    if blocks.len() == 0 {
        seq![]
    } else {
        sentences_of(text, blocks.drop_last()) + block_sentences(text, blocks.last())
    }
}

/// The chunks of `text`, as byte ranges: the sentences of its blocks.
pub open spec fn chunks(text: Seq<char>) -> Seq<(int, int)> {
    sentences_of(text, blocks(text))
}

/// The byte ranges of blocks given as pairs of code point indices.
pub open spec fn byte_spans(text: Seq<char>, blocks: Seq<(int, int)>) -> Seq<(int, int)> {
    blocks.map_values(|b: (int, int)| (byte_offset(text, b.0) as int, byte_offset(text, b.1) as int))
}

proof fn lemma_skip_whitespace_bounds(text: Seq<char>, from: int, to: int)
    requires
        from <= to,
    ensures
        from <= skip_whitespace(text, from, to) <= to,
    decreases to - from,
{
    if from < to && whitespace(text[from]) {
        lemma_skip_whitespace_bounds(text, from + 1, to);
    }
}

proof fn lemma_skip_numbering_bounds(text: Seq<char>, from: int, to: int)
    requires
        from <= to,
    ensures
        from <= skip_numbering(text, from, to) <= to,
    decreases to - from,
{
    if from < to && numbering(text[from]) {
        lemma_skip_numbering_bounds(text, from + 1, to);
    }
}

proof fn lemma_trim_end_bounds(text: Seq<char>, from: int, to: int)
    requires
        from <= to,
    ensures
        from <= trim_end(text, from, to) <= to,
    decreases to - from,
{
    if from < to && whitespace(text[to - 1]) {
        lemma_trim_end_bounds(text, from, to - 1);
    }
}

proof fn lemma_line_block_bounds(text: Seq<char>, start: int, end: int)
    requires
        start <= end,
    ensures
        match line_block(text, start, end) {
            Some(b) => start <= b.0 <= b.1 == end,
            None => true,
        },
{
    lemma_skip_whitespace_bounds(text, start, end);
    let first = skip_whitespace(text, start, end);
    if first < end {
        lemma_skip_whitespace_bounds(text, first + 1, end);
        lemma_skip_numbering_bounds(text, first, end);
    }
}

proof fn lemma_marked_blocks_ordered(text: Seq<char>, start: int, pos: int, cursor: int)
    requires
        0 <= cursor <= start <= pos <= text.len(),
    ensures
        cursor <= last_marked_end(text, start, pos, cursor) <= text.len(),
        forall|i: int|
            0 <= i < marked_blocks(text, start, pos).len() ==> start <= (#[trigger] marked_blocks(
                text,
                start,
                pos,
            )[i]).0 <= marked_blocks(text, start, pos)[i].1 <= last_marked_end(
                text,
                start,
                pos,
                cursor,
            ),
        forall|i: int, j: int|
            0 <= i < j < marked_blocks(text, start, pos).len() ==> (#[trigger] marked_blocks(
                text,
                start,
                pos,
            )[i]).1 <= (#[trigger] marked_blocks(text, start, pos)[j]).0,
    decreases text.len() - pos,
{
    let marked = marked_blocks(text, start, pos);
    let end = last_marked_end(text, start, pos, cursor);
    if pos >= text.len() {
        lemma_line_block_bounds(text, start, text.len() as int);
        assert(marked == optional_block(line_block(text, start, text.len() as int)));
        assert(marked.len() <= 1);
        if marked.len() == 1 {
            assert(line_block(text, start, text.len() as int) == Some(marked[0]));
        }
    } else if text[pos] == '\n' {
        lemma_line_block_bounds(text, start, pos);
        let next = if line_block(text, start, pos) is Some {
            pos
        } else {
            cursor
        };
        lemma_marked_blocks_ordered(text, pos + 1, pos + 1, next);
        let head = optional_block(line_block(text, start, pos));
        let rest = marked_blocks(text, pos + 1, pos + 1);
        assert(marked == head + rest);
        assert(end == last_marked_end(text, pos + 1, pos + 1, next));
        assert forall|i: int| 0 <= i < marked.len() implies start <= (#[trigger] marked[i]).0
            <= marked[i].1 <= end && (i < head.len() ==> marked[i].1 <= pos) && (i >= head.len()
            ==> pos < marked[i].0) by {
            if i < head.len() {
                assert(marked[i] == head[i]);
                assert(line_block(text, start, pos) == Some(marked[i]));
            } else {
                assert(marked[i] == rest[i - head.len()]);
            }
        }
        assert forall|i: int, j: int| 0 <= i < j < marked.len() implies (#[trigger] marked[i]).1
            <= (#[trigger] marked[j]).0 by {
            if i >= head.len() {
                assert(marked[i] == rest[i - head.len()]);
                assert(marked[j] == rest[j - head.len()]);
            }
        }
    } else {
        lemma_marked_blocks_ordered(text, start, pos + 1, cursor);
        assert(marked == marked_blocks(text, start, pos + 1));
        assert(end == last_marked_end(text, start, pos + 1, cursor));
    }
}

/// The blocks of a text lie within it, and none begins before an earlier one ended.
pub proof fn lemma_blocks_ordered(text: Seq<char>)
    ensures
        ordered_within(blocks(text), text.len() as int),
{
    lemma_marked_blocks_ordered(text, 0, 0, 0);
    let marked = marked_blocks(text, 0, 0);
    let cursor = last_marked_end(text, 0, 0, 0);
    lemma_skip_whitespace_bounds(text, cursor, text.len() as int);
    let first = skip_whitespace(text, cursor, text.len() as int);
    lemma_trim_end_bounds(text, first, text.len() as int);
    let all = blocks(text);
    assert forall|i: int| 0 <= i < all.len() implies 0 <= (#[trigger] all[i]).0 <= all[i].1
        <= text.len() && (i < marked.len() ==> all[i].1 <= cursor) && (i >= marked.len()
        ==> cursor <= all[i].0) by {
        if i < marked.len() {
            assert(all[i] == marked[i]);
        }
    }
    assert forall|i: int, j: int| 0 <= i < j < all.len() implies (#[trigger] all[i]).1 <= (
    #[trigger] all[j]).0 by {
        if j < marked.len() {
            assert(all[i] == marked[i]);
            assert(all[j] == marked[j]);
        }
    }
}

proof fn lemma_no_marked_line(text: Seq<char>, start: int, pos: int, cursor: int)
    requires
        0 <= start <= pos <= text.len(),
        marked_blocks(text, start, pos).len() == 0,
    ensures
        last_marked_end(text, start, pos, cursor) == cursor,
    decreases text.len() - pos,
{
    if pos >= text.len() {
    } else if text[pos] == '\n' {
        let head = optional_block(line_block(text, start, pos));
        let rest = marked_blocks(text, pos + 1, pos + 1);
        assert(marked_blocks(text, start, pos) == head + rest);
        assert(head.len() == 0 && rest.len() == 0);
        lemma_no_marked_line(text, pos + 1, pos + 1, cursor);
    } else {
        lemma_no_marked_line(text, start, pos + 1, cursor);
    }
}

/// A text without a marked line is one block: the whole text, trimmed; or
/// none, if the text is all white space.
pub proof fn lemma_unmarked_text_is_one_block(text: Seq<char>)
    requires
        marked_blocks(text, 0, 0).len() == 0,
    ensures
        blocks(text) == optional_block(trailing_block(text, 0)),
{
    lemma_no_marked_line(text, 0, 0, 0);
    assert(marked_blocks(text, 0, 0) + optional_block(trailing_block(text, 0)) =~= optional_block(
        trailing_block(text, 0),
    ));
}

/// Whether `text[start..end]` is a line of `text`: it begins at the start of
/// the text or behind a line feed, ends at the end of the text or before a
/// line feed, and holds no line feed.
pub open spec fn is_line(text: Seq<char>, start: int, end: int) -> bool {
    &&& 0 <= start <= end <= text.len()
    &&& (start == 0 || text[start - 1] == '\n')
    &&& (end == text.len() || text[end] == '\n')
    &&& forall|i: int| start <= i < end ==> text[i] != '\n'
}

/// Whether no line of `text` is marked: none begins, behind white space,
/// with a hyphen or with a number.
pub open spec fn no_line_marked(text: Seq<char>) -> bool {
    forall|start: int, end: int| #[trigger]
        is_line(text, start, end) ==> line_block(text, start, end) is None
}

proof fn lemma_lines_unmarked(text: Seq<char>, start: int, pos: int)
    requires
        no_line_marked(text),
        0 <= start <= pos <= text.len(),
        start == 0 || text[start - 1] == '\n',
        forall|i: int| start <= i < pos ==> text[i] != '\n',
    ensures
        marked_blocks(text, start, pos).len() == 0,
    decreases text.len() - pos,
{
    if pos >= text.len() {
        assert(is_line(text, start, text.len() as int));
    } else if text[pos] == '\n' {
        assert(is_line(text, start, pos));
        lemma_lines_unmarked(text, pos + 1, pos + 1);
    } else {
        lemma_lines_unmarked(text, start, pos + 1);
    }
}

/// The chunks of a text without a marked line lie within the text trimmed of
/// white space at both ends; a text that is all white space has no chunk.
pub proof fn lemma_chunks_of_unmarked_text(text: Seq<char>)
    requires
        no_line_marked(text),
        each_in_some_span(chunks(text), byte_spans(text, blocks(text))),
    ensures
        blocks(text) == optional_block(trailing_block(text, 0)),
        match trailing_block(text, 0) {
            Some(trimmed) => forall|i: int|
                0 <= i < chunks(text).len() ==> byte_offset(text, trimmed.0) <= (
                #[trigger] chunks(text)[i]).0 && chunks(text)[i].1 <= byte_offset(text, trimmed.1),
            None => chunks(text).len() == 0,
        },
{
    lemma_lines_unmarked(text, 0, 0);
    lemma_unmarked_text_is_one_block(text);
    let spans = byte_spans(text, blocks(text));
    match trailing_block(text, 0) {
        Some(trimmed) => {
            assert(spans.len() == 1);
            assert(spans[0] == (byte_offset(text, trimmed.0) as int, byte_offset(text, trimmed.1) as int));
            assert forall|i: int| 0 <= i < chunks(text).len() implies byte_offset(text, trimmed.0)
                <= (#[trigger] chunks(text)[i]).0 && chunks(text)[i].1 <= byte_offset(
                text,
                trimmed.1,
            ) by {
                assert(in_some_span(chunks(text)[i], spans));
            }
        },
        None => {
            assert(blocks(text).len() == 0);
        },
    }
}

/// Ranges that follow one another without a gap are in order.
pub proof fn lemma_consecutive_is_ordered(ranges: Seq<(int, int)>, len: int)
    requires
        consecutive_within(ranges, len),
    ensures
        ordered_within(ranges, len),
{
    assert forall|i: int, j: int| 0 <= i < j < ranges.len() implies (#[trigger] ranges[i]).1 <= (
    #[trigger] ranges[j]).0 by {
        lemma_consecutive_step(ranges, len, i, j);
    }
}

proof fn lemma_consecutive_step(ranges: Seq<(int, int)>, len: int, i: int, j: int)
    requires
        consecutive_within(ranges, len),
        0 <= i < j < ranges.len(),
    ensures
        ranges[i].1 <= ranges[j].0,
    decreases j - i,
{
    if i + 1 < j {
        lemma_consecutive_step(ranges, len, i, j - 1);
        assert(ranges[j - 1].1 == ranges[j].0);
    }
}

/// Whether the sentences of each of the given blocks follow one another
/// within the block.
pub open spec fn sentences_consecutive(text: Seq<char>, blocks: Seq<(int, int)>) -> bool {
    forall|k: int|
        0 <= k < blocks.len() ==> consecutive_within(
            sentence_ranges(text.subrange((#[trigger] blocks[k]).0, blocks[k].1)),
            utf8_len(text.subrange(blocks[k].0, blocks[k].1)) as int,
        )
}

/// Whether the sentences of each of the given blocks begin and end on
/// boundaries of the block.
pub open spec fn sentences_on_boundaries(text: Seq<char>, blocks: Seq<(int, int)>) -> bool {
    forall|k: int|
        0 <= k < blocks.len() ==> on_boundaries(
            sentence_ranges(text.subrange((#[trigger] blocks[k]).0, blocks[k].1)),
            text.subrange(blocks[k].0, blocks[k].1),
        )
}

/// Where the sentences of each block follow one another within the block, on
/// boundaries of the block, each sentence of the blocks lies within the bytes
/// of its block, and begins and ends on boundaries of the text.
pub proof fn lemma_sentences_in_blocks(text: Seq<char>, blocks: Seq<(int, int)>)
    requires
        ordered_within(blocks, text.len() as int),
        sentences_consecutive(text, blocks),
        sentences_on_boundaries(text, blocks),
    ensures
        on_boundaries(sentences_of(text, blocks), text),
        each_in_some_span(sentences_of(text, blocks), byte_spans(text, blocks)),
    decreases blocks.len(),
{
    if blocks.len() > 0 {
        let earlier = blocks.drop_last();
        let block = blocks.last();
        let last = blocks.len() - 1;
        assert(block == blocks[last]);
        assert forall|k: int| 0 <= k < earlier.len() implies #[trigger] earlier[k] == blocks[k] by {}
        assert(ordered_within(earlier, text.len() as int)) by {
            assert forall|i: int| 0 <= i < earlier.len() implies 0 <= (#[trigger] earlier[i]).0
                <= earlier[i].1 <= text.len() by {
                assert(earlier[i] == blocks[i]);
            }
            assert forall|i: int, j: int| 0 <= i < j < earlier.len() implies (
            #[trigger] earlier[i]).1 <= (#[trigger] earlier[j]).0 by {
                assert(earlier[i] == blocks[i]);
                assert(earlier[j] == blocks[j]);
            }
        }
        assert(sentences_consecutive(text, earlier)) by {
            assert forall|k: int| 0 <= k < earlier.len() implies consecutive_within(
                sentence_ranges(text.subrange((#[trigger] earlier[k]).0, earlier[k].1)),
                utf8_len(text.subrange(earlier[k].0, earlier[k].1)) as int,
            ) by {
                assert(earlier[k] == blocks[k]);
            }
        }
        assert(sentences_on_boundaries(text, earlier)) by {
            assert forall|k: int| 0 <= k < earlier.len() implies on_boundaries(
                sentence_ranges(text.subrange((#[trigger] earlier[k]).0, earlier[k].1)),
                text.subrange(earlier[k].0, earlier[k].1),
            ) by {
                assert(earlier[k] == blocks[k]);
            }
        }
        lemma_sentences_in_blocks(text, earlier);
        let before = sentences_of(text, earlier);
        let piece = text.subrange(block.0, block.1);
        let inner = sentence_ranges(piece);
        let by = byte_offset(text, block.0) as int;
        let here = block_sentences(text, block);
        let all = sentences_of(text, blocks);
        let spans_all = byte_spans(text, blocks);
        let spans_earlier = byte_spans(text, earlier);
        assert(all == before + here);
        lemma_subrange_len(text, block.0, block.1);
        assert(consecutive_within(inner, utf8_len(piece) as int));
        assert(on_boundaries(inner, piece));
        assert(spans_all[last] == (by, byte_offset(text, block.1) as int));
        assert forall|i: int| 0 <= i < all.len() implies on_boundary(text, (#[trigger] all[i]).0)
            && on_boundary(text, all[i].1) && in_some_span(all[i], spans_all) by {
            if i < before.len() {
                assert(all[i] == before[i]);
                assert(in_some_span(before[i], spans_earlier));
                let k = choose|k: int|
                    0 <= k < spans_earlier.len() && (#[trigger] spans_earlier[k]).0 <= before[i].0
                        && before[i].1 <= spans_earlier[k].1;
                assert(spans_all[k] == spans_earlier[k]);
            } else {
                let j = i - before.len();
                assert(all[i] == here[j]);
                assert(here[j] == (inner[j].0 + by, inner[j].1 + by));
                lemma_boundary_of_piece(text, block.0, block.1, inner[j].0);
                lemma_boundary_of_piece(text, block.0, block.1, inner[j].1);
                assert(spans_all[last].0 <= all[i].0 && all[i].1 <= spans_all[last].1);
            }
        }
    }
}

/// Where the blocks are in order and the sentences of each follow one another
/// within it, the sentences of all the blocks are in order within the text.
pub proof fn lemma_sentences_ordered(text: Seq<char>, blocks: Seq<(int, int)>)
    requires
        ordered_within(blocks, text.len() as int),
        sentences_consecutive(text, blocks),
    ensures
        ordered_within(sentences_of(text, blocks), utf8_len(text) as int),
        blocks.len() > 0 ==> forall|i: int|
            0 <= i < sentences_of(text, blocks).len() ==> (#[trigger] sentences_of(
                text,
                blocks,
            )[i]).1 <= byte_offset(text, blocks.last().1),
    decreases blocks.len(),
{
    if blocks.len() > 0 {
        let earlier = blocks.drop_last();
        let block = blocks.last();
        assert(block == blocks[blocks.len() - 1]);
        assert forall|k: int| 0 <= k < earlier.len() implies consecutive_within(
            sentence_ranges(text.subrange((#[trigger] earlier[k]).0, earlier[k].1)),
            utf8_len(text.subrange(earlier[k].0, earlier[k].1)) as int,
        ) by {
            assert(earlier[k] == blocks[k]);
        }
        assert(ordered_within(earlier, text.len() as int)) by {
            assert forall|i: int| 0 <= i < earlier.len() implies 0 <= (#[trigger] earlier[i]).0
                <= earlier[i].1 <= text.len() by {
                assert(earlier[i] == blocks[i]);
            }
            assert forall|i: int, j: int| 0 <= i < j < earlier.len() implies (
            #[trigger] earlier[i]).1 <= (#[trigger] earlier[j]).0 by {
                assert(earlier[i] == blocks[i]);
                assert(earlier[j] == blocks[j]);
            }
        }
        lemma_sentences_ordered(text, earlier);
        let before = sentences_of(text, earlier);
        let inner = sentence_ranges(text.subrange(block.0, block.1));
        let by = byte_offset(text, block.0) as int;
        let here = block_sentences(text, block);
        let all = sentences_of(text, blocks);
        assert(all == before + here);
        lemma_subrange_len(text, block.0, block.1);
        lemma_consecutive_is_ordered(inner, utf8_len(text.subrange(block.0, block.1)) as int);
        lemma_byte_offset_monotonic(text, block.1, text.len() as int);
        assert(text.take(text.len() as int) =~= text);
        if earlier.len() > 0 {
            assert(earlier.last() == blocks[blocks.len() - 2]);
            lemma_byte_offset_monotonic(text, earlier.last().1, block.0);
        }
        assert forall|i: int| 0 <= i < all.len() implies 0 <= (#[trigger] all[i]).0 <= all[i].1
            <= byte_offset(text, block.1) && (i >= before.len() ==> by <= all[i].0) && (i
            < before.len() ==> all[i].1 <= by) by {
            if i < before.len() {
                assert(all[i] == before[i]);
            } else {
                assert(all[i] == here[i - before.len()]);
                assert(here[i - before.len()] == (
                    inner[i - before.len()].0 + by,
                    inner[i - before.len()].1 + by,
                ));
            }
        }
        assert forall|i: int, j: int| 0 <= i < j < all.len() implies (#[trigger] all[i]).1 <= (
        #[trigger] all[j]).0 by {
            if j < before.len() {
                assert(all[i] == before[i]);
                assert(all[j] == before[j]);
            } else if i >= before.len() {
                assert(all[i] == here[i - before.len()]);
                assert(all[j] == here[j - before.len()]);
                assert(inner[i - before.len()].1 <= inner[j - before.len()].0);
            }
        }
    }
}

/// Calls `SentenceChunker::split_sentences` on a chunker with the default
/// rules. The answer depends on `text` alone and is named [`sentence_ranges`].
/// Of the ranges it is claimed only that they lie within the bytes of `text`,
/// that each begins where the one before it ended, and that they begin and
/// end where a code point begins or the text ends, as the loop that collects
/// them shows: it cuts at the indices of the code points, and at the end.
#[verifier::external_body]
pub(crate) fn split_sentences(text: &str) -> (ranges: Vec<Range<usize>>)
    ensures
        spans(ranges@) == sentence_ranges(text@),
        consecutive_within(spans(ranges@), utf8_len(text@) as int),
        on_boundaries(spans(ranges@), text@),
{
    SentenceChunker::default().split_sentences(text)
}

fn skip_whitespace_in(chars: &Vec<char>, from: usize, to: usize) -> (at: usize)
    requires
        from <= to <= chars@.len(),
    ensures
        at == skip_whitespace(chars@, from as int, to as int),
        from <= at <= to,
{
    let mut at: usize = from;
    while at < to && chars[at].is_whitespace()
        invariant
            from <= at <= to <= chars@.len(),
            skip_whitespace(chars@, at as int, to as int) == skip_whitespace(
                chars@,
                from as int,
                to as int,
            ),
        decreases to - at,
    {
        at = at + 1;
    }
    at
}

fn is_numbering(c: char) -> (r: bool)
    ensures
        r == numbering(c),
{
    c.is_numeric() || c == ')' || c == '.' || c.is_whitespace()
}

fn skip_numbering_in(chars: &Vec<char>, from: usize, to: usize) -> (at: usize)
    requires
        from <= to <= chars@.len(),
    ensures
        at == skip_numbering(chars@, from as int, to as int),
        from <= at <= to,
{
    let mut at: usize = from;
    while at < to && is_numbering(chars[at])
        invariant
            from <= at <= to <= chars@.len(),
            skip_numbering(chars@, at as int, to as int) == skip_numbering(
                chars@,
                from as int,
                to as int,
            ),
        decreases to - at,
    {
        at = at + 1;
    }
    at
}

fn trim_end_in(chars: &Vec<char>, from: usize, to: usize) -> (end: usize)
    requires
        from <= to <= chars@.len(),
    ensures
        end == trim_end(chars@, from as int, to as int),
        from <= end <= to,
{
    let mut end: usize = to;
    while from < end && chars[end - 1].is_whitespace()
        invariant
            from <= end <= to <= chars@.len(),
            trim_end(chars@, from as int, end as int) == trim_end(chars@, from as int, to as int),
        decreases end - from,
    {
        end = end - 1;
    }
    end
}

fn line_block_in(chars: &Vec<char>, start: usize, end: usize) -> (block: Option<(usize, usize)>)
    requires
        start <= end <= chars@.len(),
    ensures
        match block {
            Some(b) => line_block(chars@, start as int, end as int) == Some((b.0 as int, b.1 as int))
                && start <= b.0 <= b.1 == end,
            None => line_block(chars@, start as int, end as int) is None,
        },
{
    let first: usize = skip_whitespace_in(chars, start, end);
    if first < end && chars[first] == '-' {
        Some((skip_whitespace_in(chars, first + 1, end), end))
    } else if first < end && chars[first].is_numeric() {
        Some((skip_numbering_in(chars, first, end), end))
    } else {
        None
    }
}

/// The blocks of the text with code points `chars`, as pairs of code point indices.
pub fn block_indices(chars: &Vec<char>) -> (found: Vec<(usize, usize)>)
    ensures
        pairs(found@) == blocks(chars@),
        forall|k: int| 0 <= k < found@.len() ==> (#[trigger] found@[k]).0 <= found@[k].1 <= chars@.len(),
{
    let n: usize = chars.len();
    let mut found: Vec<(usize, usize)> = Vec::new();
    let mut cursor: usize = 0;
    let mut start: usize = 0;
    let mut pos: usize = 0;
    assert(pairs(found@) + marked_blocks(chars@, 0, 0) =~= marked_blocks(chars@, 0, 0));
    while pos < n
        invariant
            n == chars@.len(),
            cursor <= start <= pos <= n,
            pairs(found@) + marked_blocks(chars@, start as int, pos as int) == marked_blocks(
                chars@,
                0,
                0,
            ),
            last_marked_end(chars@, start as int, pos as int, cursor as int) == last_marked_end(
                chars@,
                0,
                0,
                0,
            ),
            forall|k: int| 0 <= k < found@.len() ==> (#[trigger] found@[k]).0 <= found@[k].1 <= n,
        decreases n - pos,
    {
        if chars[pos] == '\n' {
            let ghost before = pairs(found@);
            let ghost rest = marked_blocks(chars@, pos as int + 1, pos as int + 1);
            match line_block_in(chars, start, pos) {
                Some(b) => {
                    found.push(b);
                    cursor = pos;
                    assert(pairs(found@) =~= before + seq![(b.0 as int, b.1 as int)]);
                },
                None => {
                    assert(pairs(found@) =~= before + Seq::<(int, int)>::empty());
                },
            }
            assert(pairs(found@) + rest =~= before + (optional_block(
                line_block(chars@, start as int, pos as int),
            ) + rest));
            start = pos + 1;
        }
        pos = pos + 1;
    }
    let ghost before = pairs(found@);
    match line_block_in(chars, start, n) {
        Some(b) => {
            found.push(b);
            cursor = n;
            assert(pairs(found@) =~= before + seq![(b.0 as int, b.1 as int)]);
        },
        None => {
            assert(pairs(found@) =~= before + Seq::<(int, int)>::empty());
        },
    }
    assert(pairs(found@) == marked_blocks(chars@, 0, 0));
    assert(cursor == last_marked_end(chars@, 0, 0, 0));
    let ghost marked = pairs(found@);
    let first: usize = skip_whitespace_in(chars, cursor, n);
    if first < n {
        let end: usize = trim_end_in(chars, first, n);
        found.push((first, end));
        assert(pairs(found@) =~= marked + seq![(first as int, end as int)]);
    } else {
        assert(pairs(found@) =~= marked + Seq::<(int, int)>::empty());
    }
    found
}

/// The ranges of `sentences`, each moved up by `by`: from positions within a
/// block to positions within the text that holds the block at byte `by`.
pub fn shift_ranges(sentences: &Vec<Range<usize>>, by: usize) -> (moved: Vec<Range<usize>>)
    requires
        forall|i: int| 0 <= i < sentences@.len() ==> (#[trigger] sentences@[i]).end + by <= usize::MAX,
        forall|i: int| 0 <= i < sentences@.len() ==> (#[trigger] sentences@[i]).start + by <= usize::MAX,
    ensures
        spans(moved@) == shifted(spans(sentences@), by as int),
{
    let mut moved: Vec<Range<usize>> = Vec::new();
    let mut i: usize = 0;
    while i < sentences.len()
        invariant
            0 <= i <= sentences@.len(),
            forall|i: int|
                0 <= i < sentences@.len() ==> (#[trigger] sentences@[i]).end + by <= usize::MAX,
            forall|i: int|
                0 <= i < sentences@.len() ==> (#[trigger] sentences@[i]).start + by <= usize::MAX,
            spans(moved@) == shifted(spans(sentences@), by as int).take(i as int),
        decreases sentences@.len() - i,
    {
        let ghost before = spans(moved@);
        let start: usize = sentences[i].start + by;
        let end: usize = sentences[i].end + by;
        moved.push(start..end);
        assert(spans(moved@) =~= before + seq![(start as int, end as int)]);
        assert(spans(moved@) =~= shifted(spans(sentences@), by as int).take(i as int + 1));
        i = i + 1;
    }
    assert(shifted(spans(sentences@), by as int).take(sentences@.len() as int) =~= shifted(
        spans(sentences@),
        by as int,
    ));
    moved
}

/// The sentences of `text` as a whole, as byte ranges, with no regard to
/// bullets or numbering: the cut that the classifier judges a note by.
pub fn sentence_chunks(text: &str) -> (ranges: Vec<Range<usize>>)
    ensures
        spans(ranges@) == sentence_ranges(text@),
        ordered_within(spans(ranges@), utf8_len(text@) as int),
        on_boundaries(spans(ranges@), text@),
{
    let ranges: Vec<Range<usize>> = split_sentences(text);
    proof {
        lemma_consecutive_is_ordered(spans(ranges@), utf8_len(text@) as int);
    }
    ranges
}

/// The blocks of `text`, as byte ranges: the remainder of each bulleted or
/// numbered line, then the trimmed text behind the last such line.
pub fn block_segments(text: &str) -> (found: Vec<Range<usize>>)
    ensures
        spans(found@) == byte_spans(text@, blocks(text@)),
{
    let table: Offsets = Offsets::of(text);
    let indices: Vec<(usize, usize)> = block_indices(&table.chars);
    let mut found: Vec<Range<usize>> = Vec::new();
    let mut k: usize = 0;
    let ghost wanted = byte_spans(text@, blocks(text@));
    while k < indices.len()
        invariant
            0 <= k <= indices@.len(),
            table.wf(),
            table.chars@ == text@,
            pairs(indices@) == blocks(text@),
            wanted == byte_spans(text@, blocks(text@)),
            forall|i: int|
                0 <= i < indices@.len() ==> (#[trigger] indices@[i]).0 <= indices@[i].1
                    <= text@.len(),
            spans(found@) == wanted.take(k as int),
        decreases indices@.len() - k,
    {
        let ghost before = spans(found@);
        let start: usize = table.bytes[indices[k].0];
        let end: usize = table.bytes[indices[k].1];
        found.push(start..end);
        proof {
            assert(pairs(indices@)[k as int] == (indices@[k as int].0 as int, indices@[k as int].1 as int));
            assert(spans(found@) =~= before.push((start as int, end as int)));
            assert(spans(found@) =~= wanted.take(k as int + 1));
        }
        k = k + 1;
    }
    assert(wanted.take(indices@.len() as int) =~= wanted);
    found
}

/// Cuts `text` into its chunks: the sentences of each bulleted or numbered
/// line's remainder, then those of the unmarked text behind the last such
/// line. The chunks are byte ranges into `text`, in the order of the text;
/// none overlaps another, each begins and ends where a code point begins or
/// the text ends, and each lies within one block.
pub fn chunk_text(text: &str) -> (ranges: Vec<Range<usize>>)
    ensures
        spans(ranges@) == chunks(text@),
        ordered_within(spans(ranges@), utf8_len(text@) as int),
        on_boundaries(spans(ranges@), text@),
        sentences_consecutive(text@, blocks(text@)),
        each_in_some_span(spans(ranges@), byte_spans(text@, blocks(text@))),
{
    let table: Offsets = Offsets::of(text);
    let found: Vec<(usize, usize)> = block_indices(&table.chars);
    let mut ranges: Vec<Range<usize>> = Vec::new();
    let mut k: usize = 0;
    assert(pairs(found@).take(0) =~= Seq::<(int, int)>::empty());
    while k < found.len()
        invariant
            0 <= k <= found@.len(),
            table.wf(),
            table.chars@ == text@,
            forall|i: int|
                0 <= i < found@.len() ==> (#[trigger] found@[i]).0 <= found@[i].1 <= text@.len(),
            spans(ranges@) == sentences_of(text@, pairs(found@).take(k as int)),
            sentences_consecutive(text@, pairs(found@).take(k as int)),
            sentences_on_boundaries(text@, pairs(found@).take(k as int)),
        decreases found@.len() - k,
    {
        let block: (usize, usize) = found[k];
        let piece: &str = text.substring_char(block.0, block.1);
        let sentences: Vec<Range<usize>> = split_sentences(piece);
        let by: usize = table.bytes[block.0];
        proof {
            lemma_subrange_len(text@, block.0 as int, block.1 as int);
            assert(table.bytes@[block.1 as int] == byte_offset(text@, block.1 as int));
            assert forall|i: int| 0 <= i < sentences@.len() implies (#[trigger] sentences@[i]).end
                + by <= usize::MAX && sentences@[i].start + by <= usize::MAX by {
                assert(spans(sentences@)[i] == span_of(sentences@[i]));
            }
        }
        let mut moved: Vec<Range<usize>> = shift_ranges(&sentences, by);
        let ghost before = spans(ranges@);
        ranges.append(&mut moved);
        proof {
            let upto = pairs(found@).take(k as int + 1);
            assert(upto.drop_last() =~= pairs(found@).take(k as int));
            assert(upto.last() == (block.0 as int, block.1 as int));
            assert(spans(ranges@) =~= before + shifted(spans(sentences@), by as int));
            assert forall|i: int| 0 <= i < upto.len() implies consecutive_within(
                sentence_ranges(text@.subrange((#[trigger] upto[i]).0, upto[i].1)),
                utf8_len(text@.subrange(upto[i].0, upto[i].1)) as int,
            ) by {
                if i < k {
                    assert(upto[i] == pairs(found@).take(k as int)[i]);
                }
            }
            assert forall|i: int| 0 <= i < upto.len() implies on_boundaries(
                sentence_ranges(text@.subrange((#[trigger] upto[i]).0, upto[i].1)),
                text@.subrange(upto[i].0, upto[i].1),
            ) by {
                if i < k {
                    assert(upto[i] == pairs(found@).take(k as int)[i]);
                }
            }
        }
        k = k + 1;
    }
    proof {
        assert(pairs(found@).take(found@.len() as int) =~= pairs(found@));
        lemma_blocks_ordered(text@);
        lemma_sentences_ordered(text@, blocks(text@));
        lemma_sentences_in_blocks(text@, blocks(text@));
    }
    ranges
}

} // verus!
