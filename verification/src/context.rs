//! From a position in a text to the sentences around it: which sentence a
//! cursor or a search hit falls in, which window of sentences surrounds it,
//! and where a byte range lies when the text is counted in code points or in
//! UTF-16 units.

use crate::segment::{chunk_text, chunks, ordered_within, span_of, spans};
use crate::text::{
    byte_offset, chars_before, lemma_byte_offset_monotonic, utf16_len, utf16_offset, utf8_len,
    Offsets,
};
use std::ops::Range;
use vstd::prelude::*;
use vstd::string::StringExecFns;

verus! {

/// A cursor that points at no sentence of its document.
#[derive(Debug)]
pub struct CursorOutOfRangeError;

impl CursorOutOfRangeError {
    /// The error in words.
    pub fn message(&self) -> (text: String)
        ensures
            text@ == "Cannot search around a sentence that is not in the document"@,
    {
        String::from_str("Cannot search around a sentence that is not in the document")
    }
}

/// Index behind the last sentence of a window of `window` sentences around
/// sentence `target`, among `len` sentences.
pub open spec fn window_end(len: int, target: int, window: int) -> int {
    if target + window / 2 <= len {
        target + window / 2
    } else {
        len
    }
}

/// Index of the first sentence of a window of `window` sentences that ends at `end`.
pub open spec fn window_start(end: int, window: int) -> int {
    if end >= window {
        end - window
    } else {
        0
    }
}

/// The sentences, by index, that form the window of `sentences_to_include`
/// sentences around the sentence `target_sentence_index`. Half of the window,
/// rounded down, lies behind the target; the window never reaches past the
/// last sentence, and what it would lose at the front of the document it does
/// not make up for at the back.
pub fn get_sentence_range(
    sentences: &[Range<usize>],
    target_sentence_index: usize,
    sentences_to_include: usize,
) -> (window: Range<usize>)
    ensures
        window.end == window_end(
            sentences@.len() as int,
            target_sentence_index as int,
            sentences_to_include as int,
        ),
        window.start == window_start(window.end as int, sentences_to_include as int),
        window.start <= window.end <= sentences@.len(),
{
    let len: usize = sentences.len();
    let half: usize = sentences_to_include / 2;
    let end: usize = if target_sentence_index >= len || half >= len - target_sentence_index {
        len
    } else {
        target_sentence_index + half
    };
    let start: usize = if end >= sentences_to_include {
        end - sentences_to_include
    } else {
        0
    };
    start..end
}

/// A window of three sentences ends behind the sentence that follows the
/// target, if there is one, and begins three sentences before its end, if
/// there are that many.
pub proof fn lemma_window_of_three(len: int, target: int)
    requires
        0 <= target,
        0 <= len,
    ensures
        window_end(len, target, 3) == if target + 1 <= len {
            target + 1
        } else {
            len
        },
        window_start(window_end(len, target, 3), 3) == if window_end(len, target, 3) - 3 >= 0 {
            window_end(len, target, 3) - 3
        } else {
            0
        },
{
}

/// The code points of `text` that begin at a byte in `from..to`.
pub open spec fn byte_slice(text: Seq<char>, from: int, to: int) -> Seq<char> {
    let first = chars_before(text, from);
    let behind = chars_before(text, to);
    if first <= behind {
        text.subrange(first, behind)
    } else {
        Seq::empty()
    }
}

/// The range in UTF-16 units of the code points of `text` that begin at a
/// byte in `from..to`.
pub open spec fn utf16_span(text: Seq<char>, from: int, to: int) -> (int, int) {
    let first = chars_before(text, from);
    let behind = chars_before(text, to);
    let start = utf16_offset(text, first) as int;
    if first <= behind {
        (start, utf16_offset(text, behind) as int)
    } else {
        (start, start)
    }
}

/// The range in code points of the code points of `text` that begin at a byte
/// in `from..to`.
pub open spec fn char_span(text: Seq<char>, from: int, to: int) -> (int, int) {
    let first = chars_before(text, from);
    let behind = chars_before(text, to);
    if first <= behind {
        (first, behind)
    } else {
        (first, first)
    }
}

/// Where the byte range `utf8_range` of `text` lies when `text` is counted in
/// UTF-16 units: it begins behind the units of every code point that begins
/// before the range, and is as long as the units of the code points that
/// begin within it.
pub fn utf8_range_to_utf16_range(utf8_range: Range<usize>, text: &str) -> (utf16_range: Range<
    usize,
>)
    ensures
        span_of(utf16_range) == utf16_span(text@, utf8_range.start as int, utf8_range.end as int),
        utf16_range.start <= utf16_range.end <= utf16_len(text@),
{
    let table: Offsets = Offsets::of(text);
    let first: usize = table.chars_before(utf8_range.start);
    let behind: usize = table.chars_before(utf8_range.end);
    proof {
        assert(text@.take(text@.len() as int) =~= text@);
        lemma_byte_offset_monotonic(text@, first as int, text@.len() as int);
        if first <= behind {
            lemma_byte_offset_monotonic(text@, first as int, behind as int);
            lemma_byte_offset_monotonic(text@, behind as int, text@.len() as int);
        }
    }
    let start: usize = table.units[first];
    if first <= behind {
        start..table.units[behind]
    } else {
        start..start
    }
}

/// Where the byte range `byte_range` of `text` lies when `text` is counted in
/// code points.
pub fn character_range(byte_range: Range<usize>, text: &str) -> (characters: Range<usize>)
    ensures
        span_of(characters) == char_span(text@, byte_range.start as int, byte_range.end as int),
        characters.start <= characters.end <= text@.len(),
{
    let table: Offsets = Offsets::of(text);
    let first: usize = table.chars_before(byte_range.start);
    let behind: usize = table.chars_before(byte_range.end);
    if first <= behind {
        first..behind
    } else {
        first..first
    }
}

/// Index of the first code point from `from` on with which the UTF-16 units
/// counted so far reach `cursor`; the length of `text` if none does.
pub open spec fn cursor_char(text: Seq<char>, cursor: int, from: int) -> int
    decreases text.len() - from,
{
    if from >= text.len() {
        text.len() as int
    } else if utf16_offset(text, from + 1) >= cursor {
        from
    } else {
        cursor_char(text, cursor, from + 1)
    }
}

/// The byte at which the code point under a cursor begins, the cursor given
/// in UTF-16 units: the first code point with which the units counted from the
/// start of `text` reach the cursor. An empty text has no such code point, nor
/// has a text shorter than the cursor demands.
pub fn cursor_byte_index(text: &str, cursor_utf16_index: usize) -> (found: Result<
    usize,
    CursorOutOfRangeError,
>)
    ensures
        found is Ok <==> text@.len() > 0 && cursor_utf16_index <= utf16_len(text@),
        found is Ok ==> cursor_char(text@, cursor_utf16_index as int, 0) < text@.len()
            && found->Ok_0 == byte_offset(text@, cursor_char(text@, cursor_utf16_index as int, 0)),
{
    let table: Offsets = Offsets::of(text);
    let mut i: usize = 0;
    while i < table.chars.len() && table.units[i + 1] < cursor_utf16_index
        invariant
            table.wf(),
            table.chars@ == text@,
            0 <= i <= text@.len(),
            cursor_char(text@, cursor_utf16_index as int, i as int) == cursor_char(
                text@,
                cursor_utf16_index as int,
                0,
            ),
            i > 0 ==> utf16_offset(text@, i as int) < cursor_utf16_index,
        decreases text@.len() - i,
    {
        i = i + 1;
    }
    proof {
        assert(text@.take(text@.len() as int) =~= text@);
        if i < text@.len() {
            lemma_byte_offset_monotonic(text@, i as int + 1, text@.len() as int);
        }
    }
    if i < table.chars.len() {
        Ok(table.bytes[i])
    } else {
        Err(CursorOutOfRangeError)
    }
}

/// The cursor's code point is the first with which the units reach the
/// cursor: no earlier one does.
pub proof fn lemma_cursor_char_is_first(text: Seq<char>, cursor: int, from: int)
    requires
        0 <= from <= text.len(),
    ensures
        from <= cursor_char(text, cursor, from) <= text.len(),
        cursor_char(text, cursor, from) < text.len() ==> utf16_offset(
            text,
            cursor_char(text, cursor, from) + 1,
        ) >= cursor,
        forall|j: int|
            from <= j < cursor_char(text, cursor, from) ==> #[trigger] utf16_offset(text, j + 1)
                < cursor,
    decreases text.len() - from,
{
    if from < text.len() && utf16_offset(text, from + 1) < cursor {
        lemma_cursor_char_is_first(text, cursor, from + 1);
    }
}

/// Index of the first sentence from `from` on that ends at or behind `byte`;
/// the number of sentences if none does.
pub open spec fn first_reaching(sentences: Seq<(int, int)>, byte: int, from: int) -> int
    decreases sentences.len() - from,
{
    if from >= sentences.len() {
        sentences.len() as int
    } else if byte <= sentences[from].1 {
        from
    } else {
        first_reaching(sentences, byte, from + 1)
    }
}

/// Index of the first sentence from `from` on that holds `byte`; the number
/// of sentences if none does.
pub open spec fn first_holding(sentences: Seq<(int, int)>, byte: int, from: int) -> int
    decreases sentences.len() - from,
{
    if from >= sentences.len() {
        sentences.len() as int
    } else if sentences[from].0 <= byte < sentences[from].1 {
        from
    } else {
        first_holding(sentences, byte, from + 1)
    }
}

/// The sentence in which a cursor at `byte` stands: the first that ends at or
/// behind the cursor, or the last sentence if all end before it.
pub open spec fn cursor_sentence(sentences: Seq<(int, int)>, byte: int) -> int {
    if first_reaching(sentences, byte, 0) < sentences.len() {
        first_reaching(sentences, byte, 0)
    } else {
        sentences.len() - 1
    }
}

/// The sentence that a search hit beginning at `byte` belongs to: the first
/// that holds the byte, or the last sentence if none does.
pub open spec fn hit_sentence(sentences: Seq<(int, int)>, byte: int) -> int {
    if first_holding(sentences, byte, 0) < sentences.len() {
        first_holding(sentences, byte, 0)
    } else {
        sentences.len() - 1
    }
}

/// The sentence in which a cursor at byte `cursor_byte_index` stands; none
/// where there is no sentence at all.
pub fn cursor_sentence_index(sentences: &[Range<usize>], cursor_byte_index: usize) -> (found:
    Option<usize>)
    ensures
        found is Some <==> sentences@.len() > 0,
        found is Some ==> found->0 == cursor_sentence(spans(sentences@), cursor_byte_index as int),
        found is Some ==> found->0 < sentences@.len(),
{
    let len: usize = sentences.len();
    if len == 0 {
        return None;
    }
    let mut i: usize = 0;
    while i < len && sentences[i].end < cursor_byte_index
        invariant
            len == sentences@.len(),
            0 <= i <= len,
            first_reaching(spans(sentences@), cursor_byte_index as int, i as int) == first_reaching(
                spans(sentences@),
                cursor_byte_index as int,
                0,
            ),
        decreases len - i,
    {
        i = i + 1;
    }
    if i < len {
        Some(i)
    } else {
        Some(len - 1)
    }
}

/// The sentence that a search hit beginning at byte `hit_start` belongs to;
/// none where there is no sentence at all.
pub fn hit_sentence_index(sentences: &[Range<usize>], hit_start: usize) -> (found: Option<usize>)
    ensures
        found is Some <==> sentences@.len() > 0,
        found is Some ==> found->0 == hit_sentence(spans(sentences@), hit_start as int),
        found is Some ==> found->0 < sentences@.len(),
{
    let len: usize = sentences.len();
    if len == 0 {
        return None;
    }
    let mut i: usize = 0;
    while i < len && !(sentences[i].start <= hit_start && hit_start < sentences[i].end)
        invariant
            len == sentences@.len(),
            0 <= i <= len,
            first_holding(spans(sentences@), hit_start as int, i as int) == first_holding(
                spans(sentences@),
                hit_start as int,
                0,
            ),
        decreases len - i,
    {
        i = i + 1;
    }
    if i < len {
        Some(i)
    } else {
        Some(len - 1)
    }
}

/// The code points of `text` that begin at a byte in `from..to`.
pub fn slice_bytes<'a>(text: &'a str, table: &Offsets, from: usize, to: usize) -> (piece: &'a str)
    requires
        table.wf(),
        table.chars@ == text@,
    ensures
        piece@ == byte_slice(text@, from as int, to as int),
{
    let first: usize = table.chars_before(from);
    let behind: usize = table.chars_before(to);
    if first <= behind {
        text.substring_char(first, behind)
    } else {
        text.substring_char(first, first)
    }
}

/// The text of the given byte ranges of `text`, one behind the other.
pub open spec fn joined(text: Seq<char>, ranges: Seq<(int, int)>) -> Seq<char>
    decreases ranges.len(),
{
    if ranges.len() == 0 {
        Seq::empty()
    } else {
        joined(text, ranges.drop_last()) + byte_slice(text, ranges.last().0, ranges.last().1)
    }
}

/// Number of sentences around the cursor that make up the text searched for.
pub const QUERY_SENTENCES: usize = 3;

/// The text to search for when the cursor stands at `cursor` (in UTF-16
/// units) in `text` with the given sentences: the sentences of the window
/// around the cursor's sentence, one behind the other. There is none where
/// the cursor is out of range or the text has no sentence.
pub open spec fn context_around_spec(
    text: Seq<char>,
    sentences: Seq<(int, int)>,
    cursor: int,
) -> Option<Seq<char>> {
    if text.len() == 0 || cursor > utf16_len(text) || sentences.len() == 0 {
        None
    } else {
        let byte = byte_offset(text, cursor_char(text, cursor, 0)) as int;
        let end = window_end(
            sentences.len() as int,
            cursor_sentence(sentences, byte),
            QUERY_SENTENCES as int,
        );
        Some(joined(text, sentences.subrange(window_start(end, QUERY_SENTENCES as int), end)))
    }
}

/// The text to search for when the cursor stands at `cursor_utf16_index` in
/// `document_text`, whose sentences are `sentences`.
pub fn context_around(
    document_text: &str,
    sentences: &Vec<Range<usize>>,
    cursor_utf16_index: usize,
) -> (context: Result<String, CursorOutOfRangeError>)
    ensures
        context is Ok <==> context_around_spec(
            document_text@,
            spans(sentences@),
            cursor_utf16_index as int,
        ) is Some,
        context is Ok ==> Some(context->Ok_0@) == context_around_spec(
            document_text@,
            spans(sentences@),
            cursor_utf16_index as int,
        ),
{
    let byte: usize = match cursor_byte_index(document_text, cursor_utf16_index) {
        Ok(byte) => byte,
        Err(e) => {
            return Err(e);
        },
    };
    let target: usize = match cursor_sentence_index(sentences.as_slice(), byte) {
        Some(target) => target,
        None => {
            return Err(CursorOutOfRangeError);
        },
    };
    let window: Range<usize> = get_sentence_range(sentences.as_slice(), target, QUERY_SENTENCES);
    let table: Offsets = Offsets::of(document_text);
    let mut context: String = String::new();
    let mut i: usize = window.start;
    let ghost chosen = spans(sentences@).subrange(window.start as int, window.end as int);
    assert(chosen.take(0) =~= Seq::<(int, int)>::empty());
    while i < window.end
        invariant
            table.wf(),
            table.chars@ == document_text@,
            window.start <= i <= window.end <= sentences@.len(),
            chosen == spans(sentences@).subrange(window.start as int, window.end as int),
            context@ == joined(document_text@, chosen.take(i - window.start)),
        decreases window.end - i,
    {
        let piece: &str = slice_bytes(document_text, &table, sentences[i].start, sentences[i].end);
        proof {
            let upto = chosen.take(i - window.start + 1);
            assert(upto.drop_last() =~= chosen.take(i - window.start));
            assert(upto.last() == span_of(sentences@[i as int]));
        }
        context.append(piece);
        i = i + 1;
    }
    assert(chosen.take(window.end - window.start) =~= chosen);
    Ok(context)
}

/// The text to search for when the cursor stands at `cursor_utf16_index` in
/// `document_text`: the document is cut into its chunks, and the chunks of the
/// window around the cursor's chunk are put one behind the other.
pub fn cursor_context(document_text: &str, cursor_utf16_index: usize) -> (context: Result<
    String,
    CursorOutOfRangeError,
>)
    ensures
        context is Ok <==> context_around_spec(
            document_text@,
            chunks(document_text@),
            cursor_utf16_index as int,
        ) is Some,
        context is Ok ==> Some(context->Ok_0@) == context_around_spec(
            document_text@,
            chunks(document_text@),
            cursor_utf16_index as int,
        ),
{
    let sentences: Vec<Range<usize>> = chunk_text(document_text);
    context_around(document_text, &sentences, cursor_utf16_index)
}

/// A search hit in its surroundings: the text of the sentences around the
/// hit, and where in that text, in UTF-16 units, the hit's own sentence lies.
#[derive(Debug)]
pub struct ContextWindow {
    pub text: String,
    pub relevant_range: Range<usize>,
}

/// The surroundings of a hit that begins at byte `hit_start` of `body`, as a
/// text and a range of UTF-16 units within it: the text runs from the first
/// to the last sentence of the window of `window` sentences around the hit's
/// sentence, and the range is that of the hit's sentence. There are none
/// where the window holds no sentence.
pub open spec fn context_window_spec(
    body: Seq<char>,
    sentences: Seq<(int, int)>,
    hit_start: int,
    window: int,
) -> Option<(Seq<char>, (int, int))> {
    let target = hit_sentence(sentences, hit_start);
    let end = window_end(sentences.len() as int, target, window);
    let start = window_start(end, window);
    if sentences.len() == 0 || start >= end {
        None
    } else {
        let from = sentences[start].0;
        let text = byte_slice(body, from, sentences[end - 1].1);
        Some((text, utf16_span(text, sentences[target].0 - from, sentences[target].1 - from)))
    }
}

/// The surroundings of a hit that begins at byte `hit_start` of `body`, whose
/// sentences are `sentences`, in a window of `context_sentences` sentences.
pub fn context_window(
    body: &str,
    sentences: &Vec<Range<usize>>,
    hit_start: usize,
    context_sentences: usize,
) -> (found: Option<ContextWindow>)
    requires
        ordered_within(spans(sentences@), utf8_len(body@) as int),
    ensures
        found is Some <==> context_window_spec(
            body@,
            spans(sentences@),
            hit_start as int,
            context_sentences as int,
        ) is Some,
        found is Some ==> Some((found->0.text@, span_of(found->0.relevant_range)))
            == context_window_spec(
            body@,
            spans(sentences@),
            hit_start as int,
            context_sentences as int,
        ),
{
    let target: usize = match hit_sentence_index(sentences.as_slice(), hit_start) {
        Some(target) => target,
        None => {
            return None;
        },
    };
    let window: Range<usize> = get_sentence_range(sentences.as_slice(), target, context_sentences);
    if window.start >= window.end {
        return None;
    }
    proof {
        let all = spans(sentences@);
        assert(all[window.start as int] == span_of(sentences@[window.start as int]));
        assert(all[window.end - 1] == span_of(sentences@[window.end - 1]));
        assert(all[target as int] == span_of(sentences@[target as int]));
        if window.start < target {
            assert(all[window.start as int].1 <= all[target as int].0);
        }
    }
    let from: usize = sentences[window.start].start;
    let to: usize = sentences[window.end - 1].end;
    let table: Offsets = Offsets::of(body);
    let piece: &str = slice_bytes(body, &table, from, to);
    let relevant_range: Range<usize> = utf8_range_to_utf16_range(
        (sentences[target].start - from)..(sentences[target].end - from),
        piece,
    );
    Some(ContextWindow { text: String::from_str(piece), relevant_range })
}

/// The surroundings of a hit that begins at byte `hit_start` of `body`, in a
/// window of `context_sentences` chunks of `body`.
pub fn result_context(body: &str, hit_start: usize, context_sentences: usize) -> (found: Option<
    ContextWindow,
>)
    ensures
        found is Some <==> context_window_spec(
            body@,
            chunks(body@),
            hit_start as int,
            context_sentences as int,
        ) is Some,
        found is Some ==> Some((found->0.text@, span_of(found->0.relevant_range)))
            == context_window_spec(
            body@,
            chunks(body@),
            hit_start as int,
            context_sentences as int,
        ),
{
    let sentences: Vec<Range<usize>> = chunk_text(body);
    context_window(body, &sentences, hit_start, context_sentences)
}

} // verus!
