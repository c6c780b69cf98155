//! Searching the notes: among which notes the vector store has to look for
//! the nearest chunks, and what is made of the hits it comes back with.

use crate::context::{
    char_span, character_range, context_around_spec, context_window_spec, cursor_context,
    result_context, ContextWindow, CursorOutOfRangeError,
};
use crate::index::{keys_except, keys_with_tags, string_views};
use crate::segment::{chunks, span_of};
use crate::workspace::Workspace;
use std::ops::Range;
use vstd::prelude::*;

verus! {

/// A chunk that the vector store found near the text searched for.
/// `distance` holds the bits of the distance, a 32-bit float that is the
/// smaller the nearer the chunk is.
#[derive(Debug)]
pub struct SearchHit {
    pub distance: u32,
    /// Title of the note that the chunk belongs to.
    pub title: String,
    /// Text of that note.
    pub body: String,
    /// The chunk, as a range of bytes of the text.
    pub byte_range: Range<usize>,
}

/// A hit as the search reports it: the chunk is given as a range of code
/// points of its note's text.
#[derive(Debug)]
pub struct SearchResult {
    pub distance: u32,
    pub title: String,
    pub character_range: Range<usize>,
}

/// A hit as the search around a cursor reports it: the text of the
/// sentences around the chunk, and where in that text, in UTF-16 units, the
/// chunk's sentence lies.
#[derive(Debug)]
pub struct ContextResult {
    pub distance: u32,
    pub title: String,
    pub text: String,
    pub relevant_range: Range<usize>,
}

/// What the vector store is asked when the notes around a cursor are
/// searched: the text to look for, and the keys of the notes to look among;
/// without keys, all notes are looked at.
#[derive(Debug)]
pub struct ContextQuery {
    pub context: String,
    pub keys: Option<Vec<String>>,
}

/// The keys of the notes among which a search with the tags `tags` looks:
/// the notes that carry a tag of each of these names.
pub fn search(tags: &Vec<String>, workspace: &Workspace) -> (keys: Vec<String>)
    ensures
        string_views(keys@) == keys_with_tags(workspace.index@, string_views(tags@)),
{
    workspace.index.keys_with_all_tags(tags)
}

/// What the search reports of `hit`.
pub fn search_result(hit: &SearchHit) -> (result: SearchResult)
    ensures
        result.distance == hit.distance,
        result.title@ == hit.title@,
        span_of(result.character_range) == char_span(
            hit.body@,
            hit.byte_range.start as int,
            hit.byte_range.end as int,
        ),
{
    let start: usize = hit.byte_range.start;
    let end: usize = hit.byte_range.end;
    SearchResult {
        distance: hit.distance,
        title: hit.title.clone(),
        character_range: character_range(start..end, hit.body.as_str()),
    }
}

/// What the search reports of the first `results` of `hits`, in their order.
pub fn search_results(hits: &Vec<SearchHit>, results: usize) -> (found: Vec<SearchResult>)
    ensures
        found@.len() == if hits@.len() < results {
            hits@.len()
        } else {
            results as nat
        },
        forall|i: int|
            0 <= i < found@.len() ==> (#[trigger] found@[i]).distance == hits@[i].distance
                && found@[i].title@ == hits@[i].title@ && span_of(found@[i].character_range)
                == char_span(
                hits@[i].body@,
                hits@[i].byte_range.start as int,
                hits@[i].byte_range.end as int,
            ),
{
    let mut found: Vec<SearchResult> = Vec::new();
    let mut i: usize = 0;
    while i < hits.len() && i < results
        invariant
            0 <= i <= hits@.len(),
            i <= results,
            found@.len() == i,
            forall|k: int|
                0 <= k < i ==> (#[trigger] found@[k]).distance == hits@[k].distance
                    && found@[k].title@ == hits@[k].title@ && span_of(found@[k].character_range)
                    == char_span(
                    hits@[k].body@,
                    hits@[k].byte_range.start as int,
                    hits@[k].byte_range.end as int,
                ),
        decreases hits@.len() - i,
    {
        found.push(search_result(&hits[i]));
        i = i + 1;
    }
    found
}

/// What the vector store is asked when the cursor stands at
/// `cursor_utf16_index` in `document_text`: the text of the sentences around
/// the cursor, to be looked for among all notes but the one titled
/// `document_title`, if the text is that of a note.
pub fn context_search(
    document_title: Option<&str>,
    document_text: &str,
    cursor_utf16_index: usize,
    workspace: &Workspace,
) -> (query: Result<ContextQuery, CursorOutOfRangeError>)
    ensures
        query is Ok <==> context_around_spec(
            document_text@,
            chunks(document_text@),
            cursor_utf16_index as int,
        ) is Some,
        query is Ok ==> Some(query->Ok_0.context@) == context_around_spec(
            document_text@,
            chunks(document_text@),
            cursor_utf16_index as int,
        ),
        query is Ok ==> match document_title {
            Some(title) => query->Ok_0.keys is Some && string_views(query->Ok_0.keys->0@)
                == keys_except(workspace.index@, title@),
            None => query->Ok_0.keys is None,
        },
{
    let context: String = match cursor_context(document_text, cursor_utf16_index) {
        Ok(context) => context,
        Err(e) => {
            return Err(e);
        },
    };
    let keys: Option<Vec<String>> = match document_title {
        Some(title) => Some(workspace.index.keys_except_title(title)),
        None => None,
    };
    Ok(ContextQuery { context, keys })
}

/// What the search around a cursor reports of `hit`, with
/// `context_sentences` sentences of context; nothing where that window holds
/// no sentence of the hit's note.
pub fn context_result(hit: &SearchHit, context_sentences: usize) -> (result: Option<ContextResult>)
    ensures
        result is Some <==> context_report(*hit, context_sentences as int) is Some,
        result is Some ==> Some(result->0@) == context_report(*hit, context_sentences as int),
{
    match result_context(hit.body.as_str(), hit.byte_range.start, context_sentences) {
        Some(window) => {
            let ContextWindow { text, relevant_range } = window;
            Some(
                ContextResult { distance: hit.distance, title: hit.title.clone(), text, relevant_range },
            )
        },
        None => None,
    }
}

/// What a report of a hit in its context holds.
pub struct ContextResultView {
    pub distance: u32,
    pub title: Seq<char>,
    pub text: Seq<char>,
    pub relevant_range: (int, int),
}

impl View for ContextResult {
    type V = ContextResultView;

    open spec fn view(&self) -> ContextResultView {
        ContextResultView {
            distance: self.distance,
            title: self.title@,
            text: self.text@,
            relevant_range: span_of(self.relevant_range),
        }
    }
}

/// What each report of `results` holds.
pub open spec fn result_views(results: Seq<ContextResult>) -> Seq<ContextResultView> {
    results.map_values(|r: ContextResult| r@)
}

/// The report of `hit` in its context of `context_sentences` sentences, if
/// that window holds a sentence of the hit's note.
pub open spec fn context_report(hit: SearchHit, context_sentences: int) -> Option<
    ContextResultView,
> {
    match context_window_spec(
        hit.body@,
        chunks(hit.body@),
        hit.byte_range.start as int,
        context_sentences,
    ) {
        Some(window) => Some(
            ContextResultView {
                distance: hit.distance,
                title: hit.title@,
                text: window.0,
                relevant_range: window.1,
            },
        ),
        None => None,
    }
}

/// The reports of those of `hits` that have a context, in the order of the hits.
pub open spec fn context_reports(hits: Seq<SearchHit>, context_sentences: int) -> Seq<
    ContextResultView,
>
    decreases hits.len(),
{
    if hits.len() == 0 {
        seq![]
    } else {
        match context_report(hits.last(), context_sentences) {
            Some(report) => context_reports(hits.drop_last(), context_sentences).push(report),
            None => context_reports(hits.drop_last(), context_sentences),
        }
    }
}

/// What the search around a cursor reports of `hits`: of each hit its
/// context, in the order of the hits; hits without context are left out.
pub fn context_results(hits: &Vec<SearchHit>, context_sentences: usize) -> (found: Vec<
    ContextResult,
>)
    ensures
        result_views(found@) == context_reports(hits@, context_sentences as int),
{
    let mut found: Vec<ContextResult> = Vec::new();
    let mut i: usize = 0;
    assert(hits@.take(0) =~= Seq::<SearchHit>::empty());
    while i < hits.len()
        invariant
            0 <= i <= hits@.len(),
            result_views(found@) == context_reports(hits@.take(i as int), context_sentences as int),
        decreases hits@.len() - i,
    {
        proof {
            assert(hits@.take(i as int + 1).drop_last() =~= hits@.take(i as int));
            assert(hits@.take(i as int + 1).last() == hits@[i as int]);
        }
        let ghost before = result_views(found@);
        match context_result(&hits[i], context_sentences) {
            Some(result) => {
                found.push(result);
                assert(result_views(found@) =~= before.push(result@));
            },
            None => {},
        }
        i = i + 1;
    }
    assert(hits@.take(hits@.len() as int) =~= hits@);
    found
}

} // verus!
