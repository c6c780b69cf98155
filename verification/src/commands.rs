//! What the commands on notes decide: saving, removing and reading a note,
//! and setting and reading its tags. Each works on one workspace; writing to
//! the vector store and to disk is left to the caller.

use crate::index::{
    find, notes_of, note_views, removed, retagged, stored_as, tags_of, unchanged, SavePlan,
    StoredView,
};
use crate::note::{ContextualDocument, Document, DocumentDoesNotExistError};
use crate::segment::{chunk_text, chunks, on_boundaries, ordered_within, spans};
use crate::text::utf8_len;
use crate::tag::{is_sorted_dedup, manual, sort_dedup, tag_views, Tag};
use crate::workspace::Workspace;
use std::ops::Range;
use vstd::prelude::*;

verus! {

/// What saving a note has to do.
#[derive(Debug)]
pub enum SaveStep {
    /// The note is stored as it is: nothing is written.
    Unchanged,
    /// The note has to be indexed. `note` is the note with the tags it
    /// keeps, which are those that the user had set; `segments` are its
    /// chunks; `replaces` is the key of the entry of the vector store that
    /// has to go first, if the title was stored before.
    Index { note: ContextualDocument, segments: Vec<Range<usize>>, replaces: Option<String> },
}

/// Sets the user's tags of the note titled `title`, and throws the
/// classifier away, whether or not there is such a note.
pub fn set_tags(title: &str, tags: Vec<Tag>, workspace: &mut Workspace) -> (done: Result<
    (),
    DocumentDoesNotExistError,
>)
    requires
        old(workspace).wf(),
    ensures
        final(workspace).wf(),
        final(workspace).cached() is None,
        final(workspace).vocabulary() == old(workspace).vocabulary(),
        final(workspace).location == old(workspace).location,
        done is Ok <==> find(old(workspace).index@, title@) < old(workspace).index@.len(),
        done is Err ==> final(workspace).index@ == old(workspace).index@,
        done is Ok ==> retagged(
            old(workspace).index@,
            final(workspace).index@,
            title@,
            tag_views(tags@),
        ),
{
    workspace.retrain_classifier();
    workspace.index.set_tags(title, tags)
}

/// The tags of the note titled `title`.
pub fn get_tags(title: &str, workspace: &Workspace) -> (tags: Result<
    Vec<Tag>,
    DocumentDoesNotExistError,
>)
    ensures
        tags is Ok <==> tags_of(workspace.index@, title@) is Some,
        tags is Ok ==> Some(tag_views(tags->Ok_0@)) == tags_of(workspace.index@, title@),
{
    workspace.index.get_tags(title)
}

/// The note titled `title`, with its tags.
pub fn read_note(title: &str, workspace: &Workspace) -> (note: Result<
    ContextualDocument,
    DocumentDoesNotExistError,
>)
    ensures
        note is Ok <==> find(workspace.index@, title@) < workspace.index@.len(),
        note is Ok ==> note->Ok_0@ == notes_of(workspace.index@)[find(workspace.index@, title@)],
{
    workspace.index.read_note(title)
}

/// Takes the note titled `title` out of the workspace's index and returns
/// the key of the entry of the vector store that has to go with it.
pub fn remove_note(title: &str, workspace: &mut Workspace) -> (id: Option<String>)
    requires
        old(workspace).wf(),
    ensures
        final(workspace).wf(),
        final(workspace).index@ == removed(old(workspace).index@, title@),
        final(workspace).vocabulary() == old(workspace).vocabulary(),
        final(workspace).cached() == old(workspace).cached(),
        final(workspace).location == old(workspace).location,
        id is Some <==> find(old(workspace).index@, title@) < old(workspace).index@.len(),
        id is Some ==> id->0@ == old(workspace).index@[find(old(workspace).index@, title@)].id,
{
    workspace.index.delete(title)
}

/// All notes of the workspace, with their tags.
pub fn files_in_workspace(workspace: &Workspace) -> (notes: Vec<ContextualDocument>)
    ensures
        note_views(notes@) == notes_of(workspace.index@),
{
    workspace.files()
}

/// What saving the text `text`, cut into `segments`, under the title
/// `title` has to do: nothing where the note is stored with that text and
/// those chunks, else index the note, with the tags that the user had set on
/// the stored note, if there is one.
pub fn plan_note(
    title: String,
    text: String,
    segments: Vec<Range<usize>>,
    workspace: &Workspace,
) -> (step: SaveStep)
    ensures
        step is Unchanged <==> unchanged(workspace.index@, title@, text@, spans(segments@)),
        step matches SaveStep::Index { note, segments: kept, replaces } ==> {
            let at = find(workspace.index@, title@);
            &&& note.document.title@ == title@
            &&& note.document.body@ == text@
            &&& kept@ == segments@
            &&& if at < workspace.index@.len() {
                replaces is Some && replaces->0@ == workspace.index@[at].id && tag_views(note.tags@)
                    == manual(workspace.index@[at].tags)
            } else {
                replaces is None && note.tags@.len() == 0
            }
        },
{
    match workspace.index.plan_save(title.as_str(), text.as_str(), &segments) {
        SavePlan::Unchanged => SaveStep::Unchanged,
        SavePlan::Index { replaces, tags } => SaveStep::Index {
            note: ContextualDocument { document: Document::from_parts(title, text), tags },
            segments,
            replaces,
        },
    }
}

/// What saving the text `text` under the title `title` has to do, the text
/// being cut into its chunks, which lie in order within the text and begin
/// and end where code points do.
pub fn save_note(title: String, text: String, workspace: &Workspace) -> (step: SaveStep)
    ensures
        step is Unchanged <==> unchanged(workspace.index@, title@, text@, chunks(text@)),
        step matches SaveStep::Index { note, segments, replaces } ==> {
            let at = find(workspace.index@, title@);
            &&& note.document.title@ == title@
            &&& note.document.body@ == text@
            &&& spans(segments@) == chunks(text@)
            &&& ordered_within(spans(segments@), utf8_len(text@) as int)
            &&& on_boundaries(spans(segments@), text@)
            &&& if at < workspace.index@.len() {
                replaces is Some && replaces->0@ == workspace.index@[at].id && tag_views(note.tags@)
                    == manual(workspace.index@[at].tags)
            } else {
                replaces is None && note.tags@.len() == 0
            }
        },
{
    let segments: Vec<Range<usize>> = chunk_text(text.as_str());
    plan_note(title, text, segments, workspace)
}

/// The tags that a note is stored with when it kept the tags `kept` and the
/// classifier chose `tag`: the kept tags and then the classifier's, sorted by
/// name, with one tag left of each name. Where the classifier chose the name
/// of a kept tag, the kept tag stays.
pub fn saved_tags(kept: &Vec<Tag>, tag: Tag) -> (tags: Vec<Tag>)
    ensures
        is_sorted_dedup(tag_views(kept@).push(tag@), tag_views(tags@)),
{
    let mut all: Vec<Tag> = crate::note::clone_tags(kept);
    all.push(tag);
    assert(tag_views(all@) =~= tag_views(kept@).push(tag@));
    sort_dedup(all)
}

/// Ends a save: the tag that the classifier chose is put behind the tags
/// that `note` kept, and the note is recorded as indexed under the key `id`
/// with the chunks `segments`. Its tags are recorded sorted by name, with one
/// tag left of each name: those that [`saved_tags`] gives.
pub fn finish_save(
    note: ContextualDocument,
    segments: Vec<Range<usize>>,
    tag: Tag,
    id: String,
    workspace: &mut Workspace,
)
    requires
        old(workspace).wf(),
    ensures
        final(workspace).wf(),
        final(workspace).vocabulary() == old(workspace).vocabulary(),
        final(workspace).cached() == old(workspace).cached(),
        final(workspace).location == old(workspace).location,
        stored_as(
            old(workspace).index@,
            final(workspace).index@,
            StoredView {
                id: id@,
                title: note.document.title@,
                body: note.document.body@,
                tags: tag_views(note.tags@).push(tag@),
                segments: spans(segments@),
            },
        ),
{
    let mut note = note;
    let ghost kept = tag_views(note.tags@);
    note.tags.push(tag);
    assert(tag_views(note.tags@) =~= kept.push(tag@));
    workspace.index.record(id, note, segments);
}

} // verus!
