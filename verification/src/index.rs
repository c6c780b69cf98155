//! The index of a workspace's notes: one record for each title, with the
//! note, its tags, the key under which the vector store holds it, and the
//! chunks it was indexed with. The index decides what a save, a removal or a
//! filter by tags has to do; carrying it out on the vector store is left to
//! the caller.

use crate::note::{
    clone_ranges, clone_tags, same_ranges, ContextualDocument, DocumentDoesNotExistError,
};
use crate::segment::spans;
use crate::tag::{
    automatic, has_name, is_sorted_dedup, manual, merge_tags, names_increasing, sort_dedup,
    tag_views, tags_given_by, Tag, TagView,
};
use std::ops::Range;
use vstd::prelude::*;

verus! {

/// The record of one note.
#[derive(Debug)]
pub struct StoredDocument {
    /// Key of the note in the vector store.
    pub id: String,
    /// The note and its tags.
    pub note: ContextualDocument,
    /// The chunks the note was indexed with.
    pub segments: Vec<Range<usize>>,
}

/// What a record holds.
pub struct StoredView {
    pub id: Seq<char>,
    pub title: Seq<char>,
    pub body: Seq<char>,
    pub tags: Seq<TagView>,
    pub segments: Seq<(int, int)>,
}

impl View for StoredDocument {
    type V = StoredView;

    open spec fn view(&self) -> StoredView {
        StoredView {
            id: self.id@,
            title: self.note.document.title@,
            body: self.note.document.body@,
            tags: tag_views(self.note.tags@),
            segments: spans(self.segments@),
        }
    }
}

/// What each record of `records` holds.
pub open spec fn stored_views(records: Seq<StoredDocument>) -> Seq<StoredView> {
    records.map_values(|r: StoredDocument| r@)
}

/// Index of the first record from `from` on with the title `title`; the
/// number of records if there is none.
pub open spec fn find_from(records: Seq<StoredView>, title: Seq<char>, from: int) -> int
    decreases records.len() - from,
{
    if from >= records.len() {
        records.len() as int
    } else if records[from].title == title {
        from
    } else {
        find_from(records, title, from + 1)
    }
}

/// Index of the record with the title `title`; the number of records if
/// there is none.
pub open spec fn find(records: Seq<StoredView>, title: Seq<char>) -> int {
    find_from(records, title, 0)
}

/// Whether no two records have the same title.
pub open spec fn titles_distinct(records: Seq<StoredView>) -> bool {
    forall|i: int, j: int|
        0 <= i < j < records.len() ==> (#[trigger] records[i]).title != (
        #[trigger] records[j]).title
}

/// Whether the tags of each record are sorted by name, no name twice.
pub open spec fn tags_sorted(records: Seq<StoredView>) -> bool {
    forall|k: int| 0 <= k < records.len() ==> names_increasing((#[trigger] records[k]).tags)
}

/// Whether `after` is `before` with `given` stored, its tags sorted by name
/// and one tag left of each name, the first of `given` that has it: in the
/// place of the record with its title, or behind the others if there was none.
pub open spec fn stored_as(
    before: Seq<StoredView>,
    after: Seq<StoredView>,
    given: StoredView,
) -> bool {
    let at = find(after, given.title);
    &&& at < after.len()
    &&& is_sorted_dedup(given.tags, after[at].tags)
    &&& after == recorded(
        before,
        StoredView {
            id: given.id,
            title: given.title,
            body: given.body,
            tags: after[at].tags,
            segments: given.segments,
        },
    )
}

/// The tags of the note with the title `title`, if there is such a note.
pub open spec fn tags_of(records: Seq<StoredView>, title: Seq<char>) -> Option<Seq<TagView>> {
    if find(records, title) < records.len() {
        Some(records[find(records, title)].tags)
    } else {
        None
    }
}

/// Whether saving the text `body`, cut into `segments`, under `title` would
/// change nothing: a note with that title is stored, with that text and
/// indexed with those chunks.
pub open spec fn unchanged(
    records: Seq<StoredView>,
    title: Seq<char>,
    body: Seq<char>,
    segments: Seq<(int, int)>,
) -> bool {
    &&& find(records, title) < records.len()
    &&& records[find(records, title)].segments == segments
    &&& records[find(records, title)].body == body
}

/// The records once `record` is stored: in the place of the record with its
/// title, or behind the others if there was none.
pub open spec fn recorded(records: Seq<StoredView>, record: StoredView) -> Seq<StoredView> {
    if find(records, record.title) < records.len() {
        records.update(find(records, record.title), record)
    } else {
        records.push(record)
    }
}

/// The records without the one titled `title`.
pub open spec fn removed(records: Seq<StoredView>, title: Seq<char>) -> Seq<StoredView> {
    if find(records, title) < records.len() {
        records.remove(find(records, title))
    } else {
        records
    }
}

/// Whether the tags `tags` include a tag of each of the names `required`.
pub open spec fn has_all_tags(tags: Seq<TagView>, required: Seq<Seq<char>>) -> bool {
    forall|k: int| 0 <= k < required.len() ==> has_name(tags, #[trigger] required[k])
}

/// The keys of the records whose tags include all the names `required`, in
/// the order of the records.
pub open spec fn keys_with_tags(records: Seq<StoredView>, required: Seq<Seq<char>>) -> Seq<
    Seq<char>,
>
    decreases records.len(),
{
    if records.len() == 0 {
        seq![]
    } else if has_all_tags(records.last().tags, required) {
        keys_with_tags(records.drop_last(), required).push(records.last().id)
    } else {
        keys_with_tags(records.drop_last(), required)
    }
}

/// The keys of the records that are not titled `title`, in the order of
/// the records.
pub open spec fn keys_except(records: Seq<StoredView>, title: Seq<char>) -> Seq<Seq<char>>
    decreases records.len(),
{
    if records.len() == 0 {
        seq![]
    } else if records.last().title != title {
        keys_except(records.drop_last(), title).push(records.last().id)
    } else {
        keys_except(records.drop_last(), title)
    }
}

/// What [`find_from`] finds: the first record with the title, none before it.
pub proof fn lemma_find_from(records: Seq<StoredView>, title: Seq<char>, from: int)
    requires
        0 <= from <= records.len(),
    ensures
        from <= find_from(records, title, from) <= records.len(),
        find_from(records, title, from) < records.len() ==> records[find_from(
            records,
            title,
            from,
        )].title == title,
        forall|j: int|
            from <= j < find_from(records, title, from) ==> (#[trigger] records[j]).title != title,
    decreases records.len() - from,
{
    if from < records.len() && records[from].title != title {
        lemma_find_from(records, title, from + 1);
    }
}

/// A record with the title, before which no record has it, is the one found.
pub proof fn lemma_find_is(records: Seq<StoredView>, title: Seq<char>, from: int, at: int)
    requires
        0 <= from <= at <= records.len(),
        forall|j: int| from <= j < at ==> (#[trigger] records[j]).title != title,
        at < records.len() ==> records[at].title == title,
    ensures
        find_from(records, title, from) == at,
    decreases at - from,
{
    if from < at {
        lemma_find_is(records, title, from + 1, at);
    }
}

/// The code points of each string of `names`.
pub open spec fn string_views(names: Seq<String>) -> Seq<Seq<char>> {
    names.map_values(|n: String| n@)
}

/// What each note of `notes` is.
pub open spec fn note_views(notes: Seq<ContextualDocument>) -> Seq<crate::note::NoteView> {
    notes.map_values(|n: ContextualDocument| n@)
}

/// The notes that the records hold.
pub open spec fn notes_of(records: Seq<StoredView>) -> Seq<crate::note::NoteView> {
    records.map_values(
        |r: StoredView| crate::note::NoteView { title: r.title, body: r.body, tags: r.tags },
    )
}

/// Whether a tag of `tags` is named `name`.
pub fn tag_named(tags: &Vec<Tag>, name: &str) -> (found: bool)
    ensures
        found == has_name(tag_views(tags@), name@),
{
    let mut i: usize = 0;
    while i < tags.len()
        invariant
            0 <= i <= tags@.len(),
            forall|k: int| 0 <= k < i ==> (#[trigger] tag_views(tags@)[k]).name != name@,
        decreases tags@.len() - i,
    {
        if tags[i].name.as_str().eq(name) {
            assert(tag_views(tags@)[i as int].name == name@);
            return true;
        }
        i = i + 1;
    }
    false
}

/// Whether `tags` include a tag of each of the names `required`.
pub fn tags_include(tags: &Vec<Tag>, required: &Vec<String>) -> (all: bool)
    ensures
        all == has_all_tags(tag_views(tags@), string_views(required@)),
{
    let mut i: usize = 0;
    while i < required.len()
        invariant
            0 <= i <= required@.len(),
            forall|k: int|
                0 <= k < i ==> has_name(tag_views(tags@), #[trigger] string_views(required@)[k]),
        decreases required@.len() - i,
    {
        if !tag_named(tags, required[i].as_str()) {
            assert(!has_name(tag_views(tags@), string_views(required@)[i as int]));
            return false;
        }
        i = i + 1;
    }
    true
}

/// What a save has to do to the vector store.
#[derive(Debug)]
pub enum SavePlan {
    /// The note is stored as it is: nothing is written.
    Unchanged,
    /// The note is indexed anew. `replaces` is the key of the entry that
    /// has to go first, if the title was stored before; `tags` are the tags
    /// of that entry that the user had set, which the note keeps.
    Index { replaces: Option<String>, tags: Vec<Tag> },
}

/// The index of the notes of a workspace, one record for each title.
pub struct DocumentIndex {
    records: Vec<StoredDocument>,
}

impl View for DocumentIndex {
    type V = Seq<StoredView>;

    closed spec fn view(&self) -> Seq<StoredView> {
        stored_views(self.records@)
    }
}

impl DocumentIndex {
    /// Whether no title is stored twice, and the tags of each note are
    /// sorted by name, no name twice.
    pub open spec fn wf(&self) -> bool {
        titles_distinct(self@) && tags_sorted(self@)
    }

    /// An index without notes.
    pub fn new() -> (index: DocumentIndex)
        ensures
            index@ == Seq::<StoredView>::empty(),
            index.wf(),
    {
        let index = DocumentIndex { records: Vec::new() };
        assert(index@ =~= Seq::<StoredView>::empty());
        index
    }

    /// Number of notes.
    pub fn len(&self) -> (n: usize)
        ensures
            n == self@.len(),
    {
        self.records.len()
    }

    /// Place of the record with the title `title`.
    pub fn position(&self, title: &str) -> (place: Option<usize>)
        ensures
            place is Some <==> find(self@, title@) < self@.len(),
            place is Some ==> place->0 == find(self@, title@),
    {
        let mut i: usize = 0;
        while i < self.records.len()
            invariant
                0 <= i <= self.records@.len(),
                find_from(self@, title@, i as int) == find(self@, title@),
            decreases self.records@.len() - i,
        {
            assert(self@[i as int] == self.records@[i as int]@);
            if self.records[i].note.document.title.as_str().eq(title) {
                return Some(i);
            }
            i = i + 1;
        }
        None
    }

    /// The tags of the note with the title `title`.
    pub fn get_tags(&self, title: &str) -> (tags: Result<Vec<Tag>, DocumentDoesNotExistError>)
        ensures
            tags is Ok <==> tags_of(self@, title@) is Some,
            tags is Ok ==> Some(tag_views(tags->Ok_0@)) == tags_of(self@, title@),
    {
        match self.position(title) {
            Some(i) => {
                assert(self@[i as int] == self.records@[i as int]@);
                Ok(clone_tags(&self.records[i].note.tags))
            },
            None => Err(DocumentDoesNotExistError),
        }
    }

    /// The note with the title `title`, with its tags.
    pub fn read_note(&self, title: &str) -> (note: Result<
        ContextualDocument,
        DocumentDoesNotExistError,
    >)
        ensures
            note is Ok <==> find(self@, title@) < self@.len(),
            note is Ok ==> note->Ok_0@ == notes_of(self@)[find(self@, title@)],
    {
        match self.position(title) {
            Some(i) => {
                assert(self@[i as int] == self.records@[i as int]@);
                Ok(self.records[i].note.clone())
            },
            None => Err(DocumentDoesNotExistError),
        }
    }

    /// All notes with their tags, in the order of the index.
    pub fn select_all(&self) -> (notes: Vec<ContextualDocument>)
        ensures
            note_views(notes@) == notes_of(self@),
    {
        let mut notes: Vec<ContextualDocument> = Vec::new();
        let mut i: usize = 0;
        while i < self.records.len()
            invariant
                0 <= i <= self.records@.len(),
                note_views(notes@) == notes_of(self@).take(i as int),
            decreases self.records@.len() - i,
        {
            let ghost before = note_views(notes@);
            assert(self@[i as int] == self.records@[i as int]@);
            let note: ContextualDocument = self.records[i].note.clone();
            notes.push(note);
            assert(note_views(notes@) =~= before.push(note@));
            assert(note_views(notes@) =~= notes_of(self@).take(i as int + 1));
            i = i + 1;
        }
        assert(notes_of(self@).take(self@.len() as int) =~= notes_of(self@));
        notes
    }

    /// What saving the text `body`, cut into `segments`, under the title
    /// `title` has to do. Nothing, where the title is stored with the same
    /// text and the same chunks; else the note is indexed, in the place of
    /// the stored one if there is one, of whose tags the user's are kept.
    pub fn plan_save(&self, title: &str, body: &str, segments: &Vec<Range<usize>>) -> (plan:
        SavePlan)
        ensures
            plan is Unchanged <==> unchanged(self@, title@, body@, spans(segments@)),
            plan matches SavePlan::Index { replaces, tags } ==> {
                let at = find(self@, title@);
                if at < self@.len() {
                    replaces is Some && replaces->0@ == self@[at].id && tag_views(tags@) == manual(
                        self@[at].tags,
                    )
                } else {
                    replaces is None && tags@.len() == 0
                }
            },
    {
        match self.position(title) {
            Some(i) => {
                assert(self@[i as int] == self.records@[i as int]@);
                let stored: &StoredDocument = &self.records[i];
                if same_ranges(&stored.segments, segments) && stored.note.document.body.as_str().eq(
                    body,
                ) {
                    SavePlan::Unchanged
                } else {
                    SavePlan::Index {
                        replaces: Some(stored.id.clone()),
                        tags: tags_given_by(&stored.note.tags, true),
                    }
                }
            },
            None => SavePlan::Index { replaces: None, tags: Vec::new() },
        }
    }

    /// Stores a record for `note`, indexed under the key `id` with the
    /// chunks `segments`: in the place of the record with the note's title,
    /// or as a new record. The tags are stored sorted by name, and of tags
    /// with one name the first is stored.
    pub fn record(&mut self, id: String, note: ContextualDocument, segments: Vec<Range<usize>>)
        requires
            old(self).wf(),
        ensures
            final(self).wf(),
            stored_as(
                old(self)@,
                final(self)@,
                StoredView {
                    id: id@,
                    title: note.document.title@,
                    body: note.document.body@,
                    tags: tag_views(note.tags@),
                    segments: spans(segments@),
                },
            ),
    {
        let place: Option<usize> = self.position(note.document.title.as_str());
        let ghost before = self@;
        let ghost title = note.document.title@;
        let ContextualDocument { document, tags } = note;
        let sorted: Vec<Tag> = sort_dedup(tags);
        let record = StoredDocument {
            id,
            note: ContextualDocument { document, tags: sorted },
            segments,
        };
        proof {
            lemma_find_from(before, title, 0);
        }
        match place {
            Some(i) => {
                self.records.set(i, record);
                assert(self@ =~= before.update(i as int, record@));
                assert forall|a: int, b: int| 0 <= a < b < self@.len() implies (
                #[trigger] self@[a]).title != (#[trigger] self@[b]).title by {
                    assert(self@[a].title == before[a].title);
                    assert(self@[b].title == before[b].title);
                }
                assert forall|k: int| 0 <= k < self@.len() implies names_increasing(
                    (#[trigger] self@[k]).tags,
                ) by {
                    if k != i {
                        assert(self@[k] == before[k]);
                    }
                }
            },
            None => {
                self.records.push(record);
                assert(self@ =~= before.push(record@));
                assert forall|a: int, b: int| 0 <= a < b < self@.len() implies (
                #[trigger] self@[a]).title != (#[trigger] self@[b]).title by {
                    if b < before.len() {
                        assert(self@[a] == before[a] && self@[b] == before[b]);
                    } else {
                        assert(self@[a] == before[a]);
                    }
                }
                assert forall|k: int| 0 <= k < self@.len() implies names_increasing(
                    (#[trigger] self@[k]).tags,
                ) by {
                    if k < before.len() {
                        assert(self@[k] == before[k]);
                    }
                }
            },
        }
        proof {
            let at = find(before, title);
            assert forall|j: int| 0 <= j < at implies (#[trigger] self@[j]).title != title by {
                assert(self@[j] == before[j]);
            }
            lemma_find_is(self@, title, 0, at);
            assert(self@[at] == record@);
        }
    }

    /// Takes the record of the note with the title `title` out of the index
    /// and returns the key under which the vector store holds the note.
    pub fn delete(&mut self, title: &str) -> (id: Option<String>)
        requires
            old(self).wf(),
        ensures
            final(self)@ == removed(old(self)@, title@),
            final(self).wf(),
            id is Some <==> find(old(self)@, title@) < old(self)@.len(),
            id is Some ==> id->0@ == old(self)@[find(old(self)@, title@)].id,
    {
        let ghost before = self@;
        match self.position(title) {
            Some(i) => {
                assert(self@[i as int] == self.records@[i as int]@);
                let record: StoredDocument = self.records.remove(i);
                assert(self@ =~= before.remove(i as int));
                assert forall|a: int, b: int| 0 <= a < b < self@.len() implies (
                #[trigger] self@[a]).title != (#[trigger] self@[b]).title by {
                    let a0 = if a < i { a } else { a + 1 };
                    let b0 = if b < i { b } else { b + 1 };
                    assert(self@[a] == before[a0] && self@[b] == before[b0]);
                }
                assert forall|k: int| 0 <= k < self@.len() implies names_increasing(
                    (#[trigger] self@[k]).tags,
                ) by {
                    let k0 = if k < i { k } else { k + 1 };
                    assert(self@[k] == before[k0]);
                }
                Some(record.id)
            },
            None => None,
        }
    }

    /// Sets the user's tags of the note with the title `title`. The tags
    /// that the classifier had given the note stay, behind the user's; the
    /// whole is sorted by name, and of two tags with one name the first
    /// stays, which is the user's.
    pub fn set_tags(&mut self, title: &str, tags: Vec<Tag>) -> (done: Result<
        (),
        DocumentDoesNotExistError,
    >)
        requires
            old(self).wf(),
        ensures
            final(self).wf(),
            done is Ok <==> find(old(self)@, title@) < old(self)@.len(),
            done is Err ==> final(self)@ == old(self)@,
            done is Ok ==> retagged(old(self)@, final(self)@, title@, tag_views(tags@)),
    {
        let ghost before = self@;
        match self.position(title) {
            Some(i) => {
                assert(self@[i as int] == self.records@[i as int]@);
                let stored: &StoredDocument = &self.records[i];
                let merged: Vec<Tag> = merge_tags(tags, &stored.note.tags);
                let record = StoredDocument {
                    id: stored.id.clone(),
                    note: ContextualDocument { document: stored.note.document.clone(), tags: merged },
                    segments: clone_ranges(&stored.segments),
                };
                self.records.set(i, record);
                assert(self@ =~= before.update(i as int, record@));
                assert forall|a: int, b: int| 0 <= a < b < self@.len() implies (
                #[trigger] self@[a]).title != (#[trigger] self@[b]).title by {
                    assert(self@[a].title == before[a].title);
                    assert(self@[b].title == before[b].title);
                }
                assert forall|k: int| 0 <= k < self@.len() implies names_increasing(
                    (#[trigger] self@[k]).tags,
                ) by {
                    if k != i {
                        assert(self@[k] == before[k]);
                    }
                }
                Ok(())
            },
            None => Err(DocumentDoesNotExistError),
        }
    }

    /// The keys of the notes that are not titled `title`, in the order of
    /// the index.
    pub fn keys_except_title(&self, title: &str) -> (keys: Vec<String>)
        ensures
            string_views(keys@) == keys_except(self@, title@),
    {
        let mut keys: Vec<String> = Vec::new();
        let mut i: usize = 0;
        assert(self@.take(0) =~= Seq::<StoredView>::empty());
        while i < self.records.len()
            invariant
                0 <= i <= self.records@.len(),
                string_views(keys@) == keys_except(self@.take(i as int), title@),
            decreases self.records@.len() - i,
        {
            let ghost before = string_views(keys@);
            proof {
                assert(self@[i as int] == self.records@[i as int]@);
                assert(self@.take(i as int + 1).drop_last() =~= self@.take(i as int));
                assert(self@.take(i as int + 1).last() == self@[i as int]);
            }
            if !self.records[i].note.document.title.as_str().eq(title) {
                let key: String = self.records[i].id.clone();
                keys.push(key);
                assert(string_views(keys@) =~= before.push(key@));
            }
            i = i + 1;
        }
        assert(self@.take(self@.len() as int) =~= self@);
        keys
    }

    /// The keys of the notes whose tags include a tag of each name of
    /// `required`, in the order of the index. With no name required, these
    /// are the keys of all notes.
    pub fn keys_with_all_tags(&self, required: &Vec<String>) -> (keys: Vec<String>)
        ensures
            string_views(keys@) == keys_with_tags(self@, string_views(required@)),
    {
        let mut keys: Vec<String> = Vec::new();
        let mut i: usize = 0;
        assert(self@.take(0) =~= Seq::<StoredView>::empty());
        while i < self.records.len()
            invariant
                0 <= i <= self.records@.len(),
                string_views(keys@) == keys_with_tags(
                    self@.take(i as int),
                    string_views(required@),
                ),
            decreases self.records@.len() - i,
        {
            let ghost before = string_views(keys@);
            proof {
                assert(self@[i as int] == self.records@[i as int]@);
                assert(self@.take(i as int + 1).drop_last() =~= self@.take(i as int));
                assert(self@.take(i as int + 1).last() == self@[i as int]);
            }
            if tags_include(&self.records[i].note.tags, required) {
                let key: String = self.records[i].id.clone();
                keys.push(key);
                assert(string_views(keys@) =~= before.push(key@));
            }
            i = i + 1;
        }
        assert(self@.take(self@.len() as int) =~= self@);
        keys
    }
}

/// Whether `after` is `before` with the tags of the note titled `title` set
/// anew from the user's tags `tags`: that note's tags are the user's and
/// those that the classifier had given it, sorted by name and with one tag
/// left of each name; nothing else differs.
pub open spec fn retagged(
    before: Seq<StoredView>,
    after: Seq<StoredView>,
    title: Seq<char>,
    tags: Seq<TagView>,
) -> bool {
    let at = find(before, title);
    &&& at < before.len()
    &&& after.len() == before.len()
    &&& forall|k: int| 0 <= k < before.len() && k != at ==> after[k] == before[k]
    &&& after[at].id == before[at].id
    &&& after[at].title == before[at].title
    &&& after[at].body == before[at].body
    &&& after[at].segments == before[at].segments
    &&& is_sorted_dedup(tags + automatic(before[at].tags), after[at].tags)
}

/// Saving twice writes once: once a note is recorded, saving the same text
/// with the same chunks under its title changes nothing.
pub proof fn lemma_save_is_idempotent(records: Seq<StoredView>, record: StoredView)
    ensures
        unchanged(recorded(records, record), record.title, record.body, record.segments),
{
    let at = find(records, record.title);
    let after = recorded(records, record);
    lemma_find_from(records, record.title, 0);
    assert forall|j: int| 0 <= j < at implies (#[trigger] after[j]).title != record.title by {
        assert(after[j] == records[j]);
    }
    lemma_find_is(after, record.title, 0, at);
}

/// A note that was stored is stored as it is: saving its text with its
/// chunks under its title once more changes nothing.
pub proof fn lemma_stored_is_unchanged(
    before: Seq<StoredView>,
    after: Seq<StoredView>,
    given: StoredView,
)
    requires
        stored_as(before, after, given),
    ensures
        unchanged(after, given.title, given.body, given.segments),
{
    let at = find(after, given.title);
    lemma_save_is_idempotent(
        before,
        StoredView {
            id: given.id,
            title: given.title,
            body: given.body,
            tags: after[at].tags,
            segments: given.segments,
        },
    );
}

/// Tags that are set are the tags that are read: after the user's tags of a
/// note have been set, the note's tags are the user's tags and the tags that
/// the classifier had given it, sorted by name, one tag of each name.
pub proof fn lemma_set_then_get_tags(
    before: Seq<StoredView>,
    after: Seq<StoredView>,
    title: Seq<char>,
    tags: Seq<TagView>,
)
    requires
        retagged(before, after, title, tags),
    ensures
        tags_of(after, title) is Some,
        is_sorted_dedup(
            tags + automatic(before[find(before, title)].tags),
            tags_of(after, title)->0,
        ),
{
    let at = find(before, title);
    lemma_find_from(before, title, 0);
    assert forall|j: int| 0 <= j < at implies (#[trigger] after[j]).title != title by {
        assert(after[j] == before[j]);
    }
    lemma_find_is(after, title, 0, at);
}

/// Whether `key` is the key of a note whose tags include all the names
/// `required`.
pub open spec fn is_key_of_tagged(
    records: Seq<StoredView>,
    required: Seq<Seq<char>>,
    key: Seq<char>,
) -> bool {
    exists|k: int|
        0 <= k < records.len() && (#[trigger] records[k]).id == key && has_all_tags(
            records[k].tags,
            required,
        )
}

/// The filter by tags finds the notes that carry all the required tags, and
/// no others: every key found belongs to such a note, and the key of every
/// such note is found.
pub proof fn lemma_filter_by_tags(records: Seq<StoredView>, required: Seq<Seq<char>>)
    ensures
        forall|i: int|
            0 <= i < keys_with_tags(records, required).len() ==> is_key_of_tagged(
                records,
                required,
                #[trigger] keys_with_tags(records, required)[i],
            ),
        forall|k: int|
            0 <= k < records.len() && has_all_tags((#[trigger] records[k]).tags, required)
                ==> keys_with_tags(records, required).contains(records[k].id),
    decreases records.len(),
{
    let keys = keys_with_tags(records, required);
    if records.len() > 0 {
        let earlier = records.drop_last();
        let last = records.len() - 1;
        let sub = keys_with_tags(earlier, required);
        lemma_filter_by_tags(earlier, required);
        assert forall|i: int| 0 <= i < keys.len() implies is_key_of_tagged(
            records,
            required,
            #[trigger] keys[i],
        ) by {
            if i < sub.len() {
                assert(keys[i] == sub[i]);
                assert(is_key_of_tagged(earlier, required, sub[i]));
                let k = choose|k: int|
                    0 <= k < earlier.len() && (#[trigger] earlier[k]).id == sub[i] && has_all_tags(
                        earlier[k].tags,
                        required,
                    );
                assert(records[k] == earlier[k]);
            } else {
                assert(records[last].id == keys[i]);
            }
        }
        assert forall|k: int|
            0 <= k < records.len() && has_all_tags(
                (#[trigger] records[k]).tags,
                required,
            ) implies keys.contains(records[k].id) by {
            if k < last {
                assert(earlier[k] == records[k]);
                assert(sub.contains(earlier[k].id));
                let i = choose|i: int| 0 <= i < sub.len() && sub[i] == earlier[k].id;
                assert(keys[i] == sub[i]);
            } else {
                assert(keys[keys.len() - 1] == records[k].id);
            }
        }
    }
}

/// With no tag required, the filter finds every note.
pub proof fn lemma_empty_filter_finds_all(records: Seq<StoredView>)
    ensures
        keys_with_tags(records, Seq::empty()) == records.map_values(|r: StoredView| r.id),
    decreases records.len(),
{
    let ids = records.map_values(|r: StoredView| r.id);
    if records.len() > 0 {
        lemma_empty_filter_finds_all(records.drop_last());
        assert(records.drop_last().map_values(|r: StoredView| r.id) =~= ids.drop_last());
        assert(ids =~= ids.drop_last().push(records.last().id));
    } else {
        assert(ids =~= Seq::<Seq<char>>::empty());
    }
}

} // verus!
