//! Notes as the index knows them: a document under its title, the tags on
//! it, and the record that tells whether a note that is saved again changed.

use crate::segment::spans;
use crate::tag::{tag_views, Tag, TagView};
use std::ops::Range;
use vstd::prelude::*;

verus! {

/// A note: its title, by which it is found, and its text.
#[derive(Debug)]
pub struct Document {
    pub title: String,
    pub body: String,
}

impl Document {
    /// A document with the given title and text.
    pub fn from_parts(title: String, body: String) -> (document: Document)
        ensures
            document.title == title,
            document.body == body,
    {
        Document { title, body }
    }
}

impl Clone for Document {
    fn clone(&self) -> (copy: Self)
        ensures
            copy == *self,
    {
        Document { title: self.title.clone(), body: self.body.clone() }
    }
}

impl PartialEq for Document {
    fn eq(&self, other: &Self) -> (same: bool) {
        self.title == other.title && self.body == other.body
    }
}

impl vstd::std_specs::cmp::PartialEqSpecImpl for Document {
    open spec fn obeys_eq_spec() -> bool {
        true
    }

    open spec fn eq_spec(&self, other: &Self) -> bool {
        self.title@ == other.title@ && self.body@ == other.body@
    }
}

/// A note together with the tags on it.
#[derive(Debug)]
pub struct ContextualDocument {
    pub document: Document,
    pub tags: Vec<Tag>,
}

/// What a tagged note is: its title, its text, and what its tags are.
pub struct NoteView {
    pub title: Seq<char>,
    pub body: Seq<char>,
    pub tags: Seq<TagView>,
}

impl View for ContextualDocument {
    type V = NoteView;

    open spec fn view(&self) -> NoteView {
        NoteView {
            title: self.document.title@,
            body: self.document.body@,
            tags: tag_views(self.tags@),
        }
    }
}

/// No note is stored under the title asked for.
#[derive(Debug)]
pub struct DocumentDoesNotExistError;

impl DocumentDoesNotExistError {
    /// The error in words.
    pub fn message(&self) -> (text: String)
        ensures
            text@ == "document does not exist"@,
    {
        String::from_str("document does not exist")
    }
}

/// Copies a list of tags.
pub fn clone_tags(tags: &Vec<Tag>) -> (copy: Vec<Tag>)
    ensures
        copy@ == tags@,
{
    let mut copy: Vec<Tag> = Vec::new();
    let mut i: usize = 0;
    while i < tags.len()
        invariant
            0 <= i <= tags@.len(),
            copy@ == tags@.take(i as int),
        decreases tags@.len() - i,
    {
        copy.push(tags[i].clone());
        assert(copy@ =~= tags@.take(i as int + 1));
        i = i + 1;
    }
    assert(tags@.take(tags@.len() as int) =~= tags@);
    copy
}

/// Copies a list of ranges.
pub fn clone_ranges(ranges: &Vec<Range<usize>>) -> (copy: Vec<Range<usize>>)
    ensures
        copy@ == ranges@,
{
    let mut copy: Vec<Range<usize>> = Vec::new();
    let mut i: usize = 0;
    while i < ranges.len()
        invariant
            0 <= i <= ranges@.len(),
            copy@ == ranges@.take(i as int),
        decreases ranges@.len() - i,
    {
        let start: usize = ranges[i].start;
        let end: usize = ranges[i].end;
        copy.push(start..end);
        assert(copy@ =~= ranges@.take(i as int + 1));
        i = i + 1;
    }
    assert(ranges@.take(ranges@.len() as int) =~= ranges@);
    copy
}

/// Whether two lists of ranges hold the same ranges in the same order.
pub fn same_ranges(a: &Vec<Range<usize>>, b: &Vec<Range<usize>>) -> (same: bool)
    ensures
        same == (spans(a@) == spans(b@)),
{
    if a.len() != b.len() {
        assert(spans(a@).len() != spans(b@).len());
        return false;
    }
    let mut i: usize = 0;
    while i < a.len()
        invariant
            0 <= i <= a@.len(),
            a@.len() == b@.len(),
            forall|k: int| 0 <= k < i ==> spans(a@)[k] == spans(b@)[k],
        decreases a@.len() - i,
    {
        if a[i].start != b[i].start || a[i].end != b[i].end {
            assert(spans(a@)[i as int] != spans(b@)[i as int]);
            return false;
        }
        i = i + 1;
    }
    assert(spans(a@) =~= spans(b@));
    true
}

impl Clone for ContextualDocument {
    fn clone(&self) -> (copy: Self)
        ensures
            copy.document == self.document,
            copy.tags@ == self.tags@,
    {
        ContextualDocument { document: self.document.clone(), tags: clone_tags(&self.tags) }
    }
}

} // verus!
