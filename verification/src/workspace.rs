//! A workspace: the place it lives at, the index of its notes, the names of
//! its tags with the numbers the classifier knows them by, and whether a
//! trained classifier is at hand.

use crate::classifier::TagClassifier;
use crate::index::DocumentIndex;
use crate::note::ContextualDocument;
use vstd::prelude::*;
use vstd::string::StringExecFns;

verus! {

/// One workspace.
pub struct Workspace {
    /// Where the workspace lives.
    pub location: String,
    /// The notes of the workspace.
    pub index: DocumentIndex,
    /// The names of the tags, each at the index that is its number.
    pub tags: Vec<String>,
    /// The classifier at hand, if one was trained since the tags were last set.
    pub classifier: Option<TagClassifier>,
}

/// Index of the first of `names` from `from` on that is `name`; the number
/// of names if none is.
pub open spec fn name_position(names: Seq<Seq<char>>, name: Seq<char>, from: int) -> int
    decreases names.len() - from,
{
    if from >= names.len() {
        names.len() as int
    } else if names[from] == name {
        from
    } else {
        name_position(names, name, from + 1)
    }
}

/// Whether no name occurs twice.
pub open spec fn names_distinct(names: Seq<Seq<char>>) -> bool {
    forall|i: int, j: int| 0 <= i < j < names.len() ==> names[i] != names[j]
}

/// The names once `name` has a number: as before if it had one, else with
/// `name` behind the others.
pub open spec fn with_name(names: Seq<Seq<char>>, name: Seq<char>) -> Seq<Seq<char>> {
    if name_position(names, name, 0) < names.len() {
        names
    } else {
        names.push(name)
    }
}

/// The names once each of `more` has a number, taken in their order.
pub open spec fn with_names(names: Seq<Seq<char>>, more: Seq<Seq<char>>) -> Seq<Seq<char>>
    decreases more.len(),
{
    if more.len() == 0 {
        names
    } else {
        with_name(with_names(names, more.drop_last()), more.last())
    }
}

/// A name keeps its number when further names are given numbers.
pub proof fn lemma_position_stable(
    names: Seq<Seq<char>>,
    added: Seq<char>,
    name: Seq<char>,
    from: int,
)
    requires
        0 <= from <= names.len(),
        name_position(names, name, from) < names.len(),
    ensures
        name_position(names.push(added), name, from) == name_position(names, name, from),
    decreases names.len() - from,
{
    assert(names.push(added)[from] == names[from]);
    if names[from] != name {
        lemma_position_stable(names, added, name, from + 1);
    }
}

/// A new name is given the number behind all others.
pub proof fn lemma_position_of_new(names: Seq<Seq<char>>, name: Seq<char>, from: int)
    requires
        0 <= from <= names.len(),
        name_position(names, name, from) == names.len(),
    ensures
        name_position(names.push(name), name, from) == names.len(),
    decreases names.len() - from,
{
    if from < names.len() {
        assert(names.push(name)[from] == names[from]);
        lemma_position_of_new(names, name, from + 1);
    }
}

/// Giving numbers to more names never leaves fewer names numbered.
pub proof fn lemma_with_names_grows(names: Seq<Seq<char>>, more: Seq<Seq<char>>, upto: int)
    requires
        0 <= upto <= more.len(),
    ensures
        with_names(names, more.take(upto)).len() <= with_names(names, more).len(),
    decreases more.len() - upto,
{
    if upto < more.len() {
        lemma_with_names_grows(names, more, upto + 1);
        assert(more.take(upto + 1).drop_last() =~= more.take(upto));
    } else {
        assert(more.take(upto) =~= more);
    }
}

/// What [`name_position`] finds: the first place of the name, none before it.
pub proof fn lemma_name_position(names: Seq<Seq<char>>, name: Seq<char>, from: int)
    requires
        0 <= from <= names.len(),
    ensures
        from <= name_position(names, name, from) <= names.len(),
        name_position(names, name, from) < names.len() ==> names[name_position(names, name, from)]
            == name,
        forall|j: int| from <= j < name_position(names, name, from) ==> names[j] != name,
    decreases names.len() - from,
{
    if from < names.len() && names[from] != name {
        lemma_name_position(names, name, from + 1);
    }
}

impl Workspace {
    /// The names of the tags, each at the index that is its number.
    pub open spec fn vocabulary(&self) -> Seq<Seq<char>> {
        self.tags@.map_values(|n: String| n@)
    }

    /// The classifier at hand, if there is one.
    pub open spec fn cached(&self) -> Option<TagClassifier> {
        self.classifier
    }

    /// Whether the notes have distinct titles and the tags distinct names,
    /// few enough to be numbered.
    pub open spec fn wf(&self) -> bool {
        &&& self.index.wf()
        &&& names_distinct(self.vocabulary())
        &&& self.vocabulary().len() <= u32::MAX
    }

    /// A workspace at `location`, without notes, tags or classifier.
    pub fn new(location: String) -> (workspace: Workspace)
        ensures
            workspace.wf(),
            workspace.location == location,
            workspace.vocabulary() == Seq::<Seq<char>>::empty(),
            workspace.cached() is None,
            workspace.index@.len() == 0,
    {
        let workspace = Workspace {
            location,
            index: DocumentIndex::new(),
            tags: Vec::new(),
            classifier: None,
        };
        assert(workspace.vocabulary() =~= Seq::<Seq<char>>::empty());
        workspace
    }

    /// The number of the tag named `tag`. A name that has none yet is given
    /// the next number; names never lose or change their numbers.
    pub fn get_tag_id(&mut self, tag: &str) -> (id: u32)
        requires
            old(self).wf(),
            name_position(old(self).vocabulary(), tag@, 0) < old(self).vocabulary().len() || old(
                self,
            ).vocabulary().len() < u32::MAX,
        ensures
            final(self).wf(),
            final(self).vocabulary() == with_name(old(self).vocabulary(), tag@),
            id == name_position(old(self).vocabulary(), tag@, 0),
            id < final(self).vocabulary().len(),
            final(self).vocabulary()[id as int] == tag@,
            final(self).location == old(self).location,
            final(self).index == old(self).index,
            final(self).cached() == old(self).cached(),
    {
        let ghost names = self.vocabulary();
        let mut i: usize = 0;
        while i < self.tags.len()
            invariant
                names == self.vocabulary(),
                *self == *old(self),
                old(self).wf(),
                name_position(names, tag@, 0) < names.len() || names.len() < u32::MAX,
                0 <= i <= self.tags@.len(),
                name_position(names, tag@, i as int) == name_position(names, tag@, 0),
                forall|j: int| 0 <= j < i ==> names[j] != tag@,
            decreases self.tags@.len() - i,
        {
            assert(names[i as int] == self.tags@[i as int]@);
            if self.tags[i].as_str().eq(tag) {
                return i as u32;
            }
            i = i + 1;
        }
        self.tags.push(String::from_str(tag));
        assert(self.vocabulary() =~= names.push(tag@));
        i as u32
    }

    /// The number of the tag named `tag`, if it has one.
    pub fn tag_id(&self, tag: &str) -> (id: Option<u32>)
        requires
            self.wf(),
        ensures
            id is Some <==> name_position(self.vocabulary(), tag@, 0) < self.vocabulary().len(),
            id is Some ==> id->0 == name_position(self.vocabulary(), tag@, 0),
    {
        let ghost names = self.vocabulary();
        let mut i: usize = 0;
        while i < self.tags.len()
            invariant
                names == self.vocabulary(),
                self.wf(),
                0 <= i <= self.tags@.len(),
                name_position(names, tag@, i as int) == name_position(names, tag@, 0),
            decreases self.tags@.len() - i,
        {
            assert(names[i as int] == self.tags@[i as int]@);
            if self.tags[i].as_str().eq(tag) {
                return Some(i as u32);
            }
            i = i + 1;
        }
        None
    }

    /// The name of the tag with the number `id`.
    pub fn get_tag_name(&self, id: u32) -> (name: String)
        requires
            id < self.vocabulary().len(),
        ensures
            name@ == self.vocabulary()[id as int],
    {
        self.tags[id as usize].clone()
    }

    /// How many tags have a number.
    pub fn tag_count(&self) -> (count: usize)
        ensures
            count == self.vocabulary().len(),
    {
        self.tags.len()
    }

    /// Throws the classifier away, so that the next classification trains
    /// a new one. Called whenever the user sets the tags of a note.
    pub fn retrain_classifier(&mut self)
        ensures
            final(self).cached() is None,
            final(self).vocabulary() == old(self).vocabulary(),
            final(self).location == old(self).location,
            final(self).index == old(self).index,
    {
        self.classifier = None;
    }

    /// Whether a classification has to train a classifier first.
    pub fn needs_training(&self) -> (needed: bool)
        ensures
            needed == (self.cached() is None),
    {
        self.classifier.is_none()
    }

    /// Keeps `classifier` at hand for the classifications to come.
    pub fn keep_classifier(&mut self, classifier: TagClassifier)
        ensures
            final(self).cached() == Some(classifier),
            final(self).vocabulary() == old(self).vocabulary(),
            final(self).location == old(self).location,
            final(self).index == old(self).index,
    {
        self.classifier = Some(classifier);
    }

    /// The tag that the classifier at hand gives a note whose scores,
    /// class by class, are `totals`; a note without scores gets none.
    pub fn classify(&self, totals: Option<&Vec<i64>>) -> (tag: Result<
        crate::tag::Tag,
        crate::classifier::EmptyClassificationInputError,
    >)
        requires
            self.wf(),
            self.cached() is Some,
            self.cached()->0.fits(self),
            totals is Some ==> totals->0@.len() == self.cached()->0.class_count,
        ensures
            tag is Ok <==> totals is Some,
            tag is Ok ==> !tag->Ok_0.manual && tag->Ok_0.name@
                == self.vocabulary()[crate::classifier::first_greatest(totals->0@)],
    {
        match &self.classifier {
            Some(classifier) => classifier.classify(self, totals),
            None => Err(crate::classifier::EmptyClassificationInputError),
        }
    }

    /// The notes of the workspace, with their tags.
    pub fn files(&self) -> (notes: Vec<ContextualDocument>)
        ensures
            crate::index::note_views(notes@) == crate::index::notes_of(self.index@),
    {
        self.index.select_all()
    }
}

/// Name of the file that mirrors the note titled `title`.
pub fn document_file_name(title: &str) -> (name: String)
    ensures
        name@ == title@ + ".txt"@,
{
    String::from_str(title).concat(".txt")
}

} // verus!
