//! The classifier of tags: what it is trained on, and how the scores it
//! gives to the chunks of a note decide the note's tag.

use crate::context::{byte_slice, slice_bytes};
use crate::note::ContextualDocument;
use crate::segment::{chunk_text, chunks, span_of, spans};
use crate::tag::{Tag, TagView};
use crate::text::Offsets;
use crate::workspace::{lemma_with_names_grows, with_name, with_names, Workspace};
use std::ops::Range;
use vstd::prelude::*;

verus! {

/// A note gave the classifier nothing to judge: it has no chunk.
#[derive(Debug)]
pub struct EmptyClassificationInputError;

impl EmptyClassificationInputError {
    /// The error in words.
    pub fn message(&self) -> (text: String)
        ensures
            text@ == "Empty input for classification"@,
    {
        String::from_str("Empty input for classification")
    }
}

/// One row of the training set: the text of a chunk and the name of a tag
/// that the chunk's note carries.
#[derive(Debug)]
pub struct LabeledChunk {
    pub text: String,
    pub tag: String,
}

/// What a row of the training set holds.
pub struct RowView {
    pub text: Seq<char>,
    pub tag: Seq<char>,
}

impl View for LabeledChunk {
    type V = RowView;

    open spec fn view(&self) -> RowView {
        RowView { text: self.text@, tag: self.tag@ }
    }
}

/// What each row of `rows` holds.
pub open spec fn row_views(rows: Seq<LabeledChunk>) -> Seq<RowView> {
    rows.map_values(|r: LabeledChunk| r@)
}

/// The rows that one chunk gives: one for each tag of its note, in the
/// order of the tags.
pub open spec fn chunk_rows(text: Seq<char>, tags: Seq<TagView>) -> Seq<RowView> {
    tags.map_values(|t: TagView| RowView { text: text, tag: t.name })
}

/// The rows that a note gives whose text `body` is cut into `chunks`: the
/// rows of its chunks, chunk after chunk.
pub open spec fn note_rows(body: Seq<char>, chunks: Seq<(int, int)>, tags: Seq<TagView>) -> Seq<
    RowView,
>
    decreases chunks.len(),
{
    if chunks.len() == 0 {
        seq![]
    } else {
        note_rows(body, chunks.drop_last(), tags) + chunk_rows(
            byte_slice(body, chunks.last().0, chunks.last().1),
            tags,
        )
    }
}

/// The rows that the notes give, note after note, each cut into its chunks.
pub open spec fn corpus_rows(notes: Seq<crate::note::NoteView>) -> Seq<RowView>
    decreases notes.len(),
{
    if notes.len() == 0 {
        seq![]
    } else {
        corpus_rows(notes.drop_last()) + note_rows(
            notes.last().body,
            chunks(notes.last().body),
            notes.last().tags,
        )
    }
}

/// A note with `c` chunks and `t` tags gives `c * t` rows.
pub proof fn lemma_note_rows_len(body: Seq<char>, chunks: Seq<(int, int)>, tags: Seq<TagView>)
    ensures
        note_rows(body, chunks, tags).len() == chunks.len() * tags.len(),
    decreases chunks.len(),
{
    if chunks.len() > 0 {
        lemma_note_rows_len(body, chunks.drop_last(), tags);
        assert(chunks.len() * tags.len() == (chunks.len() - 1) * tags.len() + tags.len())
            by (nonlinear_arith);
    }
}

/// The rows that `note` gives when its text is cut into `chunk_ranges`.
pub fn note_examples(note: &ContextualDocument, chunk_ranges: &Vec<Range<usize>>) -> (rows: Vec<
    LabeledChunk,
>)
    ensures
        row_views(rows@) == note_rows(note@.body, spans(chunk_ranges@), note@.tags),
        rows@.len() == chunk_ranges@.len() * note.tags@.len(),
{
    let body: &str = note.document.body.as_str();
    let table: Offsets = Offsets::of(body);
    let mut rows: Vec<LabeledChunk> = Vec::new();
    let mut i: usize = 0;
    let ghost all = spans(chunk_ranges@);
    assert(all.take(0) =~= Seq::<(int, int)>::empty());
    while i < chunk_ranges.len()
        invariant
            table.wf(),
            table.chars@ == body@,
            body@ == note@.body,
            all == spans(chunk_ranges@),
            0 <= i <= chunk_ranges@.len(),
            row_views(rows@) == note_rows(note@.body, all.take(i as int), note@.tags),
        decreases chunk_ranges@.len() - i,
    {
        let piece: &str = slice_bytes(body, &table, chunk_ranges[i].start, chunk_ranges[i].end);
        let ghost before = row_views(rows@);
        let ghost wanted = chunk_rows(piece@, note@.tags);
        let mut k: usize = 0;
        while k < note.tags.len()
            invariant
                0 <= k <= note.tags@.len(),
                wanted == chunk_rows(piece@, note@.tags),
                row_views(rows@) == before + wanted.take(k as int),
            decreases note.tags@.len() - k,
        {
            let ghost so_far = row_views(rows@);
            let row = LabeledChunk {
                text: String::from_str(piece),
                tag: note.tags[k].name.clone(),
            };
            rows.push(row);
            assert(row_views(rows@) =~= so_far.push(row@));
            assert(row@ == wanted[k as int]);
            assert(row_views(rows@) =~= before + wanted.take(k as int + 1));
            k = k + 1;
        }
        proof {
            assert(wanted.take(note.tags@.len() as int) =~= wanted);
            assert(all.take(i as int + 1).drop_last() =~= all.take(i as int));
            assert(all.take(i as int + 1).last() == span_of(chunk_ranges@[i as int]));
        }
        i = i + 1;
    }
    proof {
        assert(all.take(chunk_ranges@.len() as int) =~= all);
        lemma_note_rows_len(note@.body, all, note@.tags);
    }
    rows
}

/// The training set that `documents` give: each note is cut into its
/// chunks, and each chunk gives one row for each tag of its note.
pub fn training_examples(documents: &Vec<ContextualDocument>) -> (rows: Vec<LabeledChunk>)
    ensures
        row_views(rows@) == corpus_rows(crate::index::note_views(documents@)),
{
    let mut rows: Vec<LabeledChunk> = Vec::new();
    let mut i: usize = 0;
    let ghost notes = crate::index::note_views(documents@);
    assert(notes.take(0) =~= Seq::<crate::note::NoteView>::empty());
    while i < documents.len()
        invariant
            0 <= i <= documents@.len(),
            notes == crate::index::note_views(documents@),
            row_views(rows@) == corpus_rows(notes.take(i as int)),
        decreases documents@.len() - i,
    {
        let ranges: Vec<Range<usize>> = chunk_text(documents[i].document.body.as_str());
        let mut more: Vec<LabeledChunk> = note_examples(&documents[i], &ranges);
        let ghost before = row_views(rows@);
        let ghost added = row_views(more@);
        rows.append(&mut more);
        proof {
            assert(row_views(rows@) =~= before + added);
            assert(notes.take(i as int + 1).drop_last() =~= notes.take(i as int));
            assert(notes.take(i as int + 1).last() == documents@[i as int]@);
        }
        i = i + 1;
    }
    assert(notes.take(documents@.len() as int) =~= notes);
    rows
}

/// Whether `best` is the first index at which `scores` is greatest.
pub open spec fn is_first_greatest(scores: Seq<i64>, best: int) -> bool {
    &&& 0 <= best < scores.len()
    &&& forall|j: int| 0 <= j < scores.len() ==> scores[j] <= scores[best]
    &&& forall|j: int| 0 <= j < best ==> scores[j] < scores[best]
}

/// The first index at which `scores` is greatest; 0 where there is no score.
pub open spec fn first_greatest(scores: Seq<i64>) -> int
    decreases scores.len(),
{
    if scores.len() <= 1 {
        0
    } else if scores.last() > scores[first_greatest(scores.drop_last())] {
        scores.len() - 1
    } else {
        first_greatest(scores.drop_last())
    }
}

/// [`first_greatest`] is the first index at which the scores are greatest.
pub proof fn lemma_first_greatest(scores: Seq<i64>)
    requires
        scores.len() > 0,
    ensures
        is_first_greatest(scores, first_greatest(scores)),
    decreases scores.len(),
{
    if scores.len() > 1 {
        let shorter = scores.drop_last();
        lemma_first_greatest(shorter);
        let best = first_greatest(shorter);
        assert(shorter[best] == scores[best]);
        assert forall|j: int| 0 <= j < scores.len() - 1 implies scores[j] <= scores[best] by {
            assert(shorter[j] == scores[j]);
        }
        assert forall|j: int| 0 <= j < best implies scores[j] < scores[best] by {
            assert(shorter[j] == scores[j]);
        }
    }
}

/// The class with the greatest score, the lowest such class if several
/// share it; none where there is no class.
pub fn most_likely_class(scores: &Vec<i64>) -> (best: Option<usize>)
    ensures
        best is Some <==> scores@.len() > 0,
        best is Some ==> best->0 == first_greatest(scores@),
        best is Some ==> is_first_greatest(scores@, best->0 as int),
{
    if scores.len() == 0 {
        return None;
    }
    let mut best: usize = 0;
    let mut i: usize = 1;
    while i < scores.len()
        invariant
            0 <= best < i <= scores@.len(),
            best == first_greatest(scores@.take(i as int)),
        decreases scores@.len() - i,
    {
        proof {
            assert(scores@.take(i as int + 1).drop_last() =~= scores@.take(i as int));
        }
        if scores[i] > scores[best] {
            best = i;
        }
        i = i + 1;
    }
    proof {
        assert(scores@.take(scores@.len() as int) =~= scores@);
        lemma_first_greatest(scores@);
    }
    Some(best)
}

/// Whether each of `rows` holds `class_count` scores.
pub open spec fn all_of_length<T>(rows: Seq<Vec<T>>, class_count: int) -> bool {
    forall|i: int| 0 <= i < rows.len() ==> (#[trigger] rows[i])@.len() == class_count
}

/// Length of the shortest of `rows`.
pub open spec fn shortest<T>(rows: Seq<Vec<T>>) -> int
    decreases rows.len(),
{
    if rows.len() == 0 {
        0
    } else if rows.len() == 1 {
        rows[0]@.len() as int
    } else if rows.last()@.len() < shortest(rows.drop_last()) {
        rows.last()@.len() as int
    } else {
        shortest(rows.drop_last())
    }
}

/// Whether `total` is what adding up column `column` of the rows from row
/// `from` up to, not including, row `upto` gives when the sum so far is `sum`:
/// with each row, `combine` makes the next sum of the sum so far and the row's
/// score.
pub open spec fn adds_up<T, F: Fn(&T, &T) -> T>(
    combine: F,
    rows: Seq<Vec<T>>,
    column: int,
    from: int,
    upto: int,
    sum: T,
    total: T,
) -> bool
    decreases upto - from,
{
    if from >= upto {
        total == sum
    } else {
        exists|next: T|
            #[trigger] combine.ensures((&sum, &rows[from]@[column]), next) && adds_up(
                combine,
                rows,
                column,
                from + 1,
                upto,
                next,
                total,
            )
    }
}

/// Whether `total` is the sum of column `column` of the first `upto` rows:
/// the first row's score, to which the scores of the further rows are added
/// one after the other.
pub open spec fn is_column_sum<T, F: Fn(&T, &T) -> T>(
    combine: F,
    rows: Seq<Vec<T>>,
    column: int,
    upto: int,
    total: T,
) -> bool {
    adds_up(combine, rows, column, 1, upto, rows[0]@[column], total)
}

/// One more row added to a sum of a column is the sum of the column with
/// that row.
pub proof fn lemma_adds_up_step<T, F: Fn(&T, &T) -> T>(
    combine: F,
    rows: Seq<Vec<T>>,
    column: int,
    from: int,
    upto: int,
    sum: T,
    before: T,
    total: T,
)
    requires
        from <= upto,
        adds_up(combine, rows, column, from, upto, sum, before),
        combine.ensures((&before, &rows[upto]@[column]), total),
    ensures
        adds_up(combine, rows, column, from, upto + 1, sum, total),
    decreases upto - from,
{
    if from >= upto {
        assert(before == sum);
        assert(adds_up(combine, rows, column, from + 1, upto + 1, total, total));
    } else {
        let next = choose|next: T|
            #[trigger] combine.ensures((&sum, &rows[from]@[column]), next) && adds_up(
                combine,
                rows,
                column,
                from + 1,
                upto,
                next,
                before,
            );
        lemma_adds_up_step(combine, rows, column, from + 1, upto, next, before, total);
    }
}

/// The scores of a note: the scores of its chunks added up class by class,
/// from the first chunk on. A note without a chunk has no scores. Where every
/// chunk has a score for each class, so has the note.
pub fn sum_scores<T, F: Fn(&T, &T) -> T>(chunk_scores: Vec<Vec<T>>, combine: F) -> (totals: Option<
    Vec<T>,
>)
    requires
        forall|a: &T, b: &T| combine.requires((a, b)),
    ensures
        totals is Some <==> chunk_scores@.len() > 0,
        totals is Some ==> totals->0@.len() == shortest(chunk_scores@),
        totals is Some ==> forall|class_count: int|
            #[trigger] all_of_length(chunk_scores@, class_count) ==> totals->0@.len()
                == class_count,
        totals is Some ==> forall|j: int|
            0 <= j < totals->0@.len() ==> is_column_sum(
                combine,
                chunk_scores@,
                j,
                chunk_scores@.len() as int,
                #[trigger] totals->0@[j],
            ),
{
    if chunk_scores.len() == 0 {
        return None;
    }
    let mut rest: Vec<Vec<T>> = chunk_scores;
    let mut totals: Vec<T> = rest.remove(0);
    let ghost all = chunk_scores@;
    assert(all.take(1).drop_last() =~= Seq::<Vec<T>>::empty());
    let mut i: usize = 0;
    while i < rest.len()
        invariant
            0 <= i <= rest@.len(),
            all == chunk_scores@,
            all.len() == rest@.len() + 1,
            forall|k: int| 0 <= k < rest@.len() ==> rest@[k] == all[k + 1],
            forall|a: &T, b: &T| combine.requires((a, b)),
            totals@.len() == shortest(all.take(i as int + 1)),
            forall|j: int|
                0 <= j < totals@.len() ==> is_column_sum(
                    combine,
                    all,
                    j,
                    i as int + 1,
                    #[trigger] totals@[j],
                ),
        decreases rest@.len() - i,
    {
        let row: &Vec<T> = &rest[i];
        let mut next: Vec<T> = Vec::new();
        let mut j: usize = 0;
        while j < totals.len() && j < row.len()
            invariant
                0 <= j <= totals@.len(),
                j <= row@.len(),
                0 <= i < rest@.len(),
                all.len() == rest@.len() + 1,
                *row == rest@[i as int],
                *row == all[i as int + 1],
                forall|a: &T, b: &T| combine.requires((a, b)),
                next@.len() == j,
                forall|c: int|
                    0 <= c < totals@.len() ==> is_column_sum(
                        combine,
                        all,
                        c,
                        i as int + 1,
                        #[trigger] totals@[c],
                    ),
                forall|c: int|
                    0 <= c < j ==> is_column_sum(combine, all, c, i as int + 2, #[trigger] next@[c]),
            decreases totals@.len() - j,
        {
            let sum: T = combine(&totals[j], &row[j]);
            proof {
                assert(is_column_sum(combine, all, j as int, i as int + 1, totals@[j as int]));
                lemma_adds_up_step(
                    combine,
                    all,
                    j as int,
                    1,
                    i as int + 1,
                    all[0]@[j as int],
                    totals@[j as int],
                    sum,
                );
            }
            next.push(sum);
            j = j + 1;
        }
        proof {
            assert(all.take(i as int + 2).drop_last() =~= all.take(i as int + 1));
            assert(all.take(i as int + 2).last() == all[i as int + 1]);
        }
        totals = next;
        i = i + 1;
    }
    proof {
        assert(all.take(all.len() as int) =~= all);
        assert forall|class_count: int| #[trigger]
            all_of_length(all, class_count) implies shortest(all) == class_count by {
            lemma_shortest_of_equal(all, class_count);
        }
    }
    Some(totals)
}

/// Where each chunk has a score for each of `class_count` classes, the
/// shortest list of scores has that many.
pub proof fn lemma_shortest_of_equal<T>(rows: Seq<Vec<T>>, class_count: int)
    requires
        rows.len() > 0,
        all_of_length(rows, class_count),
    ensures
        shortest(rows) == class_count,
    decreases rows.len(),
{
    if rows.len() > 1 {
        assert forall|i: int| 0 <= i < rows.drop_last().len() implies (
        #[trigger] rows.drop_last()[i])@.len() == class_count by {
            assert(rows.drop_last()[i] == rows[i]);
        }
        lemma_shortest_of_equal(rows.drop_last(), class_count);
        assert(rows.last() == rows[rows.len() - 1]);
    }
}

/// One example of the training set: the text of a chunk and the number
/// of the class it is an example of.
#[derive(Debug)]
pub struct TrainingExample {
    pub text: String,
    pub class: u32,
}

/// The tags are more than can be numbered.
#[derive(Debug)]
pub struct TooManyTagsError;

impl TooManyTagsError {
    /// The error in words.
    pub fn message(&self) -> (text: String)
        ensures
            text@ == "Too many tags to number"@,
    {
        String::from_str("Too many tags to number")
    }
}

/// The tag names of `rows`, in their order.
pub open spec fn row_tags(rows: Seq<RowView>) -> Seq<Seq<char>> {
    rows.map_values(|r: RowView| r.tag)
}

/// Whether `examples` are `rows` with each tag name replaced by its number
/// in `vocabulary`.
pub open spec fn labels(
    rows: Seq<RowView>,
    vocabulary: Seq<Seq<char>>,
    examples: Seq<TrainingExample>,
) -> bool {
    &&& examples.len() == rows.len()
    &&& forall|k: int|
        0 <= k < rows.len() ==> (#[trigger] examples[k]).text@ == rows[k].text && examples[k].class
            == crate::workspace::name_position(vocabulary, rows[k].tag, 0) && examples[k].class
            < vocabulary.len()
}

/// Replaces the tag name of each row by the tag's number in the workspace,
/// giving a number to each name that has none, in the order of the rows.
pub fn label_rows(workspace: &mut Workspace, rows: Vec<LabeledChunk>) -> (labeled: Result<
    Vec<TrainingExample>,
    TooManyTagsError,
>)
    requires
        old(workspace).wf(),
    ensures
        final(workspace).wf(),
        final(workspace).location == old(workspace).location,
        final(workspace).index == old(workspace).index,
        final(workspace).cached() == old(workspace).cached(),
        labeled is Ok <==> with_names(old(workspace).vocabulary(), row_tags(row_views(rows@))).len()
            <= u32::MAX,
        labeled is Ok ==> final(workspace).vocabulary() == with_names(
            old(workspace).vocabulary(),
            row_tags(row_views(rows@)),
        ) && labels(row_views(rows@), final(workspace).vocabulary(), labeled->Ok_0@),
{
    let mut examples: Vec<TrainingExample> = Vec::new();
    let mut i: usize = 0;
    let ghost all = row_views(rows@);
    let ghost names = row_tags(all);
    let ghost start = workspace.vocabulary();
    assert(names.take(0) =~= Seq::<Seq<char>>::empty());
    while i < rows.len()
        invariant
            0 <= i <= rows@.len(),
            all == row_views(rows@),
            names == row_tags(all),
            start == old(workspace).vocabulary(),
            workspace.wf(),
            workspace.location == old(workspace).location,
            workspace.index == old(workspace).index,
            workspace.cached() == old(workspace).cached(),
            workspace.vocabulary() == with_names(start, names.take(i as int)),
            labels(all.take(i as int), workspace.vocabulary(), examples@),
        decreases rows@.len() - i,
    {
        let ghost before = workspace.vocabulary();
        let ghost name = rows@[i as int].tag@;
        proof {
            assert(names.take(i as int + 1).drop_last() =~= names.take(i as int));
            assert(names.take(i as int + 1).last() == name);
            assert(all[i as int] == rows@[i as int]@);
            crate::workspace::lemma_name_position(before, name, 0);
            assert(labels(all.take(i as int), before, examples@));
        }
        let known: Option<u32> = workspace.tag_id(rows[i].tag.as_str());
        let class: u32 = match known {
            Some(class) => class,
            None => {
                if workspace.tag_count() >= u32::MAX as usize {
                    proof {
                        lemma_with_names_grows(start, names, i as int + 1);
                    }
                    return Err(TooManyTagsError);
                }
                workspace.get_tag_id(rows[i].tag.as_str())
            },
        };
        proof {
            let after = workspace.vocabulary();
            assert(after == with_name(before, name));
            if after != before {
                crate::workspace::lemma_position_of_new(before, name, 0);
            }
            assert forall|k: int| 0 <= k < i implies (#[trigger] examples@[k]).class
                == crate::workspace::name_position(after, all.take(i as int + 1)[k].tag, 0)
                && examples@[k].class < after.len() by {
                assert(all.take(i as int)[k] == all.take(i as int + 1)[k]);
                assert(examples@[k].class == crate::workspace::name_position(
                    before,
                    all.take(i as int)[k].tag,
                    0,
                ) && examples@[k].class < before.len());
                if after != before {
                    crate::workspace::lemma_position_stable(
                        before,
                        name,
                        all.take(i as int)[k].tag,
                        0,
                    );
                }
            }
        }
        let ghost so_far = examples@;
        examples.push(TrainingExample { text: rows[i].text.clone(), class });
        proof {
            assert forall|k: int| 0 <= k < i + 1 implies (#[trigger] examples@[k]).text@
                == all.take(i as int + 1)[k].text && examples@[k].class
                == crate::workspace::name_position(
                workspace.vocabulary(),
                all.take(i as int + 1)[k].tag,
                0,
            ) && examples@[k].class < workspace.vocabulary().len() by {
                if k < i {
                    assert(examples@[k] == so_far[k]);
                    assert(all.take(i as int)[k] == all.take(i as int + 1)[k]);
                }
            }
        }
        i = i + 1;
    }
    proof {
        assert(names.take(rows@.len() as int) =~= names);
        assert(all.take(rows@.len() as int) =~= all);
    }
    Ok(examples)
}

/// A classifier as the workspace keeps it: the number of classes it was
/// trained for, which is the number of tags known at that time.
#[derive(Debug)]
pub struct TagClassifier {
    pub class_count: usize,
}

impl TagClassifier {
    /// Whether each class of the classifier is a tag of `workspace`.
    pub open spec fn fits(&self, workspace: &Workspace) -> bool {
        0 < self.class_count <= workspace.vocabulary().len()
    }

    /// What a classifier for `workspace` is trained on: the rows that the
    /// bootstrap corpus and then `documents` give, each tag name replaced by
    /// its number. Names that had no number get one, and the classifier has as
    /// many classes as the workspace then has tags.
    pub fn new(
        workspace: &mut Workspace,
        bootstrap: &Vec<ContextualDocument>,
        documents: &Vec<ContextualDocument>,
    ) -> (trained: Result<(TagClassifier, Vec<TrainingExample>), TooManyTagsError>)
        requires
            old(workspace).wf(),
        ensures
            final(workspace).wf(),
            final(workspace).location == old(workspace).location,
            final(workspace).index == old(workspace).index,
            final(workspace).cached() == old(workspace).cached(),
            trained is Ok <==> with_names(
                old(workspace).vocabulary(),
                row_tags(training_rows(bootstrap@, documents@)),
            ).len() <= u32::MAX,
            trained is Ok ==> final(workspace).vocabulary() == with_names(
                old(workspace).vocabulary(),
                row_tags(training_rows(bootstrap@, documents@)),
            ) && labels(
                training_rows(bootstrap@, documents@),
                final(workspace).vocabulary(),
                trained->Ok_0.1@,
            ) && trained->Ok_0.0.class_count == final(workspace).vocabulary().len(),
    {
        let mut rows: Vec<LabeledChunk> = training_examples(bootstrap);
        let mut more: Vec<LabeledChunk> = training_examples(documents);
        let ghost first = row_views(rows@);
        let ghost second = row_views(more@);
        rows.append(&mut more);
        assert(row_views(rows@) =~= first + second);
        match label_rows(workspace, rows) {
            Ok(examples) => Ok((TagClassifier { class_count: workspace.tag_count() }, examples)),
            Err(e) => Err(e),
        }
    }

    /// The tag of a note whose scores, class by class, are `totals`: the
    /// tag whose number is the class with the greatest score, the lowest such
    /// class if several share it. The tag counts as chosen by the classifier.
    /// A note without scores, having no chunk, gets no tag.
    pub fn classify(&self, workspace: &Workspace, totals: Option<&Vec<i64>>) -> (tag: Result<
        Tag,
        EmptyClassificationInputError,
    >)
        requires
            workspace.wf(),
            self.fits(workspace),
            totals is Some ==> totals->0@.len() == self.class_count,
        ensures
            tag is Ok <==> totals is Some,
            tag is Ok ==> !tag->Ok_0.manual && tag->Ok_0.name@ == workspace.vocabulary()[first_greatest(
                totals->0@,
            )],
    {
        let scores: &Vec<i64> = match totals {
            Some(scores) => scores,
            None => {
                return Err(EmptyClassificationInputError);
            },
        };
        match most_likely_class(scores) {
            Some(best) => Ok(Tag { name: workspace.get_tag_name(best as u32), manual: false }),
            None => Err(EmptyClassificationInputError),
        }
    }
}

/// The rows that the bootstrap corpus and then the documents give.
pub open spec fn training_rows(
    bootstrap: Seq<ContextualDocument>,
    documents: Seq<ContextualDocument>,
) -> Seq<RowView> {
    corpus_rows(crate::index::note_views(bootstrap)) + corpus_rows(
        crate::index::note_views(documents),
    )
}

/// Number of notes of the bootstrap corpus.
pub const BOOTSTRAP_NOTES: usize = 10;

/// Title of the bootstrap note with index `i`.
pub fn bootstrap_title(i: usize) -> (title: &'static str)
    ensures
        title@ == bootstrap_title_spec(i as int),
{
    if i == 0 {
        "Intro to Integrals"
    } else if i == 1 {
        "SIMD Intro"
    } else if i == 2 {
        "Discrete Math"
    } else if i == 3 {
        "Statistics"
    } else if i == 4 {
        "Reactivity systems"
    } else if i == 5 {
        "Operating Systems"
    } else if i == 6 {
        "History"
    } else if i == 7 {
        "Philosophy"
    } else if i == 8 {
        "Science"
    } else {
        "Physics"
    }
}

/// Topic of the bootstrap note with index `i`, which is its one tag.
pub fn bootstrap_topic(i: usize) -> (topic: &'static str)
    ensures
        topic@ == bootstrap_topic_spec(i as int),
{
    if i == 0 || i == 2 || i == 3 {
        "Math"
    } else if i == 1 || i == 4 || i == 5 {
        "Computer Science"
    } else if i == 6 {
        "History"
    } else if i == 7 {
        "Philosophy"
    } else if i == 8 {
        "Science"
    } else {
        "Physics"
    }
}

/// Title of the bootstrap note with index `i`.
pub open spec fn bootstrap_title_spec(i: int) -> Seq<char> {
    if i == 0 {
        "Intro to Integrals"@
    } else if i == 1 {
        "SIMD Intro"@
    } else if i == 2 {
        "Discrete Math"@
    } else if i == 3 {
        "Statistics"@
    } else if i == 4 {
        "Reactivity systems"@
    } else if i == 5 {
        "Operating Systems"@
    } else if i == 6 {
        "History"@
    } else if i == 7 {
        "Philosophy"@
    } else if i == 8 {
        "Science"@
    } else {
        "Physics"@
    }
}

/// Topic of the bootstrap note with index `i`.
pub open spec fn bootstrap_topic_spec(i: int) -> Seq<char> {
    if i == 0 || i == 2 || i == 3 {
        "Math"@
    } else if i == 1 || i == 4 || i == 5 {
        "Computer Science"@
    } else if i == 6 {
        "History"@
    } else if i == 7 {
        "Philosophy"@
    } else if i == 8 {
        "Science"@
    } else {
        "Physics"@
    }
}

/// The bootstrap corpus, made of the texts of its notes: each text under
/// its title, with its topic as a tag that counts as set by a user. Texts
/// beyond the tenth are left aside.
pub fn default_documents(texts: Vec<String>) -> (corpus: Vec<ContextualDocument>)
    ensures
        corpus@.len() == if texts@.len() < BOOTSTRAP_NOTES {
            texts@.len()
        } else {
            BOOTSTRAP_NOTES as nat
        },
        forall|i: int|
            0 <= i < corpus@.len() ==> (#[trigger] corpus@[i])@ == (crate::note::NoteView {
                title: bootstrap_title_spec(i),
                body: texts@[i]@,
                tags: seq![TagView { name: bootstrap_topic_spec(i), manual: true }],
            }),
{
    let mut corpus: Vec<ContextualDocument> = Vec::new();
    let mut i: usize = 0;
    while i < texts.len() && i < BOOTSTRAP_NOTES
        invariant
            0 <= i <= texts@.len(),
            i <= BOOTSTRAP_NOTES,
            corpus@.len() == i,
            forall|k: int|
                0 <= k < i ==> (#[trigger] corpus@[k])@ == (crate::note::NoteView {
                    title: bootstrap_title_spec(k),
                    body: texts@[k]@,
                    tags: seq![TagView { name: bootstrap_topic_spec(k), manual: true }],
                }),
        decreases texts@.len() - i,
    {
        let mut tags: Vec<Tag> = Vec::new();
        tags.push(Tag { name: String::from_str(bootstrap_topic(i)), manual: true });
        let note = ContextualDocument {
            document: crate::note::Document::from_parts(
                String::from_str(bootstrap_title(i)),
                texts[i].clone(),
            ),
            tags,
        };
        assert(note@.tags =~= seq![TagView { name: bootstrap_topic_spec(i as int), manual: true }]);
        corpus.push(note);
        i = i + 1;
    }
    corpus
}

} // verus!
