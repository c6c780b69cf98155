//! Tags: a name and whether the user or the classifier gave it. Two tags are
//! the same tag when they have the same name, and tags are ordered by name.

use std::cmp::Ordering;
use vstd::prelude::*;

verus! {

/// What a tag is: the code points of its name, and who gave it.
pub struct TagView {
    pub name: Seq<char>,
    pub manual: bool,
}

/// A label on a document. `manual` is true of a tag that the user set and
/// false of one that the classifier chose. Names are taken as they are
/// written: upper and lower case differ, and so do names that differ in
/// white space.
#[derive(Debug, Eq)]
pub struct Tag {
    pub name: String,
    pub manual: bool,
}

impl View for Tag {
    type V = TagView;

    open spec fn view(&self) -> TagView {
        TagView { name: self.name@, manual: self.manual }
    }
}

impl Clone for Tag {
    fn clone(&self) -> (copy: Self)
        ensures
            copy == *self,
    {
        Tag { name: self.name.clone(), manual: self.manual }
    }
}

impl PartialEq for Tag {
    fn eq(&self, other: &Self) -> (same: bool) {
        self.name == other.name
    }
}

impl vstd::std_specs::cmp::PartialEqSpecImpl for Tag {
    open spec fn obeys_eq_spec() -> bool {
        true
    }

    open spec fn eq_spec(&self, other: &Self) -> bool {
        self.name@ == other.name@
    }
}

impl PartialOrd for Tag {
    fn partial_cmp(&self, other: &Self) -> (order: Option<Ordering>) {
        if name_before(self.name.as_str(), other.name.as_str()) {
            Some(Ordering::Less)
        } else if name_before(other.name.as_str(), self.name.as_str()) {
            Some(Ordering::Greater)
        } else {
            Some(Ordering::Equal)
        }
    }
}

impl vstd::std_specs::cmp::PartialOrdSpecImpl for Tag {
    open spec fn obeys_partial_cmp_spec() -> bool {
        true
    }

    open spec fn partial_cmp_spec(&self, other: &Self) -> Option<Ordering> {
        if lex_lt(self.name@, other.name@) {
            Some(Ordering::Less)
        } else if lex_lt(other.name@, self.name@) {
            Some(Ordering::Greater)
        } else {
            Some(Ordering::Equal)
        }
    }
}

/// The code point of `c` as a number.
pub open spec fn code(c: char) -> int {
    c as int
}

/// Whether `a` comes before `b` in the order of strings: at the first place
/// where they differ `a` has the smaller code point, or `a` ends there and `b`
/// does not.
pub open spec fn lex_lt(a: Seq<char>, b: Seq<char>) -> bool
    decreases a.len(),
{
    if b.len() == 0 {
        false
    } else if a.len() == 0 {
        true
    } else if a[0] != b[0] {
        code(a[0]) < code(b[0])
    } else {
        lex_lt(a.drop_first(), b.drop_first())
    }
}

/// No string comes before itself.
pub proof fn lemma_lex_irreflexive(a: Seq<char>)
    ensures
        !lex_lt(a, a),
    decreases a.len(),
{
    if a.len() > 0 {
        lemma_lex_irreflexive(a.drop_first());
    }
}

/// Of two different strings one comes before the other.
pub proof fn lemma_lex_total(a: Seq<char>, b: Seq<char>)
    ensures
        a == b || lex_lt(a, b) || lex_lt(b, a),
    decreases a.len(),
{
    if a.len() == 0 || b.len() == 0 {
        if a.len() == 0 && b.len() == 0 {
            assert(a =~= b);
        }
    } else if a[0] == b[0] {
        lemma_lex_total(a.drop_first(), b.drop_first());
        if a.drop_first() == b.drop_first() {
            assert(a =~= seq![a[0]] + a.drop_first());
            assert(b =~= seq![b[0]] + b.drop_first());
        }
    }
}

/// The order of strings is transitive.
pub proof fn lemma_lex_transitive(a: Seq<char>, b: Seq<char>, c: Seq<char>)
    requires
        lex_lt(a, b),
        lex_lt(b, c),
    ensures
        lex_lt(a, c),
    decreases a.len(),
{
    if a.len() > 0 && a[0] == b[0] && b[0] == c[0] {
        lemma_lex_transitive(a.drop_first(), b.drop_first(), c.drop_first());
    }
}

/// Compares two strings with `<`, which orders `str` by its bytes and so, the
/// encoding being UTF-8, by its code points from the first on.
#[verifier::external_body]
pub(crate) fn name_before(a: &str, b: &str) -> (before: bool)
    ensures
        before == lex_lt(a@, b@),
{
    a < b
}

/// What each tag of `tags` is.
pub open spec fn tag_views(tags: Seq<Tag>) -> Seq<TagView> {
    tags.map_values(|t: Tag| t@)
}

/// Index of the first tag of `tags` that is named `name`; the length of
/// `tags` if none is.
pub open spec fn first_named(tags: Seq<TagView>, name: Seq<char>) -> int
    decreases tags.len(),
{
    if tags.len() == 0 {
        0
    } else if first_named(tags.drop_last(), name) < tags.len() - 1 {
        first_named(tags.drop_last(), name)
    } else if tags.last().name == name {
        tags.len() - 1
    } else {
        tags.len() as int
    }
}

/// Whether a tag of `tags` is named `name`.
pub open spec fn has_name(tags: Seq<TagView>, name: Seq<char>) -> bool {
    exists|k: int| 0 <= k < tags.len() && (#[trigger] tags[k]).name == name
}

/// Whether each tag of `tags` comes before the next by name, so that no name
/// occurs twice.
pub open spec fn names_increasing(tags: Seq<TagView>) -> bool {
    forall|i: int, j: int|
        0 <= i < j < tags.len() ==> lex_lt((#[trigger] tags[i]).name, (#[trigger] tags[j]).name)
}

/// Whether `output` is `input` sorted by name with one tag left of each name:
/// the names of `output` increase, they are the names of `input`, and the tag
/// that stands for a name is the first of `input` with that name.
pub open spec fn is_sorted_dedup(input: Seq<TagView>, output: Seq<TagView>) -> bool {
    &&& names_increasing(output)
    &&& forall|k: int|
        0 <= k < output.len() ==> first_named(input, (#[trigger] output[k]).name) < input.len()
            && output[k] == input[first_named(input, output[k].name)]
    &&& forall|i: int| 0 <= i < input.len() ==> has_name(output, (#[trigger] input[i]).name)
}

/// The tags of `tags` that the classifier chose, in their order.
pub open spec fn automatic(tags: Seq<TagView>) -> Seq<TagView> {
    tags.filter(|t: TagView| !t.manual)
}

/// The tags of `tags` that the user set, in their order.
pub open spec fn manual(tags: Seq<TagView>) -> Seq<TagView> {
    tags.filter(|t: TagView| t.manual)
}

/// What [`first_named`] finds: the first tag with the name, and none before it.
pub proof fn lemma_first_named(tags: Seq<TagView>, name: Seq<char>)
    ensures
        0 <= first_named(tags, name) <= tags.len(),
        first_named(tags, name) < tags.len() ==> tags[first_named(tags, name)].name == name,
        forall|j: int| 0 <= j < first_named(tags, name) ==> (#[trigger] tags[j]).name != name,
    decreases tags.len(),
{
    if tags.len() > 0 {
        lemma_first_named(tags.drop_last(), name);
        assert forall|j: int| 0 <= j < first_named(tags, name) implies (#[trigger] tags[j]).name
            != name by {
            if j < tags.len() - 1 {
                assert(tags[j] == tags.drop_last()[j]);
            }
        }
        if first_named(tags.drop_last(), name) < tags.len() - 1 {
            assert(tags[first_named(tags, name)] == tags.drop_last()[first_named(tags, name)]);
        }
    }
}

/// Sorting by name and dropping repeated names has one outcome only.
pub proof fn lemma_sorted_dedup_unique(input: Seq<TagView>, a: Seq<TagView>, b: Seq<TagView>)
    requires
        is_sorted_dedup(input, a),
        is_sorted_dedup(input, b),
    ensures
        a == b,
{
    lemma_same_names_same_length(input, a, b, 0);
    assert forall|k: int| 0 <= k < a.len() implies a[k] == b[k] by {
        lemma_same_names_same_length(input, a, b, k);
    }
    assert(a =~= b);
}

/// The place in another outcome of the tag that stands at index `k` of one
/// outcome of the same input.
proof fn lemma_counterpart(input: Seq<TagView>, a: Seq<TagView>, b: Seq<TagView>, k: int) -> (w:
    int)
    requires
        is_sorted_dedup(input, a),
        is_sorted_dedup(input, b),
        0 <= k < a.len(),
    ensures
        0 <= w < b.len(),
        b[w].name == a[k].name,
{
    let name = a[k].name;
    let i = first_named(input, name);
    lemma_first_named(input, name);
    assert(i < input.len());
    assert(input[i].name == name);
    assert(has_name(b, input[i].name));
    choose|w: int| 0 <= w < b.len() && (#[trigger] b[w]).name == input[i].name
}

/// Two outcomes of sorting and deduplicating one input have the same length,
/// and the same tag at index `k`.
proof fn lemma_same_names_same_length(
    input: Seq<TagView>,
    a: Seq<TagView>,
    b: Seq<TagView>,
    k: int,
)
    requires
        is_sorted_dedup(input, a),
        is_sorted_dedup(input, b),
    ensures
        a.len() == b.len(),
        0 <= k < a.len() ==> a[k] == b[k],
{
    if a.len() < b.len() {
        let w = lemma_counterpart(input, b, a, a.len() as int);
        lemma_rank_at(input, b, a, a.len() as int, w);
    }
    if b.len() < a.len() {
        let w = lemma_counterpart(input, a, b, b.len() as int);
        lemma_rank_at(input, a, b, b.len() as int, w);
    }
    if 0 <= k < a.len() {
        let w = lemma_counterpart(input, a, b, k);
        lemma_rank_at(input, a, b, k, w);
        lemma_rank_at(input, b, a, w, k);
    }
}

/// A tag's index in one outcome is not behind the index of the tag with its
/// name in another outcome of the same input, and the two tags are the same.
proof fn lemma_rank_at(input: Seq<TagView>, a: Seq<TagView>, b: Seq<TagView>, k: int, w: int)
    requires
        is_sorted_dedup(input, a),
        is_sorted_dedup(input, b),
        0 <= k < a.len(),
        0 <= w < b.len(),
        a[k].name == b[w].name,
    ensures
        k <= w,
        a[k] == b[w],
    decreases k,
{
    if k > 0 {
        // the name before a[k] in `a` stands in `b` too, before b[w]
        let v = lemma_counterpart(input, a, b, k - 1);
        lemma_rank_at(input, a, b, k - 1, v);
        assert(lex_lt(a[k - 1].name, a[k].name));
        if v >= w {
            if v > w {
                assert(lex_lt(b[w].name, b[v].name));
                lemma_lex_transitive(b[w].name, b[v].name, b[w].name);
            }
            lemma_lex_irreflexive(b[w].name);
        }
    }
}

/// The tags of `tags` whose `manual` is `keep_manual`, in their order: the
/// user's tags of a document, or the classifier's.
pub fn tags_given_by(tags: &Vec<Tag>, keep_manual: bool) -> (kept: Vec<Tag>)
    ensures
        tag_views(kept@) == if keep_manual {
            manual(tag_views(tags@))
        } else {
            automatic(tag_views(tags@))
        },
{
    let mut kept: Vec<Tag> = Vec::new();
    let mut i: usize = 0;
    let ghost all = tag_views(tags@);
    let ghost wanted = |t: TagView| t.manual == keep_manual;
    assert(all.take(0) =~= Seq::<TagView>::empty());
    assert(all.take(0).filter(wanted) =~= Seq::<TagView>::empty()) by {
        reveal(Seq::filter);
    }
    while i < tags.len()
        invariant
            0 <= i <= tags@.len(),
            all == tag_views(tags@),
            wanted == |t: TagView| t.manual == keep_manual,
            tag_views(kept@) == all.take(i as int).filter(wanted),
        decreases tags@.len() - i,
    {
        let ghost before = tag_views(kept@);
        proof {
            assert(all.take(i as int + 1).drop_last() =~= all.take(i as int));
            assert(all.take(i as int + 1).last() == tags@[i as int]@);
            reveal(Seq::filter);
        }
        if tags[i].manual == keep_manual {
            kept.push(tags[i].clone());
            assert(tag_views(kept@) =~= before.push(tags@[i as int]@));
        }
        i = i + 1;
    }
    proof {
        assert(all.take(tags@.len() as int) =~= all);
        if keep_manual {
            assert(wanted =~= (|t: TagView| t.manual));
        } else {
            assert(wanted =~= (|t: TagView| !t.manual));
        }
    }
    kept
}

/// `tags` sorted by name, with one tag left of each name: the first of `tags`
/// that has it.
pub fn sort_dedup(tags: Vec<Tag>) -> (sorted: Vec<Tag>)
    ensures
        is_sorted_dedup(tag_views(tags@), tag_views(sorted@)),
{
    let mut sorted: Vec<Tag> = Vec::new();
    let mut i: usize = 0;
    let ghost input = tag_views(tags@);
    assert(input.take(0) =~= Seq::<TagView>::empty());
    while i < tags.len()
        invariant
            0 <= i <= tags@.len(),
            input == tag_views(tags@),
            is_sorted_dedup(input.take(i as int), tag_views(sorted@)),
        decreases tags@.len() - i,
    {
        let ghost seen = input.take(i as int);
        let ghost next = input.take(i as int + 1);
        let ghost old_out = tag_views(sorted@);
        let ghost name = tags@[i as int].name@;
        let mut p: usize = 0;
        while p < sorted.len() && name_before(sorted[p].name.as_str(), tags[i].name.as_str())
            invariant
                0 <= i < tags@.len(),
                0 <= p <= sorted@.len(),
                name == tags@[i as int].name@,
                old_out == tag_views(sorted@),
                forall|q: int| 0 <= q < p ==> lex_lt((#[trigger] old_out[q]).name, name),
            decreases sorted@.len() - p,
        {
            assert(old_out[p as int] == sorted@[p as int]@);
            p = p + 1;
        }
        proof {
            assert(next.drop_last() =~= seen);
            assert(next.last() == tags@[i as int]@);
            assert forall|j: int| 0 <= j < seen.len() implies seen[j] == next[j] by {}
            if p < sorted@.len() {
                assert(old_out[p as int] == sorted@[p as int]@);
            }
        }
        let present: bool = p < sorted.len() && sorted[p].name == tags[i].name;
        if present {
            proof {
                // the name has its tag already: the first of `seen` with that name
                lemma_first_named(seen, name);
                assert forall|k: int| 0 <= k < old_out.len() implies first_named(
                    next,
                    (#[trigger] old_out[k]).name,
                ) < next.len() && old_out[k] == next[first_named(next, old_out[k].name)] by {
                    lemma_first_named(seen, old_out[k].name);
                }
                assert forall|j: int| 0 <= j < next.len() implies has_name(
                    old_out,
                    (#[trigger] next[j]).name,
                ) by {
                    if j < seen.len() {
                        assert(has_name(old_out, seen[j].name));
                    } else {
                        assert(old_out[p as int].name == name);
                    }
                }
            }
        } else {
            sorted.insert(p, tags[i].clone());
            proof {
                let new_out = tag_views(sorted@);
                let tag = tags@[i as int]@;
                assert(new_out =~= old_out.insert(p as int, tag));
                if p < old_out.len() {
                    lemma_lex_total(old_out[p as int].name, name);
                }
                assert forall|a: int, b: int| 0 <= a < b < new_out.len() implies lex_lt(
                    (#[trigger] new_out[a]).name,
                    (#[trigger] new_out[b]).name,
                ) by {
                    if b < p {
                        assert(new_out[a] == old_out[a] && new_out[b] == old_out[b]);
                    } else if b == p {
                        assert(new_out[a] == old_out[a]);
                    } else if a == p {
                        assert(new_out[b] == old_out[b - 1]);
                        if b - 1 > p {
                            assert(lex_lt(old_out[p as int].name, old_out[b - 1].name));
                            lemma_lex_transitive(name, old_out[p as int].name, old_out[b - 1].name);
                        }
                    } else if a < p {
                        assert(new_out[a] == old_out[a]);
                        assert(new_out[b] == old_out[b - 1]);
                        if b - 1 > p {
                            assert(lex_lt(old_out[p as int].name, old_out[b - 1].name));
                            lemma_lex_transitive(name, old_out[p as int].name, old_out[b - 1].name);
                        }
                        lemma_lex_transitive(old_out[a].name, name, old_out[b - 1].name);
                    } else {
                        assert(new_out[a] == old_out[a - 1]);
                        assert(new_out[b] == old_out[b - 1]);
                    }
                }
                // no tag seen so far has the new name
                assert forall|j: int| 0 <= j < seen.len() implies (#[trigger] seen[j]).name
                    != name by {
                    if seen[j].name == name {
                        assert(has_name(old_out, seen[j].name));
                        let k = choose|k: int|
                            0 <= k < old_out.len() && (#[trigger] old_out[k]).name == seen[j].name;
                        lemma_lex_irreflexive(name);
                        if k > p {
                            assert(lex_lt(old_out[p as int].name, old_out[k].name));
                            lemma_lex_transitive(name, old_out[p as int].name, name);
                        }
                    }
                }
                lemma_first_named(seen, name);
                assert(first_named(seen, name) == seen.len());
                assert forall|k: int| 0 <= k < new_out.len() implies first_named(
                    next,
                    (#[trigger] new_out[k]).name,
                ) < next.len() && new_out[k] == next[first_named(next, new_out[k].name)] by {
                    if k < p {
                        assert(new_out[k] == old_out[k]);
                        lemma_first_named(seen, old_out[k].name);
                    } else if k > p {
                        assert(new_out[k] == old_out[k - 1]);
                        lemma_first_named(seen, old_out[k - 1].name);
                    }
                }
                assert forall|j: int| 0 <= j < next.len() implies has_name(
                    new_out,
                    (#[trigger] next[j]).name,
                ) by {
                    if j < seen.len() {
                        assert(has_name(old_out, seen[j].name));
                        let k = choose|k: int|
                            0 <= k < old_out.len() && (#[trigger] old_out[k]).name == seen[j].name;
                        if k < p {
                            assert(new_out[k] == old_out[k]);
                        } else {
                            assert(new_out[k + 1] == old_out[k]);
                        }
                    } else {
                        assert(new_out[p as int].name == name);
                    }
                }
            }
        }
        i = i + 1;
    }
    assert(input.take(tags@.len() as int) =~= input);
    sorted
}

/// The tags of a document once the user has set `manual_tags` on it: those
/// tags, then the tags that the classifier had given the document, sorted by
/// name and with one tag left of each name. Where the user names a tag that
/// the classifier had chosen too, the user's tag stays.
pub fn merge_tags(manual_tags: Vec<Tag>, existing: &Vec<Tag>) -> (merged: Vec<Tag>)
    ensures
        is_sorted_dedup(
            tag_views(manual_tags@) + automatic(tag_views(existing@)),
            tag_views(merged@),
        ),
{
    let mut tags: Vec<Tag> = manual_tags;
    let mut kept: Vec<Tag> = tags_given_by(existing, false);
    let ghost first = tag_views(tags@);
    let ghost second = tag_views(kept@);
    tags.append(&mut kept);
    assert(tag_views(tags@) =~= first + second);
    sort_dedup(tags)
}

} // verus!
