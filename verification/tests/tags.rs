use contextual::tag::{merge_tags, sort_dedup, tags_given_by, Tag};
use std::cmp::Ordering;

fn tag(name: &str, manual: bool) -> Tag {
    Tag {
        name: name.to_string(),
        manual,
    }
}

fn flat(tags: &[Tag]) -> Vec<(String, bool)> {
    tags.iter().map(|t| (t.name.clone(), t.manual)).collect()
}

#[test]
fn tags_are_equal_by_name() {
    assert_eq!(tag("math", true), tag("math", false));
    assert_ne!(tag("math", true), tag("Math", true));
    assert_ne!(tag("math", true), tag("math ", true));
}

#[test]
fn tags_are_ordered_by_name() {
    assert_eq!(
        tag("a", true).partial_cmp(&tag("b", false)),
        Some(Ordering::Less)
    );
    assert_eq!(
        tag("b", false).partial_cmp(&tag("a", true)),
        Some(Ordering::Greater)
    );
    assert_eq!(
        tag("a", true).partial_cmp(&tag("a", false)),
        Some(Ordering::Equal)
    );
    assert!(tag("Zebra", true) < tag("apple", true));
    assert!(tag("tag", true) < tag("tag1", true));
    assert!(tag("é", true) > tag("z", true));
}

#[test]
fn sort_dedup_sorts_by_name() {
    let sorted = sort_dedup(vec![
        tag("tag3", true),
        tag("tag1", true),
        tag("tag2", false),
    ]);
    assert_eq!(
        flat(&sorted),
        vec![
            ("tag1".to_string(), true),
            ("tag2".to_string(), false),
            ("tag3".to_string(), true)
        ]
    );
}

#[test]
fn sort_dedup_keeps_the_first_of_a_name() {
    let sorted = sort_dedup(vec![
        tag("b", true),
        tag("a", false),
        tag("b", false),
        tag("a", true),
    ]);
    assert_eq!(
        flat(&sorted),
        vec![("a".to_string(), false), ("b".to_string(), true)]
    );
    assert!(sort_dedup(Vec::new()).is_empty());
}

#[test]
fn tags_given_by_user_or_classifier() {
    let tags = vec![tag("a", true), tag("b", false), tag("c", true)];
    assert_eq!(
        flat(&tags_given_by(&tags, true)),
        vec![("a".to_string(), true), ("c".to_string(), true)]
    );
    assert_eq!(
        flat(&tags_given_by(&tags, false)),
        vec![("b".to_string(), false)]
    );
}

#[test]
fn merge_keeps_automatic_tags_and_drops_old_manual_ones() {
    let existing = vec![tag("old", true), tag("Math", false)];
    let merged = merge_tags(vec![tag("tag2", true), tag("tag1", true)], &existing);
    assert_eq!(
        flat(&merged),
        vec![
            ("Math".to_string(), false),
            ("tag1".to_string(), true),
            ("tag2".to_string(), true)
        ]
    );
}

#[test]
fn merge_lets_the_user_win() {
    let existing = vec![tag("Math", false)];
    let merged = merge_tags(vec![tag("Math", true)], &existing);
    assert_eq!(flat(&merged), vec![("Math".to_string(), true)]);
}

#[test]
fn merge_with_no_manual_tags_keeps_the_automatic_ones() {
    let existing = vec![tag("b", false), tag("a", false), tag("c", true)];
    let merged = merge_tags(Vec::new(), &existing);
    assert_eq!(
        flat(&merged),
        vec![("a".to_string(), false), ("b".to_string(), false)]
    );
}
