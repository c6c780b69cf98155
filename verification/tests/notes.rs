use contextual::commands::{
    files_in_workspace, finish_save, get_tags, plan_note, read_note, remove_note, save_note,
    saved_tags, set_tags, SaveStep,
};
use contextual::note::{ContextualDocument, Document};
use contextual::search::search;
use contextual::tag::Tag;
use contextual::workspace::Workspace;

fn tag(name: &str, manual: bool) -> Tag {
    Tag {
        name: name.to_string(),
        manual,
    }
}

fn flat(tags: &[Tag]) -> Vec<(String, bool)> {
    tags.iter().map(|t| (t.name.clone(), t.manual)).collect()
}

/// Saves a note whose text is one chunk, with `auto` as the classifier's tag.
fn store(w: &mut Workspace, title: &str, text: &str, auto: &str, id: &str) -> Option<String> {
    match plan_note(title.to_string(), text.to_string(), vec![0..text.len()], w) {
        SaveStep::Unchanged => panic!("the note is new or changed"),
        SaveStep::Index {
            note,
            segments,
            replaces,
        } => {
            finish_save(note, segments, tag(auto, false), id.to_string(), w);
            replaces
        }
    }
}

#[test]
fn test_set_tags() {
    let mut workspace = Workspace::new("testing".to_string());
    let title = "test-note".to_string();
    let text = "test note".to_string();
    assert_eq!(store(&mut workspace, &title, &text, "Math", "1"), None);
    let tags = vec![tag("tag1", true), tag("tag2", true)];
    set_tags(&title, tags.clone(), &mut workspace).unwrap();

    let title2 = "my-other-test-note".to_string();
    let text2 = "testing other note".to_string();
    assert_eq!(store(&mut workspace, &title2, &text2, "Math", "2"), None);
    let tags2 = vec![tag("tag2", true), tag("tag3", true)];
    set_tags(&title2, tags2.clone(), &mut workspace).unwrap();

    let notes = files_in_workspace(&workspace);
    assert_eq!(notes.len(), 2);
    assert_eq!(
        notes[0].document,
        Document::from_parts(title.clone(), text.clone())
    );
    assert_eq!(
        flat(&notes[0].tags),
        vec![
            ("Math".to_string(), false),
            ("tag1".to_string(), true),
            ("tag2".to_string(), true)
        ]
    );
    assert_eq!(
        notes[1].document,
        Document::from_parts(title2.clone(), text2.clone())
    );
    assert_eq!(
        flat(&notes[1].tags),
        vec![
            ("Math".to_string(), false),
            ("tag2".to_string(), true),
            ("tag3".to_string(), true)
        ]
    );

    assert_eq!(search(&vec!["tag2".to_string()], &workspace), vec!["1", "2"]);
    assert_eq!(
        search(&vec!["tag1".to_string(), "tag2".to_string()], &workspace),
        vec!["1"]
    );
    assert!(search(&vec!["testing".to_string()], &workspace).is_empty());
    assert_eq!(search(&Vec::new(), &workspace), vec!["1", "2"]);
}

#[test]
fn saving_twice_writes_once() {
    let mut workspace = Workspace::new("testing".to_string());
    let step = save_note(
        "mynote".to_string(),
        "my note is here. It is short.".to_string(),
        &workspace,
    );
    match step {
        SaveStep::Index {
            note,
            segments,
            replaces,
        } => {
            assert!(replaces.is_none());
            assert!(note.tags.is_empty());
            assert_eq!(segments, vec![0..17, 17..29]);
            finish_save(note, segments, tag("Math", false), "7".to_string(), &mut workspace);
        }
        SaveStep::Unchanged => panic!("a new note is indexed"),
    }
    let again = save_note(
        "mynote".to_string(),
        "my note is here. It is short.".to_string(),
        &workspace,
    );
    assert!(matches!(again, SaveStep::Unchanged));
    let changed = save_note(
        "mynote".to_string(),
        "my note is there. It is short.".to_string(),
        &workspace,
    );
    match changed {
        SaveStep::Index { replaces, .. } => assert_eq!(replaces, Some("7".to_string())),
        SaveStep::Unchanged => panic!("a changed note is indexed"),
    }
}

#[test]
fn saving_again_keeps_the_users_tags_only() {
    let mut workspace = Workspace::new("testing".to_string());
    store(&mut workspace, "n", "one", "Math", "1");
    set_tags("n", vec![tag("mine", true)], &mut workspace).unwrap();
    assert_eq!(
        flat(&get_tags("n", &workspace).unwrap()),
        vec![("Math".to_string(), false), ("mine".to_string(), true)]
    );
    let replaced = store(&mut workspace, "n", "two", "History", "2");
    assert_eq!(replaced, Some("1".to_string()));
    assert_eq!(
        flat(&get_tags("n", &workspace).unwrap()),
        vec![("History".to_string(), false), ("mine".to_string(), true)]
    );
    assert_eq!(files_in_workspace(&workspace).len(), 1);
    let note: ContextualDocument = read_note("n", &workspace).unwrap();
    assert_eq!(note.document.body, "two");
}

#[test]
fn same_text_with_other_chunks_is_a_change() {
    let mut workspace = Workspace::new("testing".to_string());
    store(&mut workspace, "n", "one two", "Math", "1");
    let step = plan_note(
        "n".to_string(),
        "one two".to_string(),
        vec![0..3, 4..7],
        &workspace,
    );
    assert!(matches!(step, SaveStep::Index { .. }));
    let step = plan_note("n".to_string(), "one two".to_string(), vec![0..7], &workspace);
    assert!(matches!(step, SaveStep::Unchanged));
}

#[test]
fn set_tags_then_get_tags() {
    let mut workspace = Workspace::new("testing".to_string());
    store(&mut workspace, "n", "one", "Science", "1");
    set_tags(
        "n",
        vec![tag("b", true), tag("a", true), tag("b", true)],
        &mut workspace,
    )
    .unwrap();
    assert_eq!(
        flat(&get_tags("n", &workspace).unwrap()),
        vec![
            ("Science".to_string(), false),
            ("a".to_string(), true),
            ("b".to_string(), true)
        ]
    );
    set_tags("n", vec![tag("Science", true)], &mut workspace).unwrap();
    assert_eq!(
        flat(&get_tags("n", &workspace).unwrap()),
        vec![("Science".to_string(), true)]
    );
    set_tags("n", Vec::new(), &mut workspace).unwrap();
    assert!(get_tags("n", &workspace).unwrap().is_empty());
}

#[test]
fn set_tags_throws_the_classifier_away() {
    let mut workspace = Workspace::new("testing".to_string());
    store(&mut workspace, "n", "one", "Science", "1");
    workspace.keep_classifier(contextual::classifier::TagClassifier { class_count: 1 });
    set_tags("n", vec![tag("a", true)], &mut workspace).unwrap();
    assert!(workspace.needs_training());
    workspace.keep_classifier(contextual::classifier::TagClassifier { class_count: 1 });
    assert!(set_tags("missing", vec![tag("a", true)], &mut workspace).is_err());
    assert!(workspace.needs_training());
}

#[test]
fn unknown_titles_do_not_exist() {
    let mut workspace = Workspace::new("testing".to_string());
    store(&mut workspace, "n", "one", "Science", "1");
    assert_eq!(
        get_tags("m", &workspace).unwrap_err().message(),
        "document does not exist"
    );
    assert!(read_note("m", &workspace).is_err());
    assert!(set_tags("m", Vec::new(), &mut workspace).is_err());
    assert_eq!(remove_note("m", &mut workspace), None);
    assert_eq!(files_in_workspace(&workspace).len(), 1);
}

#[test]
fn removed_notes_are_gone() {
    let mut workspace = Workspace::new("testing".to_string());
    store(&mut workspace, "mynote", "my note is here", "Math", "1");
    store(&mut workspace, "other", "another", "Math", "2");
    assert_eq!(remove_note("mynote", &mut workspace), Some("1".to_string()));
    assert!(read_note("mynote", &workspace).is_err());
    let notes = files_in_workspace(&workspace);
    assert_eq!(notes.len(), 1);
    assert_eq!(notes[0].document.title, "other");
    assert_eq!(store(&mut workspace, "mynote", "my note is here", "Math", "3"), None);
}

#[test]
fn filtered_notes_carry_all_required_tags() {
    let mut workspace = Workspace::new("testing".to_string());
    store(&mut workspace, "a", "one", "Math", "1");
    store(&mut workspace, "b", "two", "History", "2");
    store(&mut workspace, "c", "three", "Math", "3");
    set_tags("c", vec![tag("x", true)], &mut workspace).unwrap();
    let required = vec!["Math".to_string(), "x".to_string()];
    let keys = search(&required, &workspace);
    assert_eq!(keys, vec!["3"]);
    assert_eq!(search(&vec!["Math".to_string()], &workspace), vec!["1", "3"]);
    assert_eq!(
        search(&vec!["Math".to_string(), "Math".to_string()], &workspace),
        vec!["1", "3"]
    );
    assert!(search(&vec!["math".to_string()], &workspace).is_empty());
}

#[test]
fn saved_tags_are_sorted_by_name() {
    let mut workspace = Workspace::new("testing".to_string());
    store(&mut workspace, "n", "one", "Math", "1");
    set_tags("n", vec![tag("z", true), tag("a", true)], &mut workspace).unwrap();
    store(&mut workspace, "n", "two", "Math", "2");
    assert_eq!(
        flat(&get_tags("n", &workspace).unwrap()),
        vec![
            ("Math".to_string(), false),
            ("a".to_string(), true),
            ("z".to_string(), true)
        ]
    );
    assert_eq!(
        flat(&saved_tags(&vec![tag("z", true), tag("a", true)], tag("Math", false))),
        vec![
            ("Math".to_string(), false),
            ("a".to_string(), true),
            ("z".to_string(), true)
        ]
    );
}

#[test]
fn a_kept_tag_wins_over_the_classifiers_tag_of_its_name() {
    let mut workspace = Workspace::new("testing".to_string());
    store(&mut workspace, "n", "one", "History", "1");
    set_tags("n", vec![tag("Math", true)], &mut workspace).unwrap();
    store(&mut workspace, "n", "two", "Math", "2");
    assert_eq!(
        flat(&get_tags("n", &workspace).unwrap()),
        vec![("Math".to_string(), true)]
    );
    assert_eq!(
        flat(&saved_tags(&vec![tag("Math", true)], tag("Math", false))),
        vec![("Math".to_string(), true)]
    );
    assert_eq!(
        flat(&saved_tags(&Vec::new(), tag("Math", false))),
        vec![("Math".to_string(), false)]
    );
}

#[test]
fn recorded_tags_are_sorted_by_name() {
    let mut workspace = Workspace::new("testing".to_string());
    let note = ContextualDocument {
        document: Document::from_parts("n".to_string(), "one".to_string()),
        tags: vec![tag("b", true), tag("a", false), tag("b", false)],
    };
    workspace.index.record("1".to_string(), note, vec![0..3]);
    assert_eq!(
        flat(&get_tags("n", &workspace).unwrap()),
        vec![("a".to_string(), false), ("b".to_string(), true)]
    );
}
