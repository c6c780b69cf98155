use contextual::classifier::{
    default_documents, label_rows, most_likely_class, note_examples, sum_scores,
    training_examples, LabeledChunk, TagClassifier,
};
use contextual::note::{ContextualDocument, Document};
use contextual::tag::Tag;
use contextual::workspace::Workspace;

fn tag(name: &str, manual: bool) -> Tag {
    Tag {
        name: name.to_string(),
        manual,
    }
}

fn note(title: &str, body: &str, tags: Vec<Tag>) -> ContextualDocument {
    ContextualDocument {
        document: Document::from_parts(title.to_string(), body.to_string()),
        tags,
    }
}

#[test]
fn each_chunk_gives_a_row_for_each_tag() {
    let n = note(
        "t",
        "aa bb cc dd ee",
        vec![tag("x", true), tag("y", false)],
    );
    let rows = note_examples(&n, &vec![0..2, 3..5, 6..8, 9..11, 12..14]);
    assert_eq!(rows.len(), 10);
    let flat: Vec<(&str, &str)> = rows.iter().map(|r| (r.text.as_str(), r.tag.as_str())).collect();
    assert_eq!(
        flat,
        vec![
            ("aa", "x"),
            ("aa", "y"),
            ("bb", "x"),
            ("bb", "y"),
            ("cc", "x"),
            ("cc", "y"),
            ("dd", "x"),
            ("dd", "y"),
            ("ee", "x"),
            ("ee", "y")
        ]
    );
}

#[test]
fn a_note_without_tags_or_chunks_gives_no_rows() {
    assert!(note_examples(&note("t", "aa", Vec::new()), &vec![0..2]).is_empty());
    assert!(note_examples(&note("t", "aa", vec![tag("x", true)]), &Vec::new()).is_empty());
}

#[test]
fn training_examples_of_documents() {
    let rows = training_examples(&vec![
        note("a", "- one\n- two", vec![tag("x", true)]),
        note("b", "Three. Four.", vec![tag("y", true), tag("x", false)]),
    ]);
    let flat: Vec<(&str, &str)> = rows.iter().map(|r| (r.text.as_str(), r.tag.as_str())).collect();
    assert_eq!(
        flat,
        vec![
            ("one", "x"),
            ("two", "x"),
            ("Three. ", "y"),
            ("Three. ", "x"),
            ("Four.", "y"),
            ("Four.", "x")
        ]
    );
}

#[test]
fn rows_are_labelled_with_tag_numbers() {
    let mut w = Workspace::new("w".to_string());
    assert_eq!(w.get_tag_id("known"), 0);
    let rows = vec![
        LabeledChunk {
            text: "a".to_string(),
            tag: "x".to_string(),
        },
        LabeledChunk {
            text: "b".to_string(),
            tag: "known".to_string(),
        },
        LabeledChunk {
            text: "c".to_string(),
            tag: "x".to_string(),
        },
        LabeledChunk {
            text: "d".to_string(),
            tag: "y".to_string(),
        },
    ];
    let examples = label_rows(&mut w, rows).unwrap();
    let flat: Vec<(&str, u32)> = examples.iter().map(|e| (e.text.as_str(), e.class)).collect();
    assert_eq!(flat, vec![("a", 1), ("b", 0), ("c", 1), ("d", 2)]);
    assert_eq!(w.tag_count(), 3);
    assert_eq!(w.get_tag_name(2), "y");
}

#[test]
fn classifier_has_a_class_for_each_tag() {
    let mut w = Workspace::new("w".to_string());
    let bootstrap = default_documents(vec!["Integrals are sums.".to_string(), "SIMD is fast.".to_string()]);
    let documents = vec![note("n", "A note.", vec![tag("mine", true), tag("Math", false)])];
    let (classifier, examples) = TagClassifier::new(&mut w, &bootstrap, &documents).unwrap();
    assert_eq!(classifier.class_count, 3);
    assert_eq!(w.tag_count(), 3);
    assert_eq!(w.get_tag_name(0), "Math");
    assert_eq!(w.get_tag_name(1), "Computer Science");
    assert_eq!(w.get_tag_name(2), "mine");
    let flat: Vec<(&str, u32)> = examples.iter().map(|e| (e.text.as_str(), e.class)).collect();
    assert_eq!(
        flat,
        vec![
            ("Integrals are sums.", 0),
            ("SIMD is fast.", 1),
            ("A note.", 2),
            ("A note.", 0)
        ]
    );
}

#[test]
fn bootstrap_corpus_titles_and_topics() {
    let texts: Vec<String> = (0..12).map(|i| format!("text {}", i)).collect();
    let corpus = default_documents(texts);
    assert_eq!(corpus.len(), 10);
    let flat: Vec<(&str, &str, &str, bool)> = corpus
        .iter()
        .map(|d| {
            (
                d.document.title.as_str(),
                d.document.body.as_str(),
                d.tags[0].name.as_str(),
                d.tags[0].manual,
            )
        })
        .collect();
    assert_eq!(
        flat,
        vec![
            ("Intro to Integrals", "text 0", "Math", true),
            ("SIMD Intro", "text 1", "Computer Science", true),
            ("Discrete Math", "text 2", "Math", true),
            ("Statistics", "text 3", "Math", true),
            ("Reactivity systems", "text 4", "Computer Science", true),
            ("Operating Systems", "text 5", "Computer Science", true),
            ("History", "text 6", "History", true),
            ("Philosophy", "text 7", "Philosophy", true),
            ("Science", "text 8", "Science", true),
            ("Physics", "text 9", "Physics", true)
        ]
    );
    assert!(corpus.iter().all(|d| d.tags.len() == 1));
    assert!(default_documents(Vec::new()).is_empty());
}

#[test]
fn greatest_score_wins_and_ties_go_to_the_lowest_class() {
    assert_eq!(most_likely_class(&vec![1, 5, 3]), Some(1));
    assert_eq!(most_likely_class(&vec![4, 7, 7, 2]), Some(1));
    assert_eq!(most_likely_class(&vec![-3, -3]), Some(0));
    assert_eq!(most_likely_class(&vec![9]), Some(0));
    assert_eq!(most_likely_class(&Vec::new()), None);
}

#[test]
fn scores_are_summed_class_by_class() {
    let totals = sum_scores(
        vec![vec![0.5f32, 0.25, 0.25], vec![0.125, 0.75, 0.125], vec![0.25, 0.25, 0.5]],
        |a: &f32, b: &f32| a + b,
    )
    .unwrap();
    assert_eq!(totals, vec![0.875f32, 1.25, 0.875]);
}

#[test]
fn score_vector_is_as_long_as_the_class_count() {
    for chunks in 1..6usize {
        let rows: Vec<Vec<f32>> = (0..chunks).map(|_| vec![0.25f32; 4]).collect();
        assert_eq!(sum_scores(rows, |a: &f32, b: &f32| a + b).unwrap().len(), 4);
    }
    assert!(sum_scores(Vec::<Vec<f32>>::new(), |a: &f32, b: &f32| a + b).is_none());
    let ragged = sum_scores(vec![vec![1u8, 2, 3], vec![1, 2]], |a: &u8, b: &u8| a + b).unwrap();
    assert_eq!(ragged, vec![2, 4]);
}

#[test]
fn classify_names_the_most_likely_tag() {
    let mut w = Workspace::new("w".to_string());
    w.get_tag_id("Math");
    w.get_tag_id("Computer Science");
    w.get_tag_id("History");
    let classifier = TagClassifier { class_count: 3 };
    let t = classifier.classify(&w, Some(&vec![10, 30, 20])).unwrap();
    assert_eq!(t.name, "Computer Science");
    assert!(!t.manual);
    let t = classifier.classify(&w, Some(&vec![30, 30, 20])).unwrap();
    assert_eq!(t.name, "Math");
    let e = classifier.classify(&w, None).unwrap_err();
    assert_eq!(e.message(), "Empty input for classification");
    w.keep_classifier(classifier);
    assert_eq!(w.classify(Some(&vec![1, 2, 3])).unwrap().name, "History");
    assert!(w.classify(None).is_err());
}

#[test]
fn test_tag_classifier() {
    let mut workspace = Workspace::new("testing-classifier-workspace".to_string());
    let title = "test-note".to_string();
    let text = "Computer science is the study of computation and its applications.".to_string();
    let tags = vec![tag("tag1", true)];
    let title2 = "my-other-test-note".to_string();
    let text2 = "Economics describes a process for distributing limited resources in a way that maximizes overall satisfaction of a group of people.".to_string();
    let tags2 = vec![tag("tag2", true), tag("tag3", true)];
    let documents = vec![
        ContextualDocument {
            document: Document::from_parts(title.clone(), text.clone()),
            tags: tags.clone(),
        },
        ContextualDocument {
            document: Document::from_parts(title2.clone(), text2.clone()),
            tags: tags2.clone(),
        },
    ];
    let (classifier, examples) =
        TagClassifier::new(&mut workspace, &Vec::new(), &documents).unwrap();
    assert_eq!(classifier.class_count, 3);
    let flat: Vec<(&str, u32)> = examples.iter().map(|e| (e.text.as_str(), e.class)).collect();
    assert_eq!(
        flat,
        vec![(text.as_str(), 0), (text2.as_str(), 1), (text2.as_str(), 2)]
    );
    assert_eq!(workspace.get_tag_name(0), "tag1");
    assert_eq!(workspace.get_tag_name(1), "tag2");
    assert_eq!(workspace.get_tag_name(2), "tag3");
}
