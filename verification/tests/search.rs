use contextual::commands::{finish_save, plan_note, SaveStep};
use contextual::search::{
    context_result, context_results, context_search, search_result, search_results, SearchHit,
};
use contextual::tag::Tag;
use contextual::workspace::Workspace;

fn hit(title: &str, body: &str, at: &str, distance: f32) -> SearchHit {
    let start = body.find(at).unwrap();
    SearchHit {
        distance: distance.to_bits(),
        title: title.to_string(),
        body: body.to_string(),
        byte_range: start..start + at.len(),
    }
}

fn store(w: &mut Workspace, title: &str, text: &str, id: &str) {
    match plan_note(title.to_string(), text.to_string(), vec![0..text.len()], w) {
        SaveStep::Unchanged => panic!("the note is new"),
        SaveStep::Index { note, segments, .. } => {
            let t = Tag {
                name: "Math".to_string(),
                manual: false,
            };
            finish_save(note, segments, t, id.to_string(), w);
        }
    }
}

#[test]
fn test_notes() {
    let h = hit("search-note", "my note is here", "my note is here", 0.0);
    let results = search_results(&vec![h], 10);
    assert_eq!(results.len(), 1);
    assert_eq!(results[0].title, "search-note");
    assert_eq!(results[0].character_range, 0..15);
    assert_eq!(f32::from_bits(results[0].distance), 0.0);
}

#[test]
fn search_reports_code_points() {
    let h = hit("n", "é👒 here. There.", "There.", 0.5);
    let r = search_result(&h);
    assert_eq!(r.character_range, 9..15);
    assert_eq!(r.title, "n");
    assert_eq!(f32::from_bits(r.distance), 0.5);
}

#[test]
fn search_reports_no_more_than_asked() {
    let hits = vec![
        hit("a", "one", "one", 0.1),
        hit("b", "two", "two", 0.2),
        hit("c", "three", "three", 0.3),
    ];
    let results = search_results(&hits, 2);
    assert_eq!(results.len(), 2);
    assert_eq!(results[0].title, "a");
    assert_eq!(results[1].title, "b");
    assert!(search_results(&hits, 0).is_empty());
    assert_eq!(search_results(&hits, 9).len(), 3);
}

#[test]
fn context_search_looks_among_the_other_notes() {
    let mut w = Workspace::new("w".to_string());
    store(&mut w, "a", "one", "1");
    store(&mut w, "b", "two", "2");
    store(&mut w, "c", "three", "3");
    let q = context_search(Some("b"), "The cat is here", 0, &w).unwrap();
    assert_eq!(q.context, "The cat is here");
    assert_eq!(q.keys, Some(vec!["1".to_string(), "3".to_string()]));
    let q = context_search(None, "The cat is here", 0, &w).unwrap();
    assert_eq!(q.keys, None);
    let e = context_search(None, "The cat is here", 16, &w).unwrap_err();
    assert_eq!(
        e.message(),
        "Cannot search around a sentence that is not in the document"
    );
}

#[test]
fn context_of_a_hit() {
    let body = "The math is mathing QED. The math is mathing QED. This is my note. The cat is here. Yes it is.";
    let h = hit("search-note", body, "The cat is here. ", 0.25);
    let r = context_result(&h, 3).unwrap();
    assert_eq!(r.title, "search-note");
    assert_eq!(
        r.text,
        "The math is mathing QED. This is my note. The cat is here. "
    );
    assert_eq!(r.relevant_range, 42..59);
    assert_eq!(f32::from_bits(r.distance), 0.25);
    let r = context_result(&h, 5).unwrap();
    assert_eq!(r.text, body);
    assert_eq!(r.relevant_range, 67..84);
}

#[test]
fn hits_without_context_are_left_out() {
    let hits = vec![
        hit("a", "One. Two.", "Two.", 0.1),
        hit("b", "   ", " ", 0.2),
        hit("c", "Three.", "Three.", 0.3),
    ];
    let results = context_results(&hits, 3);
    assert_eq!(results.len(), 2);
    assert_eq!(results[0].title, "a");
    assert_eq!(results[0].text, "One. Two.");
    assert_eq!(results[0].relevant_range, 5..9);
    assert_eq!(results[1].title, "c");
    assert!(context_results(&hits, 0).is_empty());
}
