use contextual::registry::{WorkspaceId, WorkspaceRegistry};
use contextual::workspace::{document_file_name, Workspace};

#[test]
fn tag_ids_are_dense_and_in_order_of_first_sight() {
    let mut w = Workspace::new("here".to_string());
    assert_eq!(w.tag_count(), 0);
    assert_eq!(w.get_tag_id("Math"), 0);
    assert_eq!(w.get_tag_id("Computer Science"), 1);
    assert_eq!(w.get_tag_id("Math"), 0);
    assert_eq!(w.get_tag_id("math"), 2);
    assert_eq!(w.tag_count(), 3);
    assert_eq!(w.get_tag_name(1), "Computer Science");
    assert_eq!(w.get_tag_name(2), "math");
    assert_eq!(w.tag_id("Math"), Some(0));
    assert_eq!(w.tag_id("History"), None);
}

#[test]
fn new_workspace_needs_training() {
    let mut w = Workspace::new("here".to_string());
    assert!(w.needs_training());
    w.keep_classifier(contextual::classifier::TagClassifier { class_count: 2 });
    assert!(!w.needs_training());
    w.retrain_classifier();
    assert!(w.needs_training());
    assert_eq!(w.location, "here");
}

#[test]
fn file_name_of_a_note() {
    assert_eq!(document_file_name("mynote"), "mynote.txt");
    assert_eq!(document_file_name(""), ".txt");
}

#[test]
fn registry_loads_and_unloads() {
    let mut r = WorkspaceRegistry::new();
    let a = r.load_workspace("a".to_string());
    let b = r.load_workspace("b".to_string());
    assert_ne!(a, b);
    assert_eq!(r.get_workspace_ref(a).unwrap().location, "a");
    assert_eq!(r.get_workspace_ref(b).unwrap().location, "b");
    let closed = r.unload_workspace(a).unwrap();
    assert_eq!(closed.location, "a");
    assert!(r.get_workspace_ref(a).is_none());
    assert!(r.unload_workspace(a).is_none());
    assert!(r.get_workspace_ref(WorkspaceId { id: 123 }).is_none());
    assert_eq!(r.get_workspace_ref(b).unwrap().location, "b");
}

#[test]
fn registry_finds_a_workspace_by_its_path() {
    let mut r = WorkspaceRegistry::new();
    let a = r.load_workspace("a".to_string());
    let b = r.load_workspace("b".to_string());
    let again = r.load_workspace("a".to_string());
    assert_ne!(a, again);
    assert_eq!(r.get_workspace_id("b".to_string()), b);
    assert_eq!(r.get_workspace_id("a".to_string()), a);
    let c = r.get_workspace_id("c".to_string());
    assert!(c != a && c != b && c != again);
    assert_eq!(r.get_workspace_ref(c).unwrap().location, "c");
    assert_eq!(r.get_workspace_id("c".to_string()), c);
}

#[test]
fn registry_lends_a_workspace_to_work_on() {
    let mut r = WorkspaceRegistry::new();
    let a = r.load_workspace("a".to_string());
    assert_eq!(r.get_workspace_mut(a).unwrap().get_tag_id("Math"), 0);
    assert_eq!(r.get_workspace_ref(a).unwrap().tag_count(), 1);
    assert!(r.get_workspace_mut(WorkspaceId { id: 7 }).is_none());
}
