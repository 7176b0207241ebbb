use snd_review::session::{paths_equivalent, same_file_given, DocumentId, DocumentSession};

fn path(name: &str) -> Option<String> {
    Some(name.to_string())
}

#[test]
fn open_two_paths_lists_both() {
    let mut session = DocumentSession::new();
    session.push(path("a.wav"));
    session.push(path("b.wav"));
    assert_eq!(session.len(), 2);
    assert_eq!(session.tab_open_count(), 2);
}

#[test]
fn closing_one_tab_keeps_both_documents() {
    let mut session = DocumentSession::new();
    let a = session.push(path("a.wav"));
    session.push(path("b.wav"));
    assert!(session.close_tab(a));
    assert_eq!(session.len(), 2);
    assert_eq!(session.tab_open_count(), 1);
    assert!(!session.get(a).unwrap().tab_open);
}

#[test]
fn ensure_tab_restores_a_closed_tab() {
    let mut session = DocumentSession::new();
    let a = session.push(path("a.wav"));
    session.push(path("b.wav"));
    session.close_tab(a);
    assert!(session.ensure_tab(a));
    assert!(session.get(a).unwrap().tab_open);
    assert_eq!(session.tab_open_count(), 2);
}

#[test]
fn close_from_explorer_drops_document_and_tab() {
    let mut session = DocumentSession::new();
    let a = session.push(path("a.wav"));
    let b = session.push(path("b.wav"));
    assert!(session.close_document(a));
    assert_eq!(session.len(), 1);
    assert_eq!(session.tab_open_count(), 1);
    assert_eq!(session.active(), Some(b));
    assert!(session.get(a).is_none());
}

#[test]
fn reopen_same_path_reuses_id() {
    let mut session = DocumentSession::new();
    let a = session.push(path("a.wav"));
    session.push(path("b.wav"));
    let found = session.find_by_path("a.wav").unwrap();
    assert_eq!(found, a);
    session.focus(found);
    session.ensure_tab(found);
    assert_eq!(session.len(), 2);
    assert_eq!(session.active(), Some(a));
}

#[test]
fn tree_id_round_trips() {
    let id = DocumentId(42);
    assert_eq!(DocumentId::from_tree_id(&id.to_tree_id()), Some(id));
    assert_eq!(DocumentId::from_tree_id("nope"), None);
}

#[test]
fn get_mut_changes_the_document_in_place() {
    let mut session = DocumentSession::new();
    let a = session.push(path("a.wav"));
    session.get_mut(a).unwrap().tab_open = false;
    assert_eq!(session.tab_open_count(), 0);
    assert!(session.get_mut(DocumentId(99)).is_none());
}

#[test]
fn untitled_documents_are_not_found_by_path() {
    let mut session = DocumentSession::new();
    session.push(None);
    assert_eq!(session.find_by_path("a.wav"), None);
    assert!(!session.is_empty());
}

#[test]
fn first_matching_takes_the_first_true_answer() {
    let mut session = DocumentSession::new();
    let a = session.push(path("a.wav"));
    let b = session.push(path("b.wav"));
    let c = session.push(None);
    assert_eq!(session.first_matching(&vec![false, true, true]), Some(b));
    assert_eq!(session.first_matching(&vec![true, true, false]), Some(a));
    assert_eq!(session.first_matching(&vec![false, false, true]), Some(c));
    assert_eq!(session.first_matching(&vec![false, false, false]), None);
    assert_eq!(session.first_matching(&vec![false]), None);
    assert_eq!(session.find_by_path("b.wav"), Some(b));
    assert_eq!(session.find_by_path("no/such/file.wav"), None);
}

#[test]
fn same_file_is_decided_by_paths_then_canonical_paths() {
    let s = |v: &str| Some(v.to_string());
    assert!(same_file_given("a/b.wav", "a//b.wav", None, None));
    assert!(same_file_given("x.wav", "y.wav", s("/m/z.wav"), s("/m/z.wav")));
    assert!(!same_file_given("x.wav", "y.wav", s("/m/x.wav"), s("/m/y.wav")));
    assert!(!same_file_given("x.wav", "y.wav", s("/m/z.wav"), None));
    assert!(!same_file_given("x.wav", "y.wav", None, None));
    assert!(paths_equivalent("a.wav", "a.wav"));
    assert!(paths_equivalent("a/./b.wav", "a/b.wav"));
    assert!(!paths_equivalent("no/such/x.wav", "no/such/y.wav"));
    assert!(!paths_equivalent("", "no/such/y.wav"));
}
