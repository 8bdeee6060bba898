use tarn::revisions::{InMemoryRevisionTracker, RevisionToken};
use tarn::vault_path::VaultPath;

#[test]
fn get_revision_unknown_path() {
    let tracker = InMemoryRevisionTracker::new();
    let path: VaultPath = "note.md".try_into().unwrap();
    assert!(tracker.get_revision(&path).is_none());
}

#[test]
fn update_and_get_roundtrip() {
    let mut tracker = InMemoryRevisionTracker::new();
    let path: VaultPath = "note.md".try_into().unwrap();
    let token = RevisionToken::from("abc123");

    tracker.update_revision(&path, token.clone());
    assert_eq!(tracker.get_revision(&path), Some(token));
}

#[test]
fn remove_revision_removes_entry() {
    let mut tracker = InMemoryRevisionTracker::new();
    let path: VaultPath = "note.md".try_into().unwrap();
    tracker.update_revision(&path, RevisionToken::from("abc"));

    tracker.remove_revision(&path);
    assert!(tracker.get_revision(&path).is_none());
}

#[test]
fn validate_matching_token() {
    let mut tracker = InMemoryRevisionTracker::new();
    let path: VaultPath = "note.md".try_into().unwrap();
    let token = RevisionToken::from("abc");
    tracker.update_revision(&path, token.clone());

    assert!(tracker.validate_revision(&path, &token));
}

#[test]
fn validate_mismatched_token() {
    let mut tracker = InMemoryRevisionTracker::new();
    let path: VaultPath = "note.md".try_into().unwrap();
    tracker.update_revision(&path, RevisionToken::from("abc"));

    let stale = RevisionToken::from("old");
    assert!(!tracker.validate_revision(&path, &stale));
}

#[test]
fn validate_untracked_path_returns_true() {
    let tracker = InMemoryRevisionTracker::new();
    let path: VaultPath = "unknown.md".try_into().unwrap();
    let token = RevisionToken::from("any");
    assert!(tracker.validate_revision(&path, &token));
}

#[test]
fn all_revisions_returns_all_entries() {
    let mut tracker = InMemoryRevisionTracker::new();
    let p1: VaultPath = "a.md".try_into().unwrap();
    let p2: VaultPath = "b.md".try_into().unwrap();
    tracker.update_revision(&p1, RevisionToken::from("t1"));
    tracker.update_revision(&p2, RevisionToken::from("t2"));

    let all = tracker.all_revisions();
    assert_eq!(all.len(), 2);
}

#[test]
fn update_replaces_earlier_token() {
    let mut tracker = InMemoryRevisionTracker::new();
    let path: VaultPath = "note.md".try_into().unwrap();
    tracker.update_revision(&path, RevisionToken::from("v1"));
    tracker.update_revision(&path, RevisionToken::from("v2"));
    assert_eq!(tracker.get_revision(&path), Some(RevisionToken::from("v2")));
    assert_eq!(tracker.all_revisions().len(), 1);
    assert!(!tracker.validate_revision(&path, &RevisionToken::from("v1")));
}

#[test]
fn update_keeps_other_paths() {
    let mut tracker = InMemoryRevisionTracker::new();
    let p1: VaultPath = "a.md".try_into().unwrap();
    let p2: VaultPath = "b.md".try_into().unwrap();
    tracker.update_revision(&p1, RevisionToken::from("t1"));
    tracker.update_revision(&p2, RevisionToken::from("t2"));
    tracker.remove_revision(&p2);
    assert_eq!(tracker.get_revision(&p1), Some(RevisionToken::from("t1")));
    assert!(tracker.get_revision(&p2).is_none());
}

#[test]
fn same_text_of_other_kind_is_another_path() {
    let mut tracker = InMemoryRevisionTracker::new();
    let note = VaultPath::new("a.md").unwrap();
    let other = VaultPath::Other("a.md".to_string());
    tracker.update_revision(&note, RevisionToken::from("t1"));
    assert!(tracker.get_revision(&other).is_none());
}
