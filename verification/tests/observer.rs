use tarn::core_logic::StorageEvent;
use tarn::observer::{change_events, ChangeKind, LocalStorageObserver};
use tarn::revisions::RevisionToken;
use tarn::vault_path::VaultPath;

fn vp(s: &str) -> VaultPath {
    VaultPath::new(s).unwrap()
}

#[test]
fn created_paths_with_tokens_become_events() {
    let paths = vec![(vp("a.md"), Some(RevisionToken::from("1:1"))), (vp("b.md"), None)];
    let events = change_events(ChangeKind::Create, &paths);
    assert_eq!(events.len(), 1);
    match &events[0] {
        StorageEvent::Created { path, token } => {
            assert_eq!(path.as_str(), "a.md");
            assert_eq!(token.as_str(), "1:1");
        }
        other => panic!("unexpected {:?}", other),
    }
}

#[test]
fn removals_need_no_token() {
    let paths = vec![(vp("a.md"), None), (vp("b.md"), None)];
    let events = change_events(ChangeKind::Remove, &paths);
    assert_eq!(events.len(), 2);
    assert!(matches!(&events[1], StorageEvent::Deleted { path } if path.as_str() == "b.md"));
}

#[test]
fn modifications_and_other_changes() {
    let paths = vec![(vp("a.md"), Some(RevisionToken::from("2:2")))];
    assert!(matches!(&change_events(ChangeKind::Modify, &paths)[0], StorageEvent::Updated { .. }));
    assert!(change_events(ChangeKind::Other, &paths).is_empty());
}

#[test]
fn observer_keeps_path() {
    let o = LocalStorageObserver::new(std::path::PathBuf::from("/vault"));
    assert_eq!(o.path, std::path::PathBuf::from("/vault"));
}
