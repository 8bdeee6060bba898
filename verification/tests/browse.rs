use tarn::note::Note;
use tarn::section_store::SectionStore;
use tarn::vault_path::VaultPath;

fn indexed(store: &mut SectionStore, path: &str, body: &str) {
    let p = VaultPath::new(path).unwrap();
    let mut note = Note::from_parts(None, body);
    note.path = Some(p.clone());
    let counts = vec![1; note.sections.len()];
    store.index_note(&note, &p, &counts);
}

#[test]
fn browse_groups_filtered_sections_within_limit() {
    let mut store = SectionStore::new();
    indexed(&mut store, "a/one.md", "# One\nfirst #topic\n\n## Two\nsecond #topic\n");
    indexed(&mut store, "b/two.md", "# Other\nnothing here\n");
    indexed(&mut store, "b/three.md", "# Three\nthird #topic\n");

    let none = store.browse(&vec![], &vec![], 10, None);
    assert!(none.is_empty());

    let all = store.browse(&vec!["topic".to_string()], &vec![], 10, None);
    let paths: Vec<&str> = all.iter().map(|r| r.path.as_str()).collect();
    assert_eq!(paths, vec!["a/one.md", "b/three.md"]);
    assert!(all.iter().all(|r| !r.sections.is_empty()));
    assert_eq!(all.iter().map(|r| r.sections.len()).sum::<usize>(), 3);

    let limited = store.browse(&vec!["topic".to_string()], &vec![], 2, None);
    assert_eq!(limited.iter().map(|r| r.sections.len()).sum::<usize>(), 2);

    let in_b = store.browse(&vec![], &vec![VaultPath::new("b/").unwrap()], 10, None);
    assert!(in_b.iter().all(|r| r.path.as_str().starts_with("b/")));
    assert_eq!(in_b.len(), 2);
}

#[test]
fn list_notes_lists_every_note_within_limit() {
    let mut store = SectionStore::new();
    indexed(&mut store, "a/one.md", "# One\nfirst\n\n## Two\nsecond\n");
    indexed(&mut store, "b/two.md", "# Other\nnothing here\n");
    let all = store.list_notes(20, None);
    let paths: Vec<&str> = all.iter().map(|r| r.path.as_str()).collect();
    assert_eq!(paths, vec!["a/one.md", "b/two.md"]);
    assert_eq!(all.iter().map(|r| r.sections.len()).sum::<usize>(), 3);
    let one = store.list_notes(1, None);
    assert_eq!(one.len(), 1);
    assert_eq!(one[0].sections.len(), 1);
    // Without filters, browsing still gives nothing.
    assert!(store.browse(&vec![], &vec![], 20, None).is_empty());
}
