use tarn::index::{IndexLink, NoteResult, SectionResult};
use tarn::section_store::{apply_token_limit, make_section_path};
use tarn::vault_path::VaultPath;

fn make_section(heading_path: Vec<&str>, links: Vec<IndexLink>, token_count: usize) -> SectionResult {
    SectionResult {
        heading_path: heading_path.into_iter().map(String::from).collect(),
        tags: vec![],
        links,
        token_count,
        entry: 0,
    }
}

#[test]
fn links_unions_all_sections() {
    let note = NoteResult {
        path: VaultPath::new("test.md").unwrap(),
        sections: vec![
            make_section(vec![], vec![IndexLink::Wiki { target: "a".into(), alias: None }], 10),
            make_section(vec![], vec![IndexLink::Url { url: "https://example.com".into() }], 20),
        ],
    };
    assert_eq!(note.links().len(), 2);
}

#[test]
fn total_token_count_sums_sections() {
    let note = NoteResult {
        path: VaultPath::new("test.md").unwrap(),
        sections: vec![make_section(vec![], vec![], 100), make_section(vec![], vec![], 50)],
    };
    assert_eq!(note.total_token_count(), 150);
}

#[test]
fn links_empty_sections() {
    let note = NoteResult { path: VaultPath::new("test.md").unwrap(), sections: vec![] };
    assert!(note.links().is_empty());
}

#[test]
fn total_token_count_empty_sections() {
    let note = NoteResult { path: VaultPath::new("test.md").unwrap(), sections: vec![] };
    assert_eq!(note.total_token_count(), 0);
}

#[test]
fn section_path_construction() {
    let path = VaultPath::new("projects/alpha.md").unwrap();

    let sp = make_section_path(&path, &vec![]).unwrap();
    assert_eq!(sp.as_str(), "projects/alpha.md#");
    assert_eq!(sp.note_path(), Some(path.clone()));
    assert!(sp.section_headings().is_empty());

    let sp = make_section_path(&path, &vec!["Goals".to_string()]).unwrap();
    assert_eq!(sp.as_str(), "projects/alpha.md#Goals");
    assert_eq!(sp.section_headings(), vec!["Goals"]);

    let sp = make_section_path(&path, &vec!["Goals".to_string(), "Q1".to_string()]).unwrap();
    assert_eq!(sp.as_str(), "projects/alpha.md#Goals/Q1");
    assert_eq!(sp.section_headings(), vec!["Goals", "Q1"]);
}

#[test]
fn apply_token_limit_truncates() {
    let counts = vec![100, 100, 100];
    // Token limit of 150: the first entry (100) fits, the second would push the total to 200.
    let limited = apply_token_limit(&counts, 10, Some(150));
    assert_eq!(limited, 1);
}
