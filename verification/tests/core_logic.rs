use tarn::core_logic::{
    appended_content, link_target_paths, listed_paths, listing_folder, markdown_content, recorded_revision,
    rename_rewrite, replace_content, resolve_section, review_changes, section_exists, section_note, section_paths,
    tag_counts, CoreError, StorageEvent, UpdateMode,
};
use tarn::data_uri::DataURI;
use tarn::index::{IndexEntry, IndexLink, NoteResult, SectionResult};
use tarn::note::{Frontmatter, Note};
use tarn::revisions::{InMemoryRevisionTracker, RevisionToken};
use tarn::storage::FileContent;
use tarn::vault_path::VaultPath;

fn vp(s: &str) -> VaultPath {
    VaultPath::new(s).unwrap()
}

fn section(hp: &[&str], tags: &[&str]) -> SectionResult {
    SectionResult {
        heading_path: hp.iter().map(|s| s.to_string()).collect(),
        tags: tags.iter().map(|s| s.to_string()).collect(),
        links: vec![],
        token_count: 1,
        entry: 0,
    }
}

#[test]
fn review_changes_detects_created_updated_deleted() {
    let mut tracker = InMemoryRevisionTracker::new();
    tracker.update_revision(&vp("same.md"), RevisionToken::from("1:1"));
    tracker.update_revision(&vp("changed.md"), RevisionToken::from("1:1"));
    tracker.update_revision(&vp("gone.md"), RevisionToken::from("1:1"));
    let stored = vec![
        (vp("same.md"), RevisionToken::from("1:1")),
        (vp("changed.md"), RevisionToken::from("2:5")),
        (vp("new.md"), RevisionToken::from("3:3")),
    ];
    let events = review_changes(&stored, &tracker);
    assert_eq!(events.len(), 3);
    let mut created = 0;
    let mut updated = 0;
    let mut deleted = 0;
    for e in &events {
        match e {
            StorageEvent::Created { path, token } => {
                assert_eq!(path.as_str(), "new.md");
                assert_eq!(token.as_str(), "3:3");
                created += 1;
            }
            StorageEvent::Updated { path, token } => {
                assert_eq!(path.as_str(), "changed.md");
                assert_eq!(token.as_str(), "2:5");
                updated += 1;
            }
            StorageEvent::Deleted { path } => {
                assert_eq!(path.as_str(), "gone.md");
                deleted += 1;
            }
        }
    }
    assert_eq!((created, updated, deleted), (1, 1, 1));
}

#[test]
fn review_changes_in_sync_gives_nothing() {
    let mut tracker = InMemoryRevisionTracker::new();
    tracker.update_revision(&vp("a.md"), RevisionToken::from("1:1"));
    let stored = vec![(vp("a.md"), RevisionToken::from("1:1"))];
    assert!(review_changes(&stored, &tracker).is_empty());
}

#[test]
fn update_text_replaces_all_occurrences() {
    let r = replace_content("hello world hello", "hello", "hi", UpdateMode::Text).unwrap();
    assert_eq!(r, "hi world hi");
}

#[test]
fn update_regex_replaces_matches() {
    let r = replace_content("foo123bar", r"\d+", "NUM", UpdateMode::Regex).unwrap();
    assert_eq!(r, "fooNUMbar");
}

#[test]
fn update_no_match_fails() {
    match replace_content("content", "missing", "new", UpdateMode::Text) {
        Err(CoreError::NoMatch(s)) => assert_eq!(s, "missing"),
        other => panic!("expected NoMatch, got {:?}", other),
    }
}

#[test]
fn update_same_text_is_no_match() {
    assert!(matches!(replace_content("abc", "b", "b", UpdateMode::Text), Err(CoreError::NoMatch(_))));
}

#[test]
fn update_invalid_regex_fails() {
    assert!(matches!(replace_content("abc", "(", "x", UpdateMode::Regex), Err(CoreError::InvalidRegex(_))));
}

#[test]
fn regex_replacement_expands_groups() {
    assert_eq!(replace_content("me@x", r"(\w+)@", "<$1>", UpdateMode::Regex).unwrap(), "<me>x");
}

#[test]
fn markdown_content_rejects_images() {
    let p = vp("a.png");
    let img = FileContent::Image(DataURI::new("image/png".to_string(), &[1, 2, 3]));
    assert!(matches!(markdown_content(&p, &img), Err(CoreError::NotMarkdown(_))));
    let md = FileContent::Markdown("text".to_string());
    assert_eq!(markdown_content(&vp("a.md"), &md).unwrap(), "text");
}

#[test]
fn append_joins_with_newline() {
    let p = vp("note.md");
    let cur = FileContent::Markdown("# Note\n\nOriginal".to_string());
    let add = FileContent::Markdown("\nAppended content".to_string());
    let r = appended_content(&p, &cur, &add).unwrap();
    assert_eq!(r, "# Note\n\nOriginal\n\nAppended content");
    assert!(r.contains("Original"));
    assert!(r.contains("Appended content"));
}

#[test]
fn append_image_is_not_markdown() {
    let p = vp("note.md");
    let cur = FileContent::Markdown("x".to_string());
    let add = FileContent::Image(DataURI::new("image/png".to_string(), &[0]));
    assert!(matches!(appended_content(&p, &cur, &add), Err(CoreError::NotMarkdown(_))));
}

#[test]
fn delete_untracked_fails() {
    let p = vp("note.md");
    assert!(matches!(recorded_revision(&p, None), Err(CoreError::NoteNotFound(_))));
    assert_eq!(recorded_revision(&p, Some(RevisionToken::from("t"))).unwrap().as_str(), "t");
}

#[test]
fn rename_updates_wikilinks() {
    let (pattern, rep) = rename_rewrite(&vp("target.md"), &vp("renamed.md"), true).unwrap();
    let out = replace_content("See [[target]] for details.", &pattern, &rep, UpdateMode::Regex).unwrap();
    assert!(out.contains("[[renamed]]"), "expected updated link, got: {out}");
    assert!(!out.contains("[[target]]"));
}

#[test]
fn rename_keeps_heading_and_alias() {
    let (pattern, rep) = rename_rewrite(&vp("a/target.md"), &vp("renamed.md"), true).unwrap();
    let out = replace_content("[[dir/target#H]] and [[target|T]]", &pattern, &rep, UpdateMode::Regex).unwrap();
    assert_eq!(out, "[[renamed#H]] and [[renamed|T]]");
}

#[test]
fn rename_escapes_stem() {
    let (pattern, _) = rename_rewrite(&vp("a.b+c.md"), &vp("x.md"), true).unwrap();
    assert!(pattern.contains(r"a\.b\+c"));
}

#[test]
fn rename_same_stem_skips_link_update() {
    assert!(rename_rewrite(&vp("note.md"), &vp("sub/note.md"), true).is_none());
    assert!(rename_rewrite(&vp("a.md"), &vp("b.md"), false).is_none());
}

#[test]
fn list_paths_sorted() {
    let results = vec![
        NoteResult { path: vp("b.md"), sections: vec![] },
        NoteResult { path: vp("a.md"), sections: vec![] },
    ];
    let paths = listed_paths(results);
    let texts: Vec<&str> = paths.iter().map(|p| p.as_str()).collect();
    assert_eq!(texts, vec!["a.md", "b.md"]);
}

#[test]
fn listing_folder_kinds() {
    assert!(listing_folder(&VaultPath::Root).unwrap().is_none());
    assert_eq!(listing_folder(&vp("docs/")).unwrap().unwrap().as_str(), "docs/");
    assert!(matches!(listing_folder(&vp("a.md")), Err(CoreError::NotFolder(_))));
}

#[test]
fn parse_content_and_resolve_section() {
    let note = Note::from_parts(None, "# Top\n\ncontent\n\n## Sub\n\nsub content");
    let section = resolve_section(&note, &vec!["Top".to_string(), "Sub".to_string()]);
    assert!(section.is_some());
    let section = section.unwrap();
    assert_eq!(section.heading_path, vec!["Top", "Sub"]);
    assert!(section.content.contains("sub content"));
    let missing = resolve_section(&note, &vec!["Nonexistent".to_string()]);
    assert!(missing.is_none());
}

#[test]
fn list_sections() {
    let note = Note::from_parts(None, "# Top\n\ncontent\n\n## Sub\n\nsub content");
    let paths = section_paths(&vp("note.md"), &note.sections);
    let texts: Vec<&str> = paths.iter().map(|p| p.as_str()).collect();
    assert_eq!(texts, vec!["note.md#Top", "note.md#Top/Sub"]);
}

#[test]
fn list_sections_skips_preamble() {
    let note = Note::from_parts(None, "intro\n\n# A\n\nbody");
    let paths = section_paths(&vp("n.md"), &note.sections);
    assert_eq!(paths.len(), 1);
    assert_eq!(paths[0].as_str(), "n.md#A");
}

#[test]
fn section_exists_compares_headings() {
    let entries = vec![IndexEntry { path: vp("n.md#A/B"), tags: vec![], links: vec![], token_count: 1 }];
    assert!(section_exists(&vp("n.md#A/B"), &entries));
    assert!(!section_exists(&vp("n.md#A"), &entries));
    assert_eq!(section_note(&vp("n.md#A")).unwrap().as_str(), "n.md");
    assert!(matches!(section_note(&vp("docs/")), Err(CoreError::NotMarkdown(_))));
}

#[test]
fn list_tags_counts_notes() {
    let results = vec![
        NoteResult { path: vp("a.md"), sections: vec![section(&[], &["rust", "programming"]), section(&["H"], &["rust"])] },
        NoteResult { path: vp("b.md"), sections: vec![section(&[], &["rust", "go"])] },
    ];
    let mut counts = tag_counts(&results, None);
    counts.sort();
    assert_eq!(
        counts,
        vec![("go".to_string(), 1), ("programming".to_string(), 1), ("rust".to_string(), 2)]
    );
    let only = tag_counts(&results, Some("pro"));
    assert_eq!(only, vec![("programming".to_string(), 1)]);
}

#[test]
fn forward_links_resolve_targets() {
    let links = vec![
        IndexLink::Wiki { target: "alpha".to_string(), alias: None },
        IndexLink::Wiki { target: "beta".to_string(), alias: Some("B".to_string()) },
        IndexLink::Wiki { target: "alpha.md".to_string(), alias: None },
        IndexLink::Markdown { url: "docs/c.md".to_string(), text: "c".to_string() },
        IndexLink::Markdown { url: "https://example.com".to_string(), text: "e".to_string() },
        IndexLink::Url { url: "https://x.org".to_string() },
        IndexLink::Email { address: "a@b.c".to_string() },
    ];
    let paths = link_target_paths(&links);
    let texts: Vec<&str> = paths.iter().map(|p| p.as_str()).collect();
    assert_eq!(texts, vec!["alpha.md", "beta.md", "docs/c.md"]);
}

#[test]
fn frontmatter_part_of_note() {
    let fm = Frontmatter { title: Some("T".to_string()), description: None, tags: vec![], aliases: vec![] };
    let note = Note::from_parts(Some(fm), "# H\n\nx");
    assert_eq!(note.title.as_deref(), Some("T"));
}
