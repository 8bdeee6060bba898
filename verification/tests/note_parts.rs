use tarn::note::Note;
use tarn::tag_filter::filter_tags;
use tarn::vault_path::VaultPath;

#[test]
fn note_nested_tags() {
    let content = "Some text with #project/alpha and #project/beta tags.\n";
    let note = Note::from_parts(None, content);
    let tags = note.tags();

    assert!(tags.iter().any(|t| t == "project/alpha"));
    assert!(tags.iter().any(|t| t == "project/beta"));
}

#[test]
fn note_empty_content() {
    let note = Note::from_parts(None, "");
    assert_eq!(note.title, None);
    assert!(note.frontmatter.is_none());
    assert_eq!(note.sections.len(), 0);
    assert_eq!(note.word_count(), 0);
}

#[test]
fn note_headings_returns_all_headings() {
    let content = "\
# First Heading

Content.

## Second Heading

More content.

### Third Heading

Even more content.
";
    let note = Note::from_parts(None, content);
    let headings = note.headings();

    assert_eq!(headings.len(), 3);
    assert_eq!(headings[0].level, 1);
    assert_eq!(headings[0].text, "First Heading");
    assert_eq!(headings[1].level, 2);
    assert_eq!(headings[1].text, "Second Heading");
    assert_eq!(headings[2].level, 3);
    assert_eq!(headings[2].text, "Third Heading");
}

fn sec(p: &str, tags: &[&str]) -> (VaultPath, Vec<String>) {
    (VaultPath::new(p).unwrap(), tags.iter().map(|t| t.to_string()).collect())
}

#[test]
fn filter_tags_keeps_wanted_and_drops_unwanted() {
    let sections = vec![
        sec("a.md#A", &["rust", "draft"]),
        sec("b.md#B", &["rust"]),
        sec("c.md#C", &["go"]),
        sec("d.md#D", &[]),
    ];
    let names = |v: Vec<VaultPath>| v.iter().map(|p| p.as_str().to_string()).collect::<Vec<_>>();
    let rust = vec!["rust".to_string()];
    let draft = vec!["draft".to_string()];
    let empty: Vec<String> = vec![];
    assert_eq!(names(filter_tags(&sections, None, None)), vec!["a.md#A", "b.md#B", "c.md#C", "d.md#D"]);
    assert_eq!(names(filter_tags(&sections, Some(&rust), None)), vec!["a.md#A", "b.md#B"]);
    assert_eq!(names(filter_tags(&sections, Some(&rust), Some(&draft))), vec!["b.md#B"]);
    assert_eq!(names(filter_tags(&sections, None, Some(&draft))), vec!["b.md#B", "c.md#C", "d.md#D"]);
    assert_eq!(names(filter_tags(&sections, Some(&empty), Some(&empty))).len(), 4);
}
