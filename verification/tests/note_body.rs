use tarn::note::{split_frontmatter_text, Note};

#[test]
fn body_text_concatenates_sections() {
    let body = "intro\n\n# A\n\nalpha\n\n## B\n\nbeta\n";
    let note = Note::from_parts(None, body);
    assert_eq!(note.body_text(), body);
}

#[test]
fn frontmatter_and_body_split() {
    let (fm, body) = split_frontmatter_text("---\ntitle: T\n---\n# H\n");
    assert_eq!(fm.as_deref(), Some("title: T"));
    assert_eq!(body, "# H\n");
    let note = Note::from_parts(None, &body);
    assert_eq!(note.body_text(), "# H\n");
}
