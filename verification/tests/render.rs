use tarn::index::{NoteResult, SectionResult};
use tarn::note::Note;
use tarn::render::{render_block, render_heading, trim_text, RenderMarkdown};
use tarn::vault_path::VaultPath;

fn make_note_result(path: &str, sections: Vec<SectionResult>) -> NoteResult {
    NoteResult { path: VaultPath::new(path).unwrap(), sections }
}

fn make_section(heading_path: Vec<&str>) -> SectionResult {
    SectionResult {
        heading_path: heading_path.into_iter().map(String::from).collect(),
        tags: vec![],
        links: vec![],
        token_count: 10,
        entry: 0,
    }
}

#[test]
fn render_root_section_uses_filename() {
    let result = make_note_result("projects/design.md", vec![make_section(vec![])]);
    let note = Note::from_parts(None, "Root content here");
    let output = RenderMarkdown::new(&vec![result], &vec![note], &vec![vec![Some("0.50".to_string())]]).render();
    assert!(output.contains("## design"));
    assert!(output.contains("Root content here"));
}

#[test]
fn render_without_scores() {
    let result = make_note_result("note.md", vec![make_section(vec!["Heading"])]);
    let note = Note::from_parts(None, "# Heading\n\nSome content");
    let output = RenderMarkdown::new(&vec![result], &vec![note], &vec![vec![None]]).render();
    assert!(output.contains("<!-- note.md | tokens:"));
    assert!(!output.contains("score:"));
}

#[test]
fn render_with_scores() {
    let result = make_note_result("note.md", vec![make_section(vec!["Heading"])]);
    let note = Note::from_parts(None, "# Heading\n\nSome content");
    let output = RenderMarkdown::new(&vec![result], &vec![note], &vec![vec![Some("0.92".to_string())]]).render();
    assert!(output.contains("score: 0.92"));
}

#[test]
fn render_nested_path_filename() {
    let result = make_note_result("deep/nested/path/readme.md", vec![make_section(vec![])]);
    let note = Note::from_parts(None, "Content of readme");
    let output = RenderMarkdown::new(&vec![result], &vec![note], &vec![]).render();
    assert!(output.contains("## readme"));
}

#[test]
fn render_joins_blocks_with_rules() {
    let result = make_note_result("n.md", vec![make_section(vec!["A"]), make_section(vec!["B"]), make_section(vec!["Z"])]);
    let note = Note::from_parts(None, "# A\n\none\n\n# B\n\ntwo two");
    let output = RenderMarkdown::new(&vec![result], &vec![note], &vec![]).render();
    assert_eq!(
        output,
        "<!-- n.md | tokens: 3 -->\n\n## A\n\n# A\n\none\n\n---\n\n<!-- n.md | tokens: 4 -->\n\n## B\n\n# B\n\ntwo two"
    );
}

#[test]
fn block_and_heading_pieces() {
    assert_eq!(render_heading("a/b.md", &vec![]), "b");
    assert_eq!(render_heading("plain", &vec![]), "plain");
    assert_eq!(render_heading("a.md", &vec!["X".to_string(), "Y".to_string()]), "Y");
    assert_eq!(render_block("p.md", Some("0.50"), 12, "H", "  body \n"), "<!-- p.md | score: 0.50 | tokens: 12 -->\n\n## H\n\nbody\n");
    assert_eq!(trim_text("  a b \n\t"), "a b");
}
