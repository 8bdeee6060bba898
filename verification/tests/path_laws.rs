use tarn::tasks::Task;
use tarn::links::{EmailLink, Link, MarkdownLink, UrlLink};
use tarn::section_store::make_section_path;
use tarn::vault_path::VaultPath;

#[test]
fn parent_chain_reads_back_and_ends() {
    let mut v = VaultPath::new("a/b/c.md#Goals/Q1").unwrap();
    let mut seen = Vec::new();
    while let Some(p) = v.parent() {
        assert_eq!(VaultPath::new(p.as_str()).unwrap(), p);
        assert!(v.as_str().starts_with(p.as_str()));
        assert!(p.as_str().len() < v.as_str().len());
        seen.push(p.as_str().to_string());
        v = p;
    }
    assert_eq!(seen, vec!["a/b/c.md", "a/b/", "a/", ""]);
}

#[test]
fn section_path_of_headings_reads_back() {
    let note = VaultPath::new("notes/n.md").unwrap();
    let hs = vec!["Intro".to_string(), "Part two".to_string()];
    let s = make_section_path(&note, &hs).unwrap();
    assert_eq!(s.as_str(), "notes/n.md#Intro/Part two");
    assert!(s.is_section());
    assert_eq!(VaultPath::new(s.as_str()).unwrap(), s);
    assert_eq!(s.section_headings(), hs);
    assert_eq!(s.note_path(), Some(note.clone()));
    assert_eq!(s.parent(), Some(note));
}

#[test]
fn plain_links_read_back() {
    let md = Link::Markdown(MarkdownLink {
        text: "see this".to_string(),
        url: "./other.md".to_string(),
        title: Some("The title".to_string()),
        is_embed: false,
    });
    let url = Link::Url(UrlLink { url: "https://example.com/x".to_string() });
    let email = Link::Email(EmailLink { address: "me@example.com".to_string() });
    for l in [md, url, email] {
        assert_eq!(l.to_string().parse::<Link>().unwrap(), l);
    }
}

#[test]
fn under_folder_ignores_surrounding_slashes() {
    let p = tarn::note_path::NotePath::new("projects/alpha/design.md").unwrap();
    assert!(p.is_under_folder("projects"));
    assert!(p.is_under_folder("/projects/"));
    assert!(p.is_under_folder("projects/alpha"));
    assert!(!p.is_under_folder("proj"));
    assert!(p.is_under_folder(""));
    assert!(p.is_in_folder("projects/alpha") && p.is_under_folder("projects/alpha"));
}

#[test]
fn task_lines_shift_with_the_start() {
    let content = "intro\n- [ ] one\ntext\n- [x] two\n";
    let a = Task::extract_from_with_offset(content, 1);
    let b = Task::extract_from_with_offset(content, 10);
    assert_eq!(a.iter().map(|t| t.line).collect::<Vec<_>>(), vec![2, 4]);
    assert_eq!(b.iter().map(|t| t.line).collect::<Vec<_>>(), vec![11, 13]);
    assert_eq!(a.iter().map(|t| t.text.clone()).collect::<Vec<_>>(), b.iter().map(|t| t.text.clone()).collect::<Vec<_>>());
}
