use tarn::links::{EmailLink, Link, MarkdownLink, UrlLink, WikiLink};
use tarn::note::{Frontmatter, Note};
use tarn::responses::{
    available_sections, folder_counts, section_resource_path, section_tag_list, tag_infos, vault_tag_infos, LinkInfo,
};
use tarn::vault_path::VaultPath;

fn vp(s: &str) -> VaultPath {
    VaultPath::new(s).unwrap()
}

#[test]
fn link_info_of_each_kind() {
    let wiki = Link::Wiki(WikiLink {
        target: "note".to_string(),
        alias: Some("N".to_string()),
        heading: None,
        block_ref: None,
        is_embed: false,
    });
    let info = LinkInfo::from(&wiki);
    assert_eq!(info.link_type, "wiki");
    assert_eq!(info.target, "note");
    assert_eq!(info.display.as_deref(), Some("N"));
    let md = Link::Markdown(MarkdownLink {
        text: "t".to_string(),
        url: "u".to_string(),
        title: None,
        is_embed: false,
    });
    let info = LinkInfo::from(&md);
    assert_eq!((info.link_type.as_str(), info.target.as_str(), info.display.as_deref()), ("markdown", "u", Some("t")));
    let info = LinkInfo::from(&Link::Url(UrlLink { url: "https://x".to_string() }));
    assert_eq!((info.link_type.as_str(), info.display.is_none()), ("url", true));
    let info = LinkInfo::from(&Link::Email(EmailLink { address: "a@b.c".to_string() }));
    assert_eq!((info.link_type.as_str(), info.target.as_str()), ("email", "a@b.c"));
}

#[test]
fn tag_infos_have_direct_children() {
    let counts = vec![
        ("project".to_string(), 3),
        ("project/alpha".to_string(), 2),
        ("project/alpha/x".to_string(), 1),
        ("other".to_string(), 1),
    ];
    let infos = tag_infos(&counts);
    assert_eq!(infos.len(), 4);
    assert_eq!(infos[0].tag, "project");
    assert_eq!(infos[0].count, 3);
    assert_eq!(infos[0].children, vec!["project/alpha"]);
    assert_eq!(infos[1].children, vec!["project/alpha/x"]);
    assert!(infos[3].children.is_empty());
    assert!(infos[0].notes.is_none());
    let vinfos = vault_tag_infos(&counts);
    assert_eq!(vinfos[0].children, vec!["project/alpha"]);
}

#[test]
fn folder_counts_sorted() {
    let paths = vec![vp("b/one.md"), vp("a/two.md"), vp("b/three.md"), vp("root.md"), vp("a/sub/four.md")];
    let folders = folder_counts(&paths);
    let got: Vec<(&str, usize)> = folders.iter().map(|f| (f.path.as_str(), f.note_count)).collect();
    assert_eq!(got, vec![("a/", 1), ("a/sub/", 1), ("b/", 2)]);
}

#[test]
fn section_tags_merge_and_sort() {
    let fm = Frontmatter {
        title: None,
        description: None,
        tags: vec!["zeta".to_string(), "alpha".to_string()],
        aliases: vec![],
    };
    let note = Note::from_parts(Some(fm.clone()), "# H\n\nText #beta and #alpha");
    let tags = section_tag_list(&note.frontmatter, &note.sections[0]);
    assert_eq!(tags, vec!["alpha", "beta", "zeta"]);
}

#[test]
fn available_sections_lists_heading_paths() {
    let note = Note::from_parts(None, "intro\n\n# Top\n\n## Sub\n\nx");
    assert_eq!(available_sections(&note.sections), vec!["Top", "Top/Sub"]);
}

#[test]
fn section_resource_path_joins() {
    assert_eq!(section_resource_path("n.md", "A/B"), "n.md#A/B");
}
