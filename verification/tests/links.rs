use tarn::links::{EmailLink, Link, MarkdownLink, UrlLink, WikiLink};

#[test]
fn from_str_wikilink_variants() {
    let link: Link = "[[note]]".parse().unwrap();
    assert!(
        matches!(link, Link::Wiki(ref w) if w.target == "note" && w.alias.is_none() && w.heading.is_none() && w.block_ref.is_none() && !w.is_embed)
    );

    let link: Link = "[[note|alias]]".parse().unwrap();
    assert!(
        matches!(link, Link::Wiki(WikiLink { target, alias, .. }) if target == "note" && alias.as_deref() == Some("alias"))
    );

    let link: Link = "[[note#heading]]".parse().unwrap();
    assert!(
        matches!(link, Link::Wiki(WikiLink { target, heading, .. }) if target == "note" && heading.as_deref() == Some("heading"))
    );

    let link: Link = "[[note^block]]".parse().unwrap();
    assert!(
        matches!(link, Link::Wiki(WikiLink { target, block_ref, .. }) if target == "note" && block_ref.as_deref() == Some("block"))
    );

    let link: Link = "[[note#heading|alias]]".parse().unwrap();
    assert!(
        matches!(link, Link::Wiki(WikiLink { target, heading, alias, .. }) if target == "note" && heading.as_deref() == Some("heading") && alias.as_deref() == Some("alias"))
    );

    let link: Link = "![[embed]]".parse().unwrap();
    assert!(
        matches!(link, Link::Wiki(WikiLink { target, is_embed: true, .. }) if target == "embed")
    );
}

#[test]
fn from_str_wikilink_heading_and_block_ref() {
    let link: Link = "[[note#heading#^block]]".parse().unwrap();
    assert!(matches!(
        link,
        Link::Wiki(ref w)
            if w.target == "note"
                && w.heading.as_deref() == Some("heading")
                && w.block_ref.as_deref() == Some("block")
                && w.alias.is_none()
                && !w.is_embed
    ));

    // With alias
    let link: Link = "[[note#heading#^block|alias]]".parse().unwrap();
    assert!(matches!(
        link,
        Link::Wiki(WikiLink { target, heading, block_ref, alias, is_embed: false })
            if target == "note"
                && heading.as_deref() == Some("heading")
                && block_ref.as_deref() == Some("block")
                && alias.as_deref() == Some("alias")
    ));

    // Block ref without heading: [[note#^block]]
    let link: Link = "[[note#^block]]".parse().unwrap();
    assert!(matches!(
        link,
        Link::Wiki(ref w)
            if w.target == "note"
                && w.heading.is_none()
                && w.block_ref.as_deref() == Some("block")
                && w.alias.is_none()
                && !w.is_embed
    ));
}

#[test]
fn from_str_markdown() {
    let link: Link = "[text](./path.md)".parse().unwrap();
    assert!(
        matches!(link, Link::Markdown(ref m) if m.text == "text" && m.url == "./path.md" && m.title.is_none() && !m.is_embed)
    );

    let link: Link = r#"[text](./path.md "a title")"#.parse().unwrap();
    assert!(
        matches!(link, Link::Markdown(MarkdownLink { title, .. }) if title.as_deref() == Some("a title"))
    );

    let link: Link = "![alt](image.png)".parse().unwrap();
    assert!(
        matches!(link, Link::Markdown(MarkdownLink { text, url, is_embed: true, .. }) if text == "alt" && url == "image.png")
    );
}

#[test]
fn from_str_autolink() {
    let link: Link = "<https://example.com>".parse().unwrap();
    assert!(matches!(link, Link::Url(UrlLink { url }) if url == "https://example.com"));

    let link: Link = "<user@example.com>".parse().unwrap();
    assert!(
        matches!(link, Link::Email(EmailLink { address }) if address == "user@example.com")
    );
}

#[test]
fn display_roundtrip() {
    let wiki = Link::Wiki(WikiLink {
        target: "note".into(),
        alias: Some("alias".into()),
        heading: Some("h1".into()),
        block_ref: None,
        is_embed: false,
    });
    assert_eq!(wiki.to_string(), "[[note#h1|alias]]");
    assert_eq!(wiki.to_string().parse::<Link>().unwrap(), wiki);

    let embed_wiki = Link::Wiki(WikiLink {
        target: "note".into(),
        alias: None,
        heading: None,
        block_ref: None,
        is_embed: true,
    });
    assert_eq!(embed_wiki.to_string(), "![[note]]");
    assert_eq!(embed_wiki.to_string().parse::<Link>().unwrap(), embed_wiki);

    let md = Link::Markdown(MarkdownLink {
        text: "click".into(),
        url: "./page.md".into(),
        title: None,
        is_embed: false,
    });
    assert_eq!(md.to_string(), "[click](./page.md)");
    assert_eq!(md.to_string().parse::<Link>().unwrap(), md);

    let embed_md = Link::Markdown(MarkdownLink {
        text: "alt".into(),
        url: "img.png".into(),
        title: None,
        is_embed: true,
    });
    assert_eq!(embed_md.to_string(), "![alt](img.png)");
    assert_eq!(embed_md.to_string().parse::<Link>().unwrap(), embed_md);

    let url = Link::Url(UrlLink {
        url: "https://example.com".into(),
    });
    assert_eq!(url.to_string(), "<https://example.com>");
    assert_eq!(url.to_string().parse::<Link>().unwrap(), url);

    let email = Link::Email(EmailLink {
        address: "user@example.com".into(),
    });
    assert_eq!(email.to_string(), "<user@example.com>");
    assert_eq!(email.to_string().parse::<Link>().unwrap(), email);
}

#[test]
fn display_roundtrip_heading_and_block_ref() {
    let link = Link::Wiki(WikiLink {
        target: "note".into(),
        heading: Some("heading".into()),
        block_ref: Some("block".into()),
        alias: None,
        is_embed: false,
    });
    assert_eq!(link.to_string(), "[[note#heading#^block]]");
    assert_eq!(link.to_string().parse::<Link>().unwrap(), link);

    let link = Link::Wiki(WikiLink {
        target: "note".into(),
        heading: None,
        block_ref: Some("block".into()),
        alias: None,
        is_embed: false,
    });
    assert_eq!(link.to_string(), "[[note#^block]]");
    assert_eq!(link.to_string().parse::<Link>().unwrap(), link);
}

#[test]
fn extract_from_text() {
    let content = "See [[wiki]], [note](./other.md) and [google](https://google.com).\n";
    let links = Link::extract(content);

    assert_eq!(links.len(), 3);
    assert!(matches!(&links[0], Link::Wiki(WikiLink { target, .. }) if target == "wiki"));
    assert!(
        matches!(&links[1], Link::Markdown(MarkdownLink { url, .. }) if url == "./other.md")
    );
    assert!(
        matches!(&links[2], Link::Markdown(MarkdownLink { url, .. }) if url == "https://google.com")
    );
}

#[test]
fn extract_wikilink_variants() {
    let content = "See [[note]], [[note|alias]], [[note#heading]], [[note^block]], and [[note#heading|alias]].\n";
    let links = Link::extract(content);

    assert_eq!(links.len(), 5);
    assert!(matches!(&links[0], Link::Wiki(w) if w.target == "note" && w.alias.is_none()));
    assert!(
        matches!(&links[1], Link::Wiki(WikiLink { target, alias, .. }) if target == "note" && alias.as_deref() == Some("alias"))
    );
    assert!(
        matches!(&links[2], Link::Wiki(WikiLink { target, heading, .. }) if target == "note" && heading.as_deref() == Some("heading"))
    );
    assert!(
        matches!(&links[3], Link::Wiki(WikiLink { target, block_ref, .. }) if target == "note" && block_ref.as_deref() == Some("block"))
    );
    assert!(
        matches!(&links[4], Link::Wiki(WikiLink { target, heading, alias, .. }) if target == "note" && heading.as_deref() == Some("heading") && alias.as_deref() == Some("alias"))
    );
}
