use tarn::parser::sections::parse_sections;
use tarn::parser::tags::extract_inline_tags;

#[test]
fn parse_sections_by_headings() {
    let body = "\
Intro paragraph.

## Section One

Content one.

### Subsection

Nested content.

## Section Two

Content two.
";
    let sections = parse_sections(body);

    assert_eq!(sections.len(), 4);

    // First section: no heading (intro)
    assert!(sections[0].heading.is_none());
    assert!(sections[0].content.contains("Intro paragraph"));

    // Second section: ## Section One
    let h1 = sections[1].heading.as_ref().unwrap();
    assert_eq!(h1.level, 2);
    assert_eq!(h1.text, "Section One");

    // Third section: ### Subsection
    let h2 = sections[2].heading.as_ref().unwrap();
    assert_eq!(h2.level, 3);
    assert_eq!(h2.text, "Subsection");

    // Fourth section: ## Section Two
    let h3 = sections[3].heading.as_ref().unwrap();
    assert_eq!(h3.level, 2);
    assert_eq!(h3.text, "Section Two");
}

#[test]
fn heading_offsets_are_tracked() {
    let body = "Intro\n\n## First\n\nContent\n\n## Second\n";
    let sections = parse_sections(body);
    let headings: Vec<_> = sections.iter().filter_map(|s| s.heading.as_ref()).collect();

    assert_eq!(headings.len(), 2);
    assert_eq!(headings[0].text, "First");
    assert!(headings[0].offset > 0);
    assert!(headings[1].offset > headings[0].offset);
}

#[test]
fn parser_sections_crlf_line_endings() {
    let body = "Intro\r\n\r\n## First\r\n\r\nContent\r\n\r\n## Second\r\n";
    let sections = parse_sections(body);
    let headings: Vec<_> = sections.iter().filter_map(|s| s.heading.as_ref()).collect();

    assert_eq!(headings.len(), 2);
    assert_eq!(headings[0].text, "First");
    assert_eq!(headings[1].text, "Second");
    assert!(headings[1].offset > headings[0].offset);
}

#[test]
fn parser_tags_not_extracted_from_code_blocks() {
    let content = "\
Real #tag here.

```
#not-a-tag inside fence
```

Also `#not-inline-tag` in code span.
";
    let tags = extract_inline_tags(content);

    assert!(tags.iter().any(|t| t == "tag"));
    assert!(!tags.iter().any(|t| t == "not-a-tag"));
    assert!(!tags.iter().any(|t| t == "not-inline-tag"));
}
