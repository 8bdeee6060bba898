use tarn::query::ParsedQuery;

#[test]
fn query_empty_query() {
    let parsed = ParsedQuery::from("");
    assert_eq!(parsed.text, "");
    assert!(parsed.tags.is_empty());
    assert!(parsed.folders.is_empty());
}

#[test]
fn query_text_only() {
    let parsed = ParsedQuery::from("event sourcing patterns");
    assert_eq!(parsed.text, "event sourcing patterns");
    assert!(parsed.tags.is_empty());
    assert!(parsed.folders.is_empty());
}

#[test]
fn query_single_tag() {
    let parsed = ParsedQuery::from("rust tag:programming");
    assert_eq!(parsed.text, "rust");
    assert_eq!(parsed.tags, vec!["programming"]);
}

#[test]
fn query_multiple_tags() {
    let parsed = ParsedQuery::from("tag:rust tag:web");
    assert_eq!(parsed.text, "");
    assert_eq!(parsed.tags, vec!["rust", "web"]);
}

#[test]
fn query_hierarchical_tag() {
    let parsed = ParsedQuery::from("tag:project/alpha");
    assert_eq!(parsed.tags, vec!["project/alpha"]);
}

#[test]
fn query_single_folder() {
    let parsed = ParsedQuery::from("search text folder:concepts/");
    assert_eq!(parsed.text, "search text");
    assert_eq!(parsed.folders.len(), 1);
    assert_eq!(parsed.folders[0].to_string(), "concepts/");
}

#[test]
fn query_folder_without_trailing_slash() {
    let parsed = ParsedQuery::from("folder:projects");
    assert_eq!(parsed.folders.len(), 1);
    assert_eq!(parsed.folders[0].to_string(), "projects/");
}

#[test]
fn query_mixed_filters_and_text() {
    let parsed = ParsedQuery::from("event sourcing tag:architecture folder:concepts/ patterns");
    assert_eq!(parsed.text, "event sourcing patterns");
    assert_eq!(parsed.tags, vec!["architecture"]);
    assert_eq!(parsed.folders.len(), 1);
}

#[test]
fn query_tag_only_no_text() {
    let parsed = ParsedQuery::from("tag:rust tag:systems");
    assert_eq!(parsed.text, "");
    assert_eq!(parsed.tags, vec!["rust", "systems"]);
}

#[test]
fn empty_tag_value_ignored() {
    let parsed = ParsedQuery::from("tag: hello");
    assert_eq!(parsed.text, "hello");
    assert!(parsed.tags.is_empty());
}

#[test]
fn empty_folder_value_ignored() {
    let parsed = ParsedQuery::from("folder: hello");
    assert_eq!(parsed.text, "hello");
    assert!(parsed.folders.is_empty());
}

#[test]
fn query_multiple_folders() {
    let parsed = ParsedQuery::from("folder:a/ folder:b/");
    assert_eq!(parsed.folders.len(), 2);
}

// --- Quoted string tests ---

#[test]
fn query_quoted_tag_value() {
    let parsed = ParsedQuery::from(r#"tag:"multi word" search"#);
    assert_eq!(parsed.tags, vec!["multi word"]);
    assert_eq!(parsed.text, "search");
}

#[test]
fn query_quoted_folder_value() {
    let parsed = ParsedQuery::from(r#"folder:"my folder/" search"#);
    assert_eq!(parsed.folders.len(), 1);
    assert_eq!(parsed.folders[0].to_string(), "my folder/");
    assert_eq!(parsed.text, "search");
}

#[test]
fn query_unclosed_quote_treats_rest_as_token() {
    let parsed = ParsedQuery::from(r#"tag:"open ended"#);
    assert_eq!(parsed.tags, vec!["open ended"]);
}

#[test]
fn query_mixed_quoted_and_unquoted() {
    let parsed =
        ParsedQuery::from(r#"event sourcing tag:"project management" folder:concepts/"#);
    assert_eq!(parsed.text, "event sourcing");
    assert_eq!(parsed.tags, vec!["project management"]);
    assert_eq!(parsed.folders.len(), 1);
}

#[test]
fn query_quoted_text_not_a_filter() {
    let parsed = ParsedQuery::from(r#""hello world" search"#);
    assert_eq!(parsed.text, "hello world search");
}
