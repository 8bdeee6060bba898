use tarn::search_query::SearchQuery;

#[test]
fn requests_empty_query() {
    let parsed = SearchQuery::from("");
    assert_eq!(parsed.text, "");
    assert!(parsed.tags.is_empty());
    assert!(parsed.folders.is_empty());
}

#[test]
fn requests_text_only() {
    let parsed = SearchQuery::from("event sourcing patterns");
    assert_eq!(parsed.text, "event sourcing patterns");
    assert!(parsed.tags.is_empty());
    assert!(parsed.folders.is_empty());
}

#[test]
fn requests_single_tag() {
    let parsed = SearchQuery::from("rust tag:programming");
    assert_eq!(parsed.text, "rust");
    assert_eq!(parsed.tags, vec!["programming"]);
}

#[test]
fn requests_multiple_tags() {
    let parsed = SearchQuery::from("tag:rust tag:web");
    assert_eq!(parsed.text, "");
    assert_eq!(parsed.tags, vec!["rust", "web"]);
}

#[test]
fn requests_hierarchical_tag() {
    let parsed = SearchQuery::from("tag:project/alpha");
    assert_eq!(parsed.tags, vec!["project/alpha"]);
}

#[test]
fn requests_single_folder() {
    let parsed = SearchQuery::from("search text folder:concepts/");
    assert_eq!(parsed.text, "search text");
    assert_eq!(parsed.folders.len(), 1);
    assert_eq!(parsed.folders[0].to_string(), "concepts/");
}

#[test]
fn requests_folder_without_trailing_slash() {
    let parsed = SearchQuery::from("folder:projects");
    assert_eq!(parsed.folders.len(), 1);
    assert_eq!(parsed.folders[0].to_string(), "projects/");
}

#[test]
fn requests_mixed_filters_and_text() {
    let parsed = SearchQuery::from("event sourcing tag:architecture folder:concepts/ patterns");
    assert_eq!(parsed.text, "event sourcing patterns");
    assert_eq!(parsed.tags, vec!["architecture"]);
    assert_eq!(parsed.folders.len(), 1);
}

#[test]
fn requests_tag_only_no_text() {
    let parsed = SearchQuery::from("tag:rust tag:systems");
    assert_eq!(parsed.text, "");
    assert_eq!(parsed.tags, vec!["rust", "systems"]);
}

#[test]
fn empty_tag_value_treated_as_text() {
    // `tag:` followed by space doesn't match tag pattern, becomes plain text
    let parsed = SearchQuery::from("tag: hello");
    assert_eq!(parsed.text, "tag: hello");
    assert!(parsed.tags.is_empty());
}

#[test]
fn empty_folder_value_treated_as_text() {
    // `folder:` followed by space doesn't match folder pattern, becomes plain text
    let parsed = SearchQuery::from("folder: hello");
    assert_eq!(parsed.text, "folder: hello");
    assert!(parsed.folders.is_empty());
}

#[test]
fn requests_multiple_folders() {
    let parsed = SearchQuery::from("folder:a/ folder:b/");
    assert_eq!(parsed.folders.len(), 2);
}

// --- Quoted string tests ---

#[test]
fn requests_quoted_tag_value() {
    let parsed = SearchQuery::from(r#"tag:"multi word" search"#);
    assert_eq!(parsed.tags, vec!["multi word"]);
    assert_eq!(parsed.text, "search");
}

#[test]
fn requests_quoted_folder_value() {
    let parsed = SearchQuery::from(r#"folder:"my folder/" search"#);
    assert_eq!(parsed.folders.len(), 1);
    assert_eq!(parsed.folders[0].to_string(), "my folder/");
    assert_eq!(parsed.text, "search");
}

#[test]
fn requests_unclosed_quote_treats_rest_as_token() {
    let parsed = SearchQuery::from(r#"tag:"open ended"#);
    assert_eq!(parsed.tags, vec!["open ended"]);
}

#[test]
fn requests_mixed_quoted_and_unquoted() {
    let parsed =
        SearchQuery::from(r#"event sourcing tag:"project management" folder:concepts/"#);
    assert_eq!(parsed.text, "event sourcing");
    assert_eq!(parsed.tags, vec!["project management"]);
    assert_eq!(parsed.folders.len(), 1);
}

#[test]
fn requests_quoted_text_not_a_filter() {
    let parsed = SearchQuery::from(r#""hello world" search"#);
    assert_eq!(parsed.text, "hello world search");
}

#[test]
fn deserialize_from_json_string() {
    let json = r#""rust tag:programming""#;
    let raw: String = serde_json::from_str(json).unwrap();
    let query = SearchQuery::from(raw);
    assert_eq!(query.text, "rust");
    assert_eq!(query.tags, vec!["programming"]);
}
