use tarn::query::ParsedQuery;
use tarn::tool_modes::{
    effective_query, parse_folder, parse_replace_mode, parse_write_mode, with_frontmatter, ReplaceMode, SearchPlan, WriteMode,
};
use tarn::vault_path::VaultPath;

#[test]
fn folder_gets_one_trailing_slash() {
    assert!(parse_folder(None).unwrap().is_none());
    assert_eq!(parse_folder(Some("projects")).unwrap().unwrap().as_str(), "projects/");
    assert_eq!(parse_folder(Some("projects///")).unwrap().unwrap().as_str(), "projects/");
    assert!(parse_folder(Some("../x")).is_err());
}

#[test]
fn replace_modes() {
    assert_eq!(parse_replace_mode(None), Ok(ReplaceMode::First));
    assert_eq!(parse_replace_mode(Some("first")), Ok(ReplaceMode::First));
    assert_eq!(parse_replace_mode(Some("all")), Ok(ReplaceMode::All));
    assert_eq!(parse_replace_mode(Some("regex")), Ok(ReplaceMode::Regex));
    assert_eq!(
        parse_replace_mode(Some("bad")),
        Err("invalid mode: bad (expected: first, all, or regex)".to_string())
    );
}

#[test]
fn write_modes() {
    assert_eq!(parse_write_mode(None), Ok(WriteMode::Replace));
    assert_eq!(parse_write_mode(Some("replace")), Ok(WriteMode::Replace));
    assert_eq!(parse_write_mode(Some("append")), Ok(WriteMode::Append));
    assert_eq!(
        parse_write_mode(Some("x")),
        Err("invalid mode: x (expected: replace or append)".to_string())
    );
}

#[test]
fn frontmatter_then_content() {
    assert_eq!(with_frontmatter("---\ntitle: T\n---", "# Body"), "---\ntitle: T\n---\n# Body");
}

#[test]
fn blank_queries_say_nothing() {
    let blank = ParsedQuery { text: "  \t".to_string(), tags: vec![], folders: vec![] };
    assert!(matches!(effective_query(Some(blank)), SearchPlan::ListNotes));
    assert!(matches!(effective_query(None), SearchPlan::ListNotes));
    let text = ParsedQuery { text: "rust".to_string(), tags: vec![], folders: vec![] };
    assert!(matches!(effective_query(Some(text)), SearchPlan::Search(_)));
    let tagged = ParsedQuery { text: String::new(), tags: vec!["x".to_string()], folders: vec![] };
    assert!(matches!(effective_query(Some(tagged)), SearchPlan::Search(_)));
    let folder = ParsedQuery { text: String::new(), tags: vec![], folders: vec![VaultPath::new("a/").unwrap()] };
    assert!(matches!(effective_query(Some(folder)), SearchPlan::Search(_)));
}
