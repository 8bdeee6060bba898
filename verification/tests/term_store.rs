use tarn::extract::ExtractFrom;
use tarn::sections::Section;
use tarn::term_store::{term_frequencies, TermStore};
use tarn::tokenizer::{NaiveTokenizer, Tokenizer};
use tarn::vault_path::VaultPath;

fn toks(s: &str) -> Vec<String> {
    s.split_whitespace().map(String::from).collect()
}

fn vp(s: &str) -> VaultPath {
    VaultPath::new(s).unwrap()
}

#[test]
fn frequencies_count_each_term() {
    let f = term_frequencies(&toks("a b a c a"));
    assert_eq!(f, vec![("a".to_string(), 3), ("b".to_string(), 1), ("c".to_string(), 1)]);
    assert!(term_frequencies(&vec![]).is_empty());
}

#[test]
fn add_document_returns_token_count() {
    let mut store = TermStore::new();
    assert_eq!(store.add_document(vp("a.md#A"), &toks("rust is fast rust")), 4);
    assert_eq!(store.doc_count(), 1);
    assert_eq!(store.total_doc_length(), 4);
    let d = store.document(&vp("a.md#A")).unwrap();
    assert_eq!(d.doc_length, 4);
}

#[test]
fn update_document_replaces_content() {
    let mut store = TermStore::new();
    store.add_document(vp("a.md#A"), &toks("one two"));
    store.add_document(vp("a.md#A"), &toks("three"));
    assert_eq!(store.doc_count(), 1);
    assert_eq!(store.total_doc_length(), 1);
    assert!(store.postings(&"one".to_string()).is_empty());
    assert_eq!(store.postings(&"three".to_string()).len(), 1);
}

#[test]
fn remove_document_drops_stats() {
    let mut store = TermStore::new();
    store.add_document(vp("a.md#A"), &toks("x y"));
    store.add_document(vp("b.md#B"), &toks("x"));
    store.remove_document(&vp("a.md#A"));
    assert_eq!(store.doc_count(), 1);
    assert_eq!(store.total_doc_length(), 1);
    let p = store.postings(&"x".to_string());
    assert_eq!(p.len(), 1);
    assert_eq!(p[0].0.as_str(), "b.md#B");
    store.remove_document(&vp("missing.md#M"));
    assert_eq!(store.doc_count(), 1);
}

#[test]
fn postings_give_frequencies() {
    let mut store = TermStore::new();
    store.add_document(vp("a.md#A"), &toks("x x y"));
    store.add_document(vp("b.md#B"), &toks("x"));
    let mut p: Vec<(String, u32)> = store
        .postings(&"x".to_string())
        .into_iter()
        .map(|(path, f)| (path.as_str().to_string(), f))
        .collect();
    p.sort();
    assert_eq!(p, vec![("a.md#A".to_string(), 2), ("b.md#B".to_string(), 1)]);
}

#[test]
fn clear_removes_all() {
    let mut store = TermStore::new();
    store.add_document(vp("a.md#A"), &toks("x"));
    store.clear();
    assert_eq!(store.doc_count(), 0);
    assert_eq!(store.total_doc_length(), 0);
}

#[test]
fn add_sections_indexes_each_section_under_its_path() {
    let body = "# Alpha\nOne two two\n## Beta\nThree!\n";
    let sections = Section::extract_from(body);
    assert_eq!(sections.len(), 2);
    let tokenizer = NaiveTokenizer::new();
    let expected: Vec<usize> = sections.iter().map(|s| tokenizer.tokenize(&s.content).len()).collect();
    let mut store = TermStore::new();
    let counts = store.add_sections(&vp("notes/a.md"), &sections);
    assert_eq!(counts, expected);
    assert!(counts[0] >= 3 && counts[1] >= 1);
    assert_eq!(store.doc_count(), 2);
    assert_eq!(store.total_doc_length(), (counts[0] + counts[1]) as u64);
    let alpha = store.document(&vp("notes/a.md#Alpha")).unwrap();
    assert_eq!(alpha.doc_length as usize, counts[0]);
    let beta = store.document(&vp("notes/a.md#Alpha/Beta")).unwrap();
    assert_eq!(beta.doc_length as usize, counts[1]);
    assert_eq!(store.postings(&"three".to_string()).len(), 1);
    // adding the same sections again replaces them
    store.add_sections(&vp("notes/a.md"), &sections);
    assert_eq!(store.doc_count(), 2);
    assert_eq!(store.total_doc_length(), (counts[0] + counts[1]) as u64);
}
