use tarn::tokenizer::{NaiveTokenizer, Tokenizer};

#[test]
fn naive_tokenizer_splits_on_whitespace() {
    let tokenizer = NaiveTokenizer::new();
    let tokens = tokenizer.tokenize("hello world");
    assert_eq!(tokens, vec!["hello", "world"]);
}

#[test]
fn naive_tokenizer_lowercases() {
    let tokenizer = NaiveTokenizer::new();
    let tokens = tokenizer.tokenize("Hello WORLD");
    assert_eq!(tokens, vec!["hello", "world"]);
}

#[test]
fn naive_tokenizer_handles_multiple_whitespace() {
    let tokenizer = NaiveTokenizer::new();
    let tokens = tokenizer.tokenize("hello   world\t\nfoo");
    assert_eq!(tokens, vec!["hello", "world", "foo"]);
}

#[test]
fn naive_tokenizer_empty_input() {
    let tokenizer = NaiveTokenizer::new();
    let tokens = tokenizer.tokenize("");
    assert!(tokens.is_empty());
}

#[test]
fn naive_tokenizer_whitespace_only() {
    let tokenizer = NaiveTokenizer::new();
    let tokens = tokenizer.tokenize("   \t\n  ");
    assert!(tokens.is_empty());
}

#[test]
fn naive_tokenizer_removes_punctuation() {
    let tokenizer = NaiveTokenizer::new();
    let tokens = tokenizer.tokenize("Hello, world! How's it going?");
    assert_eq!(tokens, vec!["hello", "world", "hows", "it", "going"]);
}

#[test]
fn naive_tokenizer_punctuation_only_tokens() {
    let tokenizer = NaiveTokenizer::new();
    let tokens = tokenizer.tokenize("hello ... world");
    assert_eq!(tokens, vec!["hello", "world"]);
}
