use tarn::grams::{gram_overlap, word_grams};

fn v(xs: &[&str]) -> Vec<String> {
    xs.iter().map(|s| s.to_string()).collect()
}

#[test]
fn word_grams_are_padded_lowercase_and_distinct() {
    assert_eq!(word_grams(&v(&["Rust"]), 3), v(&[" ru", "rus", "ust", "st "]));
    assert_eq!(word_grams(&v(&["aa", "aa"]), 3), v(&[" aa", "aa "]));
    assert!(word_grams(&v(&["x"]), 0).is_empty());
    assert!(word_grams(&v(&["x"]), 4).is_empty());
    assert!(word_grams(&v(&[]), 3).is_empty());
}

#[test]
fn gram_overlap_counts_shared_and_union() {
    let a = v(&[" ru", "rus", "ust", "st "]);
    let b = v(&[" ru", "rub", "uby", "by "]);
    assert_eq!(gram_overlap(&a, &b), (1, 7));
    assert_eq!(gram_overlap(&a, &a), (4, 4));
}
