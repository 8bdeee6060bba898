use tarn::replace::{link_rewrite, replace_first_text, replace_text};

#[test]
fn replace_every_occurrence() {
    assert_eq!(replace_text("aaa", "aa", "b"), "ba");
    assert_eq!(replace_text("abc", "", "-"), "-a-b-c-");
    assert_eq!(replace_text("", "", "x"), "x");
    assert_eq!(replace_text("abc", "z", "y"), "abc");
    assert_eq!(replace_text("héllo héllo", "é", "e"), "hello hello");
}

#[test]
fn replace_first_only() {
    assert_eq!(replace_first_text("a-a-a", "a", "b"), "b-a-a");
    assert_eq!(replace_first_text("abc", "", "x"), "xabc");
    assert_eq!(replace_first_text("abc", "z", "x"), "abc");
}

#[test]
fn link_rewrite_texts() {
    let (p, r) = link_rewrite("my.note", "new");
    assert_eq!(p, r"\[\[(?:[^\]#|]*/)?my\.note(\]\]|[#|])");
    assert_eq!(r, "[[new$1");
}
