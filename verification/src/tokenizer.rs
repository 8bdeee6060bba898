//! Tokenizing text for full-text search.
use vstd::prelude::*;

use crate::text::{chars_of, string_from};
use crate::words::{word_spans, words_of};

verus! {

/// The Unicode alphanumeric characters (`Alphabetic` or `Numeric`).
pub uninterp spec fn unicode_alphanumeric(c: char) -> bool;

/// `char::is_alphanumeric`: whether `c` is alphabetic or numeric in Unicode.
/// Stated: the result is `unicode_alphanumeric(c)`, and on ASCII it is `[0-9A-Za-z]`.
pub assume_specification[ char::is_alphanumeric ](c: char) -> (b: bool)
    ensures
        b == unicode_alphanumeric(c),
        c <= '\u{7f}' ==> b == (('a' <= c && c <= 'z') || ('A' <= c && c <= 'Z') || ('0' <= c
            && c <= '9')),
;

/// The Unicode lowercase mapping of a text.
pub uninterp spec fn lowercase_text(s: Seq<char>) -> Seq<char>;

/// A character with `A`–`Z` mapped to `a`–`z`.
pub open spec fn ascii_lower_char(c: char) -> char {
    if 'A' <= c && c <= 'Z' {
        ((c as u32) + 32) as char
    } else {
        c
    }
}

/// Whether every character of `s` is ASCII.
pub open spec fn is_ascii_text(s: Seq<char>) -> bool {
    forall|i: int| 0 <= i < s.len() ==> s[i] <= '\u{7f}'
}

/// `s` with `A`–`Z` mapped to `a`–`z`.
pub open spec fn ascii_lower(s: Seq<char>) -> Seq<char> {
    s.map_values(|c: char| ascii_lower_char(c))
}

/// `str::to_lowercase`: the lowercase equivalent of a text, by the Unicode
/// `Lowercase` mapping. Stated: the result is `lowercase_text` of the text, and
/// on an ASCII text it maps `A`–`Z` to `a`–`z` and keeps the rest.
pub assume_specification[ str::to_lowercase ](s: &str) -> (r: String)
    ensures
        r@ == lowercase_text(s@),
        is_ascii_text(s@) ==> r@ == ascii_lower(s@),
;

/// The alphanumeric characters of `w`, in order.
pub open spec fn alphanumeric_only(w: Seq<char>) -> Seq<char>
    decreases w.len(),
{
    if w.len() == 0 {
        w
    } else if unicode_alphanumeric(w.last()) {
        alphanumeric_only(w.drop_last()).push(w.last())
    } else {
        alphanumeric_only(w.drop_last())
    }
}

/// The tokens of the words `ws`: each word's alphanumeric characters, lowercased;
/// empty tokens dropped.
pub open spec fn tokens_of(ws: Seq<Seq<char>>) -> Seq<Seq<char>>
    decreases ws.len(),
{
    if ws.len() == 0 {
        Seq::empty()
    } else {
        let t = lowercase_text(alphanumeric_only(ws.last()));
        if t.len() > 0 {
            tokens_of(ws.drop_last()).push(t)
        } else {
            tokens_of(ws.drop_last())
        }
    }
}

/// Turns text into search tokens.
pub trait Tokenizer {
    fn tokenize(&self, text: &str) -> Vec<String>;
}

/// Splits on whitespace, keeps alphanumeric characters, lowercases.
#[derive(Debug, Clone, Copy, Default)]
pub struct NaiveTokenizer;

impl NaiveTokenizer {
    pub fn new() -> (r: Self)
        ensures
            r == NaiveTokenizer,
    {
        NaiveTokenizer
    }
}

/// The token of the word `v[lo..hi]`, before dropping empty ones.
fn token_of(v: &Vec<char>, lo: usize, hi: usize) -> (r: String)
    requires
        lo <= hi <= v.len(),
    ensures
        r@ == lowercase_text(alphanumeric_only(v@.subrange(lo as int, hi as int))),
{
    let mut keep: Vec<char> = Vec::new();
    let mut j = lo;
    while j < hi
        invariant
            lo <= j <= hi <= v.len(),
            keep@ == alphanumeric_only(v@.subrange(lo as int, j as int)),
        decreases hi - j,
    {
        let c = v[j];
        assert(v@.subrange(lo as int, j + 1).drop_last() =~= v@.subrange(lo as int, j as int));
        if c.is_alphanumeric() {
            keep.push(c);
        }
        j = j + 1;
    }
    let s = string_from(&keep, 0, keep.len());
    assert(keep@.subrange(0, keep@.len() as int) =~= keep@);
    s.as_str().to_lowercase()
}

impl Tokenizer for NaiveTokenizer {
    fn tokenize(&self, text: &str) -> (r: Vec<String>)
        ensures
            r@.map_values(|t: String| t@) == tokens_of(words_of(text@)),
    {
        let v = chars_of(text);
        let spans = word_spans(&v);
        let ghost ws = words_of(v@);
        let mut out: Vec<String> = Vec::new();
        let mut k: usize = 0;
        while k < spans.len()
            invariant
                k <= spans@.len() == ws.len(),
                ws == words_of(v@),
                forall|q: int|
                    0 <= q < spans@.len() ==> (#[trigger] spans@[q]).0 <= spans@[q].1 <= v.len()
                        && v@.subrange(spans@[q].0 as int, spans@[q].1 as int) == ws[q],
                out@.map_values(|t: String| t@) == tokens_of(ws.take(k as int)),
            decreases spans.len() - k,
        {
            let (lo, hi) = spans[k];
            let t = token_of(&v, lo, hi);
            assert(ws.take(k + 1).drop_last() =~= ws.take(k as int));
            if !t.as_str().is_empty() {
                let ghost before = out@.map_values(|t: String| t@);
                out.push(t);
                assert(out@.map_values(|t: String| t@) =~= before.push(t@));
            }
            k = k + 1;
        }
        assert(ws.take(k as int) =~= ws);
        out
    }
}

} // verus!
