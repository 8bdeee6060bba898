//! Inline tags (`#tag`, `#project/alpha`): validation and extraction from Markdown.
use vstd::prelude::*;

use crate::extract::ExtractFrom;
use vstd::string::StrSliceExecFns;

use crate::errors::NoteHandlerError;
use crate::scan::{find_char, find_char_exec, find_seq, find_seq_exec, lemma_find_seq_bounds, match_at, match_at_exec};
use crate::text::{chars_of, owned, range_eq, string_from};

verus! {

/// The Unicode word characters: what the regular-expression class `\w` matches.
pub uninterp spec fn unicode_word(c: char) -> bool;

/// The ASCII word characters `[_0-9a-zA-Z]`.
pub open spec fn ascii_word(c: char) -> bool {
    ('a' <= c && c <= 'z') || ('A' <= c && c <= 'Z') || ('0' <= c && c <= '9') || c == '_'
}

/// `regex_syntax::is_word_character`: whether `c` is a Unicode word character
/// (Alphabetic, Join_Control, Decimal_Number, Mark or Connector_Punctuation).
/// Stated: the result is `unicode_word(c)`, and on ASCII it is `[_0-9a-zA-Z]`.
#[verifier::external_body]
pub(crate) fn is_word_character(c: char) -> (b: bool)
    ensures
        b == unicode_word(c),
        c <= '\u{7f}' ==> b == ascii_word(c),
{
    regex_syntax::is_word_character(c)
}

/// A character allowed in a tag name: a word character, `/`, `_` or `-`.
pub open spec fn tag_char(c: char) -> bool {
    unicode_word(c) || c == '/' || c == '_' || c == '-'
}

pub fn is_tag_char(c: char) -> (b: bool)
    ensures
        b == tag_char(c),
{
    c == '/' || c == '_' || c == '-' || is_word_character(c)
}

pub open spec fn is_ascii_digit(c: char) -> bool {
    '0' <= c && c <= '9'
}

/// A tag text: `#` then one or more tag characters, not all of them ASCII digits.
pub open spec fn valid_tag(s: Seq<char>) -> bool {
    &&& s.len() >= 2
    &&& s[0] == '#'
    &&& forall|i: int| 1 <= i < s.len() ==> tag_char(#[trigger] s[i])
    &&& !(forall|i: int| 1 <= i < s.len() ==> is_ascii_digit(#[trigger] s[i]))
}

/// Whether `v` is a tag text.
pub fn validate(v: &Vec<char>) -> (b: bool)
    ensures
        b == valid_tag(v@),
{
    let n = v.len();
    if n < 2 || v[0] != '#' {
        return false;
    }
    let mut i: usize = 1;
    let mut all_digits = true;
    while i < n
        invariant
            1 <= i <= n == v.len(),
            forall|j: int| 1 <= j < i ==> tag_char(#[trigger] v@[j]),
            all_digits == (forall|j: int| 1 <= j < i ==> is_ascii_digit(#[trigger] v@[j])),
        decreases n - i,
    {
        let c = v[i];
        if !is_tag_char(c) {
            return false;
        }
        if !('0' <= c && c <= '9') {
            all_digits = false;
        }
        i = i + 1;
    }
    !all_digits
}

/// An inline tag, always a valid tag text (`#` included).
#[derive(Debug, PartialEq, Eq, Hash)]
pub struct Tag(String);

impl View for Tag {
    type V = Seq<char>;

    closed spec fn view(&self) -> Seq<char> {
        self.0@
    }
}

impl Clone for Tag {
    fn clone(&self) -> (r: Self)
        ensures
            r@ == self@,
    {
        proof {
            use_type_invariant(self);
        }
        Tag(self.0.clone())
    }
}

impl Tag {
    #[verifier::type_invariant]
    closed spec fn inv(self) -> bool {
        valid_tag(self.0@)
    }

    /// A tag from its text (`#` included); `InvalidTag` unless it is a valid tag text.
    pub fn new(tag: &str) -> (r: Result<Tag, NoteHandlerError>)
        ensures
            valid_tag(tag@) <==> r is Ok,
            r matches Ok(t) ==> t@ == tag@,
            r matches Err(e) ==> (e matches NoteHandlerError::InvalidTag { tag: t } && t@ == tag@),
    {
        let v = chars_of(tag);
        if validate(&v) {
            let s = string_from(&v, 0, v.len());
            assert(v@.subrange(0, v@.len() as int) =~= v@);
            Ok(Tag(s))
        } else {
            let s = string_from(&v, 0, v.len());
            assert(v@.subrange(0, v@.len() as int) =~= v@);
            Err(NoteHandlerError::InvalidTag { tag: s })
        }
    }

    /// The tag text, `#` included.
    pub fn as_str(&self) -> (r: &str)
        ensures
            r@ == self@,
    {
        self.0.as_str()
    }

    /// The tag name, without `#`.
    pub fn name(&self) -> (r: &str)
        ensures
            r@ == self@.drop_first(),
    {
        proof {
            use_type_invariant(self);
        }
        let v = chars_of(self.0.as_str());
        assert(v@.subrange(1, v@.len() as int) =~= v@.drop_first());
        self.0.as_str().substring_char(1, v.len())
    }

    /// The tag text, `#` included, owned.
    pub fn to_string(&self) -> (r: String)
        ensures
            r@ == self@,
    {
        let v = chars_of(self.0.as_str());
        assert(v@.subrange(0, v@.len() as int) =~= v@);
        string_from(&v, 0, v.len())
    }
}

impl AsRef<str> for Tag {
    fn as_ref(&self) -> &str {
        self.0.as_str()
    }
}

impl std::str::FromStr for Tag {
    type Err = NoteHandlerError;

    fn from_str(s: &str) -> (r: Result<Self, Self::Err>)
        ensures
            valid_tag(s@) <==> r is Ok,
            r matches Ok(t) ==> t@ == s@,
    {
        Tag::new(s)
    }
}

impl From<Tag> for String {
    fn from(tag: Tag) -> (r: String) {
        tag.0
    }
}

impl vstd::std_specs::convert::FromSpecImpl<Tag> for String {
    open spec fn obeys_from_spec() -> bool {
        true
    }

    closed spec fn from_spec(tag: Tag) -> String {
        tag.0
    }
}

// ---------------------------------------------------------------------------
// Extraction
// ---------------------------------------------------------------------------

/// Where the code span (```` ```…``` ````, ``` ``…`` ```, `` `…` ``) that starts at `i` ends, or `-1`.
pub open spec fn code_span_end(s: Seq<char>, i: int) -> int {
    let t3 = seq!['`', '`', '`'];
    let t2 = seq!['`', '`'];
    if match_at(s, i, t3) && find_seq(s, i + 3, t3) >= 0 {
        find_seq(s, i + 3, t3) + 3
    } else if match_at(s, i, t2) && find_char(s, i + 2, '`') > i + 2 && match_at(
        s,
        find_char(s, i + 2, '`'),
        t2,
    ) {
        find_char(s, i + 2, '`') + 2
    } else if 0 <= i < s.len() && s[i] == '`' && find_char(s, i + 1, '`') > i + 1 && find_char(
        s,
        i + 1,
        '`',
    ) < s.len() {
        find_char(s, i + 1, '`') + 1
    } else {
        -1
    }
}

/// Where the wikilink (`[[…]]`) that starts at `i` ends, or `-1`.
pub open spec fn wikilink_span_end(s: Seq<char>, i: int) -> int {
    if match_at(s, i, seq!['[', '[']) && find_char(s, i + 2, ']') > i + 2 && match_at(
        s,
        find_char(s, i + 2, ']'),
        seq![']', ']'],
    ) {
        find_char(s, i + 2, ']') + 2
    } else {
        -1
    }
}

/// `s[i..]` with every code span removed, scanning left to right.
pub open spec fn strip_code_spans(s: Seq<char>, i: int) -> Seq<char>
    decreases s.len() - i,
{
    if i < 0 || i >= s.len() {
        Seq::empty()
    } else if i < code_span_end(s, i) <= s.len() {
        strip_code_spans(s, code_span_end(s, i))
    } else {
        seq![s[i]] + strip_code_spans(s, i + 1)
    }
}

/// `s[i..]` with every wikilink removed, scanning left to right.
pub open spec fn strip_wikilinks(s: Seq<char>, i: int) -> Seq<char>
    decreases s.len() - i,
{
    if i < 0 || i >= s.len() {
        Seq::empty()
    } else if i < wikilink_span_end(s, i) <= s.len() {
        strip_wikilinks(s, wikilink_span_end(s, i))
    } else {
        seq![s[i]] + strip_wikilinks(s, i + 1)
    }
}

/// The end of the run of tag characters that starts at `i`.
pub open spec fn tag_run_end(s: Seq<char>, i: int) -> int
    decreases s.len() - i,
{
    if i < 0 || i >= s.len() {
        i
    } else if tag_char(s[i]) {
        tag_run_end(s, i + 1)
    } else {
        i
    }
}

/// The tag candidates (`#` and a maximal run of tag characters) of `s[i..]`, left to right.
pub open spec fn tag_candidates(s: Seq<char>, i: int) -> Seq<Seq<char>>
    decreases s.len() - i,
{
    if i < 0 || i >= s.len() {
        Seq::empty()
    } else if s[i] == '#' && i + 1 < s.len() && tag_char(s[i + 1]) && i + 1 < tag_run_end(s, i + 1)
        <= s.len() {
        seq![s.subrange(i, tag_run_end(s, i + 1))] + tag_candidates(s, tag_run_end(s, i + 1))
    } else {
        tag_candidates(s, i + 1)
    }
}

/// The valid tag texts of `c`, each kept once, in order of first occurrence.
pub open spec fn valid_distinct(c: Seq<Seq<char>>) -> Seq<Seq<char>>
    decreases c.len(),
{
    if c.len() == 0 {
        c
    } else if valid_tag(c.last()) && !valid_distinct(c.drop_last()).contains(c.last()) {
        valid_distinct(c.drop_last()).push(c.last())
    } else {
        valid_distinct(c.drop_last())
    }
}

/// The tags of a text: code spans and wikilinks removed, then every `#name`.
pub open spec fn extracted_tags(text: Seq<char>) -> Seq<Seq<char>> {
    valid_distinct(tag_candidates(strip_wikilinks(strip_code_spans(text, 0), 0), 0))
}

proof fn lemma_tag_run_end_bounds(s: Seq<char>, i: int)
    requires
        0 <= i <= s.len(),
    ensures
        i <= tag_run_end(s, i) <= s.len(),
    decreases s.len() - i,
{
    if i < s.len() && tag_char(s[i]) {
        lemma_tag_run_end_bounds(s, i + 1);
    }
}

fn code_span_end_exec(v: &Vec<char>, i: usize) -> (r: Option<usize>)
    requires
        i < v.len(),
    ensures
        match r {
            Some(e) => code_span_end(v@, i as int) == e && i < e <= v.len(),
            None => !(i < code_span_end(v@, i as int) <= v.len()),
        },
{
    let t3 = chars_of("```");
    let t2 = chars_of("``");
    proof {
        reveal_strlit("```");
        reveal_strlit("``");
        assert(t3@ =~= seq!['`', '`', '`']);
        assert(t2@ =~= seq!['`', '`']);
    }
    if match_at_exec(v, i, &t3) {
        match find_seq_exec(v, i + 3, &t3) {
            Some(k) => {
                proof {
                    lemma_find_seq_bounds(v@, i + 3, t3@);
                }
                return Some(k + 3);
            },
            None => {},
        }
    }
    if match_at_exec(v, i, &t2) {
        let k = find_char_exec(v, i + 2, '`');
        if k > i + 2 && match_at_exec(v, k, &t2) {
            return Some(k + 2);
        }
    }
    if v[i] == '`' {
        let k = find_char_exec(v, i + 1, '`');
        if k > i + 1 && k < v.len() {
            return Some(k + 1);
        }
    }
    None
}

fn wikilink_span_end_exec(v: &Vec<char>, i: usize) -> (r: Option<usize>)
    requires
        i < v.len(),
    ensures
        match r {
            Some(e) => wikilink_span_end(v@, i as int) == e && i < e <= v.len(),
            None => !(i < wikilink_span_end(v@, i as int) <= v.len()),
        },
{
    let open = chars_of("[[");
    let close = chars_of("]]");
    proof {
        reveal_strlit("[[");
        reveal_strlit("]]");
        assert(open@ =~= seq!['[', '[']);
        assert(close@ =~= seq![']', ']']);
    }
    if match_at_exec(v, i, &open) {
        let k = find_char_exec(v, i + 2, ']');
        if k > i + 2 && match_at_exec(v, k, &close) {
            return Some(k + 2);
        }
    }
    None
}

/// `v` with every code span removed.
pub fn strip_code_spans_exec(v: &Vec<char>) -> (r: Vec<char>)
    ensures
        r@ == strip_code_spans(v@, 0),
{
    let mut out: Vec<char> = Vec::new();
    let mut i: usize = 0;
    while i < v.len()
        invariant
            i <= v.len(),
            strip_code_spans(v@, 0) == out@ + strip_code_spans(v@, i as int),
        decreases v.len() - i,
    {
        match code_span_end_exec(v, i) {
            Some(e) => {
                i = e;
            },
            None => {
                out.push(v[i]);
                assert(out@ + strip_code_spans(v@, i + 1) =~= out@.drop_last() + (seq![v@[i as int]]
                    + strip_code_spans(v@, i + 1)));
                i = i + 1;
            },
        }
    }
    assert(out@ + Seq::empty() =~= out@);
    out
}

/// `v` with every wikilink removed.
pub fn strip_wikilinks_exec(v: &Vec<char>) -> (r: Vec<char>)
    ensures
        r@ == strip_wikilinks(v@, 0),
{
    let mut out: Vec<char> = Vec::new();
    let mut i: usize = 0;
    while i < v.len()
        invariant
            i <= v.len(),
            strip_wikilinks(v@, 0) == out@ + strip_wikilinks(v@, i as int),
        decreases v.len() - i,
    {
        match wikilink_span_end_exec(v, i) {
            Some(e) => {
                i = e;
            },
            None => {
                out.push(v[i]);
                assert(out@ + strip_wikilinks(v@, i + 1) =~= out@.drop_last() + (seq![v@[i as int]]
                    + strip_wikilinks(v@, i + 1)));
                i = i + 1;
            },
        }
    }
    assert(out@ + Seq::empty() =~= out@);
    out
}

fn tag_run_end_exec(v: &Vec<char>, i: usize) -> (e: usize)
    requires
        i <= v.len(),
    ensures
        e == tag_run_end(v@, i as int),
        i <= e <= v.len(),
{
    let mut e = i;
    while e < v.len() && is_tag_char(v[e])
        invariant
            i <= e <= v.len(),
            tag_run_end(v@, i as int) == tag_run_end(v@, e as int),
        decreases v.len() - e,
    {
        e = e + 1;
    }
    e
}

/// Whether `tags` holds a tag whose text is `v[lo..hi]`.
fn holds_tag(tags: &Vec<Tag>, v: &Vec<char>, lo: usize, hi: usize) -> (b: bool)
    requires
        lo <= hi <= v.len(),
    ensures
        b == tags@.map_values(|t: Tag| t@).contains(v@.subrange(lo as int, hi as int)),
{
    let ghost views = tags@.map_values(|t: Tag| t@);
    let mut k: usize = 0;
    while k < tags.len()
        invariant
            k <= tags.len(),
            lo <= hi <= v.len(),
            views == tags@.map_values(|t: Tag| t@),
            forall|j: int| 0 <= j < k ==> views[j] != v@.subrange(lo as int, hi as int),
        decreases tags.len() - k,
    {
        let t = chars_of(tags[k].as_str());
        assert(t@.subrange(0, t@.len() as int) =~= t@);
        if range_eq(&t, 0, t.len(), v, lo, hi) {
            assert(views[k as int] == v@.subrange(lo as int, hi as int));
            return true;
        }
        k = k + 1;
    }
    false
}

/// The distinct valid tags of `text` (code spans and wikilinks ignored), in order
/// of first occurrence.
pub fn extract_tags(text: &str) -> (r: Vec<Tag>)
    ensures
        r@.map_values(|t: Tag| t@) == extracted_tags(text@),
{
    let raw = chars_of(text);
    let no_code = strip_code_spans_exec(&raw);
    let v = strip_wikilinks_exec(&no_code);
    let ghost s = v@;
    let mut out: Vec<Tag> = Vec::new();
    let ghost mut cands: Seq<Seq<char>> = Seq::empty();
    let mut i: usize = 0;
    while i < v.len()
        invariant
            i <= v.len(),
            s == v@,
            tag_candidates(s, 0) == cands + tag_candidates(s, i as int),
            out@.map_values(|t: Tag| t@) == valid_distinct(cands),
        decreases v.len() - i,
    {
        if v[i] == '#' && i + 1 < v.len() && is_tag_char(v[i + 1]) {
            let e = tag_run_end_exec(&v, i + 1);
            let ghost c = s.subrange(i as int, e as int);
            proof {
                assert(tag_run_end(s, i + 1) == tag_run_end(s, i + 2));
                lemma_tag_run_end_bounds(s, i + 2);
                assert(cands.push(c).drop_last() =~= cands);
                assert(tag_candidates(s, i as int) == seq![c] + tag_candidates(s, e as int));
                assert(cands + tag_candidates(s, i as int) =~= cands.push(c) + tag_candidates(s, e as int));
            }
            let valid = validate(&crate::text::sub_vec(&v, i, e));
            if valid && !holds_tag(&out, &v, i, e) {
                let t = string_from(&v, i, e);
                let tag = Tag(t);
                out.push(tag);
                proof {
                    assert(out@.map_values(|t: Tag| t@) =~= valid_distinct(cands).push(c));
                }
            }
            proof {
                cands = cands.push(c);
            }
            i = e;
        } else {
            proof {
                assert(tag_candidates(s, i as int) == tag_candidates(s, i + 1));
            }
            i = i + 1;
        }
    }
    proof {
        assert(cands + Seq::empty() =~= cands);
    }
    out
}

impl ExtractFrom for Tag {
    type Output = Vec<Tag>;

    /// The distinct valid tags of `text` (code spans and wikilinks ignored), in
    /// order of first occurrence.
    fn extract_from(text: &str) -> (r: Vec<Tag>)
        ensures
            r@.map_values(|t: Tag| t@) == extracted_tags(text@),
    {
        extract_tags(text)
    }
}

} // verus!
