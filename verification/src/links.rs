//! Links in note text: Obsidian wikilinks, markdown links and autolinks.
//!
//! Each syntax is read by a scanner that follows its grammar position by
//! position; scanning a text finds the matches from left to right, each search
//! starting where the previous match ended.
use vstd::prelude::*;

use crate::scan::{
    find_char, find_char_exec, lemma_find_char_bounds, lemma_span_end_bounds, lemma_span_end_is,
    lemma_find_char_is, lemma_ws_end_bounds, match_at, match_at_exec, span_end, span_end_exec, stops_at,
    ws_end, ws_end_exec,
};
use crate::extract::ExtractFrom;
use crate::text::{chars_of, first_index_of, is_ws, string_from};

verus! {

// ---------------------------------------------------------------------------
// Types
// ---------------------------------------------------------------------------

/// A text that holds no link of any recognised syntax.
#[derive(Debug, Clone, Copy, PartialEq, Eq, Structural)]
pub struct ParseLinkError;

impl ParseLinkError {
    /// The error's message.
    pub open spec fn message(&self) -> Seq<char> {
        "not a recognized link syntax"@
    }

    /// The error's message.
    pub fn to_string(&self) -> (r: String)
        ensures
            r@ == self.message(),
    {
        crate::text::owned("not a recognized link syntax")
    }
}

/// An Obsidian wikilink: `[[target#heading#^block|alias]]`, embedded with `!`.
#[derive(Debug, Clone, PartialEq, Eq, Hash)]
pub struct WikiLink {
    pub target: String,
    pub alias: Option<String>,
    pub heading: Option<String>,
    pub block_ref: Option<String>,
    pub is_embed: bool,
}

/// A markdown link: `[text](url "title")`, embedded with `!`.
#[derive(Debug, Clone, PartialEq, Eq, Hash)]
pub struct MarkdownLink {
    pub text: String,
    pub url: String,
    pub title: Option<String>,
    pub is_embed: bool,
}

/// A URL autolink: `<https://example.com>`.
#[derive(Debug, Clone, PartialEq, Eq, Hash)]
pub struct UrlLink {
    pub url: String,
}

/// An email autolink: `<user@example.com>`.
#[derive(Debug, Clone, PartialEq, Eq, Hash)]
pub struct EmailLink {
    pub address: String,
}

/// A link of any of the four syntaxes.
#[derive(Debug, PartialEq, Eq, Hash)]
pub enum Link {
    /// `[[target]]`, `[[target|alias]]`, `[[target#heading]]`, `[[target#^block]]`,
    /// `[[target#heading#^block]]`; embeds use `![[target]]`.
    Wiki(WikiLink),
    /// `[text](url)`, `[text](url "title")`; embeds use `![alt](url)`.
    Markdown(MarkdownLink),
    /// `<https://example.com>`.
    Url(UrlLink),
    /// `<user@example.com>`.
    Email(EmailLink),
}

/// The fields of a wikilink as character sequences.
pub struct WikiView {
    pub target: Seq<char>,
    pub alias: Option<Seq<char>>,
    pub heading: Option<Seq<char>>,
    pub block_ref: Option<Seq<char>>,
    pub is_embed: bool,
}

/// The fields of a markdown link as character sequences.
pub struct MarkdownView {
    pub text: Seq<char>,
    pub url: Seq<char>,
    pub title: Option<Seq<char>>,
    pub is_embed: bool,
}

/// A link as character sequences.
pub enum LinkView {
    Wiki(WikiView),
    Markdown(MarkdownView),
    Url(Seq<char>),
    Email(Seq<char>),
}

pub open spec fn opt_view(o: Option<String>) -> Option<Seq<char>> {
    match o {
        Some(s) => Some(s@),
        None => None,
    }
}

impl View for WikiLink {
    type V = WikiView;

    open spec fn view(&self) -> WikiView {
        WikiView {
            target: self.target@,
            alias: opt_view(self.alias),
            heading: opt_view(self.heading),
            block_ref: opt_view(self.block_ref),
            is_embed: self.is_embed,
        }
    }
}

impl View for MarkdownLink {
    type V = MarkdownView;

    open spec fn view(&self) -> MarkdownView {
        MarkdownView { text: self.text@, url: self.url@, title: opt_view(self.title), is_embed: self.is_embed }
    }
}

impl View for Link {
    type V = LinkView;

    open spec fn view(&self) -> LinkView {
        match self {
            Link::Wiki(w) => LinkView::Wiki(w@),
            Link::Markdown(m) => LinkView::Markdown(m@),
            Link::Url(u) => LinkView::Url(u.url@),
            Link::Email(e) => LinkView::Email(e.address@),
        }
    }
}

/// `None` for an empty capture, as the wikilink fields are read.
pub open spec fn non_empty_spec(s: Seq<char>) -> Option<Seq<char>> {
    if s.len() == 0 {
        None
    } else {
        Some(s)
    }
}

fn non_empty(v: &Vec<char>, lo: usize, hi: usize) -> (r: Option<String>)
    requires
        lo <= hi <= v.len(),
    ensures
        opt_view(r) == non_empty_spec(v@.subrange(lo as int, hi as int)),
{
    if lo == hi {
        None
    } else {
        Some(string_from(v, lo, hi))
    }
}

/// A captured part, `None` when it is empty.
pub open spec fn ne_map(o: Option<Seq<char>>) -> Option<Seq<char>> {
    match o {
        Some(x) => non_empty_spec(x),
        None => None,
    }
}

// ---------------------------------------------------------------------------
// Wikilinks
// ---------------------------------------------------------------------------

/// Characters that end a wikilink target or heading.
pub open spec fn target_stops() -> Seq<char> {
    seq!['#', '|', '^', ']', '\n']
}

/// Characters that end a wikilink block reference.
pub open spec fn block_stops() -> Seq<char> {
    seq!['|', ']', '\n']
}

/// Characters that end a wikilink alias.
pub open spec fn alias_stops() -> Seq<char> {
    seq![']', '\n']
}

/// Where the heading part after a target ending at `t` ends, and the heading.
pub open spec fn wiki_heading(s: Seq<char>, t: int) -> (Option<Seq<char>>, int) {
    if 0 <= t < s.len() && s[t] == '#' {
        let h = span_end(s, t + 1, target_stops(), false);
        (Some(s.subrange(t + 1, h)), h)
    } else {
        (None, t)
    }
}

/// Where the block part starting at `k` ends, and the block reference.
pub open spec fn wiki_block(s: Seq<char>, k: int) -> (Option<Seq<char>>, int) {
    if 0 <= k < s.len() && s[k] == '^' {
        let b = span_end(s, k + 1, block_stops(), false);
        (Some(s.subrange(k + 1, b)), b)
    } else if 0 <= k && k + 1 < s.len() && s[k] == '#' && s[k + 1] == '^' {
        let b = span_end(s, k + 2, block_stops(), false);
        (Some(s.subrange(k + 2, b)), b)
    } else {
        (None, k)
    }
}

/// Where the alias part starting at `m` ends, and the alias.
pub open spec fn wiki_alias(s: Seq<char>, m: int) -> (Option<Seq<char>>, int) {
    if 0 <= m < s.len() && s[m] == '|' {
        let a = span_end(s, m + 1, alias_stops(), false);
        (Some(s.subrange(m + 1, a)), a)
    } else {
        (None, m)
    }
}

/// The wikilink whose text after `[[` starts at `j`, and where it ends: the
/// target, then optionally `#heading`, `^block` (or `#^block`) and `|alias`,
/// then `]]`. Empty parts count as absent.
#[verifier::opaque]
pub open spec fn wiki_tail(s: Seq<char>, j: int, embed: bool) -> Option<(WikiView, int)> {
    let t = span_end(s, j, target_stops(), false);
    let (heading, k) = wiki_heading(s, t);
    let (block, m) = wiki_block(s, k);
    let (alias, e) = wiki_alias(s, m);
    if 0 <= e && e + 1 < s.len() && s[e] == ']' && s[e + 1] == ']' {
        Some(
            (
                WikiView {
                    target: s.subrange(j, t),
                    alias: ne_map(alias),
                    heading: ne_map(heading),
                    block_ref: ne_map(block),
                    is_embed: embed,
                },
                e + 2,
            ),
        )
    } else {
        None
    }
}

/// The wikilink that starts at `i`, with or without `!`, and where it ends.
pub open spec fn wiki_at(s: Seq<char>, i: int) -> Option<(WikiView, int)> {
    if match_at(s, i, seq!['!', '[', '[']) && wiki_tail(s, i + 3, true) is Some {
        wiki_tail(s, i + 3, true)
    } else if match_at(s, i, seq!['[', '[']) {
        wiki_tail(s, i + 2, false)
    } else {
        None
    }
}

/// The wikilinks of `s[i..]`, leftmost first, each search resuming after the last match.
pub open spec fn wikis_from(s: Seq<char>, i: int) -> Seq<WikiView>
    decreases s.len() - i,
{
    if i < 0 || i >= s.len() {
        Seq::empty()
    } else {
        match wiki_at(s, i) {
            Some((w, e)) => if i < e <= s.len() {
                seq![w] + wikis_from(s, e)
            } else {
                Seq::empty()
            },
            None => wikis_from(s, i + 1),
        }
    }
}

proof fn lemma_wiki_tail_end(s: Seq<char>, j: int, embed: bool)
    requires
        0 <= j <= s.len(),
    ensures
        wiki_tail(s, j, embed) matches Some((w, e)) ==> j < e <= s.len(),
{
    reveal(wiki_tail);
    let t = span_end(s, j, target_stops(), false);
    lemma_span_end_bounds(s, j, target_stops(), false);
    let (heading, k) = wiki_heading(s, t);
    if t < s.len() && s[t] == '#' {
        lemma_span_end_bounds(s, t + 1, target_stops(), false);
    }
    let (block, m) = wiki_block(s, k);
    if k < s.len() && s[k] == '^' {
        lemma_span_end_bounds(s, k + 1, block_stops(), false);
    } else if k + 1 < s.len() && s[k] == '#' && s[k + 1] == '^' {
        lemma_span_end_bounds(s, k + 2, block_stops(), false);
    }
    let (alias, e) = wiki_alias(s, m);
    if m < s.len() && s[m] == '|' {
        lemma_span_end_bounds(s, m + 1, alias_stops(), false);
    }
}

/// The wikilink whose text after `[[` starts at `j` (see `wiki_tail`).
fn wiki_tail_exec(v: &Vec<char>, j: usize, embed: bool) -> (r: Option<(WikiLink, usize)>)
    requires
        j <= v.len(),
    ensures
        match r {
            Some((w, e)) => wiki_tail(v@, j as int, embed) == Some((w@, e as int)),
            None => wiki_tail(v@, j as int, embed) is None,
        },
{
    reveal(wiki_tail);
    let n = v.len();
    let target_set = vec!['#', '|', '^', ']', '\n'];
    let block_set = vec!['|', ']', '\n'];
    let alias_set = vec![']', '\n'];
    assert(target_set@ == target_stops());
    assert(block_set@ == block_stops());
    assert(alias_set@ == alias_stops());
    let t = span_end_exec(v, j, &target_set, false);
    let mut heading: Option<String> = None;
    let mut k = t;
    if t < n && v[t] == '#' {
        let h = span_end_exec(v, t + 1, &target_set, false);
        heading = non_empty(v, t + 1, h);
        k = h;
    }
    let mut block: Option<String> = None;
    let mut m = k;
    if k < n && v[k] == '^' {
        let b = span_end_exec(v, k + 1, &block_set, false);
        block = non_empty(v, k + 1, b);
        m = b;
    } else if n - k >= 2 && v[k] == '#' && v[k + 1] == '^' {
        let b = span_end_exec(v, k + 2, &block_set, false);
        block = non_empty(v, k + 2, b);
        m = b;
    }
    let mut alias: Option<String> = None;
    let mut e = m;
    if m < n && v[m] == '|' {
        let a = span_end_exec(v, m + 1, &alias_set, false);
        alias = non_empty(v, m + 1, a);
        e = a;
    }
    if n - e >= 2 && v[e] == ']' && v[e + 1] == ']' {
        let w = WikiLink { target: string_from(v, j, t), alias, heading, block_ref: block, is_embed: embed };
        Some((w, e + 2))
    } else {
        None
    }
}

/// The wikilink that starts at `i` (see `wiki_at`).
fn wiki_at_exec(v: &Vec<char>, i: usize) -> (r: Option<(WikiLink, usize)>)
    requires
        i <= v.len(),
    ensures
        match r {
            Some((w, e)) => wiki_at(v@, i as int) == Some((w@, e as int)) && i < e <= v.len(),
            None => wiki_at(v@, i as int) is None,
        },
{
    let n = v.len();
    if n - i >= 3 && v[i] == '!' && v[i + 1] == '[' && v[i + 2] == '[' {
        assert(match_at(v@, i as int, seq!['!', '[', '[']) ) by {
            assert(v@.subrange(i as int, i + 3) =~= seq!['!', '[', '[']);
        }
        let r = wiki_tail_exec(v, i + 3, true);
        if r.is_some() {
            proof {
                lemma_wiki_tail_end(v@, i + 3, true);
            }
            return r;
        }
    } else {
        assert(!match_at(v@, i as int, seq!['!', '[', '[']) ) by {
            if match_at(v@, i as int, seq!['!', '[', '[']) {
                assert(v@.subrange(i as int, i + 3)[0] == '!');
                assert(v@.subrange(i as int, i + 3)[1] == '[');
                assert(v@.subrange(i as int, i + 3)[2] == '[');
            }
        }
    }
    if n - i >= 2 && v[i] == '[' && v[i + 1] == '[' {
        assert(match_at(v@, i as int, seq!['[', '['])) by {
            assert(v@.subrange(i as int, i + 2) =~= seq!['[', '[']);
        }
        proof {
            lemma_wiki_tail_end(v@, i + 2, false);
        }
        wiki_tail_exec(v, i + 2, false)
    } else {
        assert(!match_at(v@, i as int, seq!['[', '['])) by {
            if match_at(v@, i as int, seq!['[', '[']) {
                assert(v@.subrange(i as int, i + 2)[0] == '[');
                assert(v@.subrange(i as int, i + 2)[1] == '[');
            }
        }
        None
    }
}

/// The first wikilink of `v[from..]` and where it ends; the rest of the scan
/// resumes there.
fn next_wiki(v: &Vec<char>, from: usize) -> (r: Option<(WikiLink, usize)>)
    requires
        from <= v.len(),
    ensures
        match r {
            Some((w, e)) => from < e <= v.len() && wikis_from(v@, from as int) == seq![w@]
                + wikis_from(v@, e as int),
            None => wikis_from(v@, from as int) == Seq::<WikiView>::empty(),
        },
{
    let mut i = from;
    while i < v.len()
        invariant
            from <= i <= v.len(),
            wikis_from(v@, from as int) == wikis_from(v@, i as int),
        decreases v.len() - i,
    {
        match wiki_at_exec(v, i) {
            Some((w, e)) => {
                return Some((w, e));
            },
            None => {},
        }
        i = i + 1;
    }
    None
}

// ---------------------------------------------------------------------------
// Markdown links
// ---------------------------------------------------------------------------

/// The markdown link whose text after `[` starts at `j`, and where it ends:
/// text up to the first `]`, then `(`, a URL of characters other than `)` and
/// whitespace, optionally whitespace and a `"title"`, then `)`.
#[verifier::opaque]
pub open spec fn md_tail(s: Seq<char>, j: int, embed: bool) -> Option<(MarkdownView, int)> {
    let t = find_char(s, j, ']');
    let u0 = t + 2;
    if !(0 <= j && t + 1 < s.len() && s[t + 1] == '(') {
        None
    } else {
        let u = span_end(s, u0, seq![')'], true);
        if !(u0 < u < s.len()) {
            None
        } else if s[u] == ')' {
            Some((MarkdownView { text: s.subrange(j, t), url: s.subrange(u0, u), title: None, is_embed: embed }, u + 1))
        } else {
            let w = ws_end(s, u);
            let q = find_char(s, w + 1, '"');
            if w < s.len() && s[w] == '"' && q + 1 < s.len() && s[q + 1] == ')' {
                Some(
                    (
                        MarkdownView {
                            text: s.subrange(j, t),
                            url: s.subrange(u0, u),
                            title: Some(s.subrange(w + 1, q)),
                            is_embed: embed,
                        },
                        q + 2,
                    ),
                )
            } else {
                None
            }
        }
    }
}

/// The markdown link that starts at `i`, with or without `!`, and where it ends.
pub open spec fn md_at(s: Seq<char>, i: int) -> Option<(MarkdownView, int)> {
    if match_at(s, i, seq!['!', '[']) && md_tail(s, i + 2, true) is Some {
        md_tail(s, i + 2, true)
    } else if match_at(s, i, seq!['[']) {
        md_tail(s, i + 1, false)
    } else {
        None
    }
}

/// The markdown links of `s[i..]`, leftmost first, each search resuming after the last match.
pub open spec fn mds_from(s: Seq<char>, i: int) -> Seq<MarkdownView>
    decreases s.len() - i,
{
    if i < 0 || i >= s.len() {
        Seq::empty()
    } else {
        match md_at(s, i) {
            Some((m, e)) => if i < e <= s.len() {
                seq![m] + mds_from(s, e)
            } else {
                Seq::empty()
            },
            None => mds_from(s, i + 1),
        }
    }
}

proof fn lemma_md_tail_end(s: Seq<char>, j: int, embed: bool)
    requires
        0 <= j <= s.len(),
    ensures
        md_tail(s, j, embed) matches Some((m, e)) ==> j < e <= s.len(),
{
    reveal(md_tail);
    lemma_find_char_bounds(s, j, ']');
    let t = find_char(s, j, ']');
    if t + 1 < s.len() && s[t + 1] == '(' {
        lemma_span_end_bounds(s, t + 2, seq![')'], true);
        let u = span_end(s, t + 2, seq![')'], true);
        if t + 2 < u < s.len() && s[u] != ')' {
            lemma_ws_end_bounds(s, u);
            let w = ws_end(s, u);
            if w < s.len() {
                lemma_find_char_bounds(s, w + 1, '"');
            }
        }
    }
}

/// The markdown link whose text after `[` starts at `j` (see `md_tail`).
fn md_tail_exec(v: &Vec<char>, j: usize, embed: bool) -> (r: Option<(MarkdownLink, usize)>)
    requires
        j <= v.len(),
    ensures
        match r {
            Some((m, e)) => md_tail(v@, j as int, embed) == Some((m@, e as int)),
            None => md_tail(v@, j as int, embed) is None,
        },
{
    reveal(md_tail);
    let n = v.len();
    let t = find_char_exec(v, j, ']');
    if !(n - t >= 2 && v[t + 1] == '(') {
        return None;
    }
    let u0 = t + 2;
    let url_set = vec![')'];
    assert(url_set@ == seq![')']);
    let u = span_end_exec(v, u0, &url_set, true);
    if !(u0 < u && u < n) {
        return None;
    }
    if v[u] == ')' {
        let m = MarkdownLink { text: string_from(v, j, t), url: string_from(v, u0, u), title: None, is_embed: embed };
        return Some((m, u + 1));
    }
    let w = ws_end_exec(v, u);
    if w < n && v[w] == '"' {
        let q = find_char_exec(v, w + 1, '"');
        if n - q >= 2 && v[q + 1] == ')' {
            let m = MarkdownLink {
                text: string_from(v, j, t),
                url: string_from(v, u0, u),
                title: Some(string_from(v, w + 1, q)),
                is_embed: embed,
            };
            return Some((m, q + 2));
        }
    }
    None
}

/// The markdown link that starts at `i` (see `md_at`).
fn md_at_exec(v: &Vec<char>, i: usize) -> (r: Option<(MarkdownLink, usize)>)
    requires
        i <= v.len(),
    ensures
        match r {
            Some((m, e)) => md_at(v@, i as int) == Some((m@, e as int)) && i < e <= v.len(),
            None => md_at(v@, i as int) is None,
        },
{
    let n = v.len();
    if n - i >= 2 && v[i] == '!' && v[i + 1] == '[' {
        assert(match_at(v@, i as int, seq!['!', '['])) by {
            assert(v@.subrange(i as int, i + 2) =~= seq!['!', '[']);
        }
        let r = md_tail_exec(v, i + 2, true);
        if r.is_some() {
            proof {
                lemma_md_tail_end(v@, i + 2, true);
            }
            return r;
        }
    } else {
        assert(!match_at(v@, i as int, seq!['!', '['])) by {
            if match_at(v@, i as int, seq!['!', '[']) {
                assert(v@.subrange(i as int, i + 2)[0] == '!');
                assert(v@.subrange(i as int, i + 2)[1] == '[');
            }
        }
    }
    if i < n && v[i] == '[' {
        assert(match_at(v@, i as int, seq!['['])) by {
            assert(v@.subrange(i as int, i + 1) =~= seq!['[']);
        }
        proof {
            lemma_md_tail_end(v@, i + 1, false);
        }
        md_tail_exec(v, i + 1, false)
    } else {
        assert(!match_at(v@, i as int, seq!['['])) by {
            if match_at(v@, i as int, seq!['[']) {
                assert(v@.subrange(i as int, i + 1)[0] == '[');
            }
        }
        None
    }
}

/// The first markdown link of `v[from..]` and where it ends.
fn next_md(v: &Vec<char>, from: usize) -> (r: Option<(MarkdownLink, usize)>)
    requires
        from <= v.len(),
    ensures
        match r {
            Some((m, e)) => from < e <= v.len() && mds_from(v@, from as int) == seq![m@]
                + mds_from(v@, e as int),
            None => mds_from(v@, from as int) == Seq::<MarkdownView>::empty(),
        },
{
    let mut i = from;
    while i < v.len()
        invariant
            from <= i <= v.len(),
            mds_from(v@, from as int) == mds_from(v@, i as int),
        decreases v.len() - i,
    {
        match md_at_exec(v, i) {
            Some((m, e)) => {
                return Some((m, e));
            },
            None => {},
        }
        i = i + 1;
    }
    None
}

// ---------------------------------------------------------------------------
// Autolinks
// ---------------------------------------------------------------------------

pub open spec fn ascii_alpha(c: char) -> bool {
    ('a' <= c && c <= 'z') || ('A' <= c && c <= 'Z')
}

/// The characters after the first one of a URL scheme: `[a-zA-Z0-9+.-]`.
pub open spec fn scheme_char(c: char) -> bool {
    ascii_alpha(c) || ('0' <= c && c <= '9') || c == '+' || c == '.' || c == '-'
}

pub open spec fn scheme_end(s: Seq<char>, i: int) -> int
    decreases s.len() - i,
{
    if 0 <= i < s.len() && scheme_char(s[i]) {
        scheme_end(s, i + 1)
    } else {
        i
    }
}

proof fn lemma_scheme_end_bounds(s: Seq<char>, i: int)
    requires
        0 <= i <= s.len(),
    ensures
        i <= scheme_end(s, i) <= s.len(),
    decreases s.len() - i,
{
    if i < s.len() && scheme_char(s[i]) {
        lemma_scheme_end_bounds(s, i + 1);
    }
}

/// The URL autolink that starts at `i`, and where it ends: `<`, a scheme,
/// `://`, characters other than whitespace and `>`, then `>`.
pub open spec fn url_at(s: Seq<char>, i: int) -> Option<(Seq<char>, int)> {
    let sc = scheme_end(s, i + 2);
    let r = span_end(s, sc + 3, seq!['>'], true);
    if 0 <= i && i + 1 < s.len() && s[i] == '<' && ascii_alpha(s[i + 1]) && match_at(s, sc, seq![':', '/', '/'])
        && sc + 3 < r < s.len() && s[r] == '>' {
        Some((s.subrange(i + 1, r), r + 1))
    } else {
        None
    }
}

/// The email autolink that starts at `i`, and where it ends: `<`, characters
/// other than whitespace, `@` and `>`, then `@`, characters other than whitespace
/// and `>`, then `>`.
pub open spec fn email_at(s: Seq<char>, i: int) -> Option<(Seq<char>, int)> {
    let l = span_end(s, i + 1, seq!['@', '>'], true);
    let d = span_end(s, l + 1, seq!['>'], true);
    if 0 <= i < s.len() && s[i] == '<' && i + 1 < l < s.len() && s[l] == '@' && l + 1 < d < s.len() && s[d] == '>' {
        Some((s.subrange(i + 1, d), d + 1))
    } else {
        None
    }
}

/// The matches of `url_at` in `s[i..]`, leftmost first.
pub open spec fn urls_from(s: Seq<char>, i: int) -> Seq<Seq<char>>
    decreases s.len() - i,
{
    if i < 0 || i >= s.len() {
        Seq::empty()
    } else {
        match url_at(s, i) {
            Some((u, e)) => if i < e <= s.len() {
                seq![u] + urls_from(s, e)
            } else {
                Seq::empty()
            },
            None => urls_from(s, i + 1),
        }
    }
}

/// The matches of `email_at` in `s[i..]`, leftmost first.
pub open spec fn emails_from(s: Seq<char>, i: int) -> Seq<Seq<char>>
    decreases s.len() - i,
{
    if i < 0 || i >= s.len() {
        Seq::empty()
    } else {
        match email_at(s, i) {
            Some((u, e)) => if i < e <= s.len() {
                seq![u] + emails_from(s, e)
            } else {
                Seq::empty()
            },
            None => emails_from(s, i + 1),
        }
    }
}

fn scheme_end_exec(v: &Vec<char>, i: usize) -> (e: usize)
    requires
        i <= v.len(),
    ensures
        e == scheme_end(v@, i as int),
        i <= e <= v.len(),
{
    let mut e = i;
    while e < v.len() && ((v[e] >= 'a' && v[e] <= 'z') || (v[e] >= 'A' && v[e] <= 'Z') || (v[e] >= '0'
        && v[e] <= '9') || v[e] == '+' || v[e] == '.' || v[e] == '-')
        invariant
            i <= e <= v.len(),
            scheme_end(v@, i as int) == scheme_end(v@, e as int),
        decreases v.len() - e,
    {
        e = e + 1;
    }
    e
}

/// The URL autolink that starts at `i` (see `url_at`).
fn url_at_exec(v: &Vec<char>, i: usize) -> (r: Option<(String, usize)>)
    requires
        i <= v.len(),
    ensures
        match r {
            Some((u, e)) => url_at(v@, i as int) == Some((u@, e as int)) && i < e <= v.len(),
            None => url_at(v@, i as int) is None,
        },
{
    let n = v.len();
    if !(n - i >= 2 && v[i] == '<' && ((v[i + 1] >= 'a' && v[i + 1] <= 'z') || (v[i + 1] >= 'A' && v[i + 1]
        <= 'Z'))) {
        return None;
    }
    let sc = scheme_end_exec(v, i + 2);
    let sep = vec![':', '/', '/'];
    assert(sep@ == seq![':', '/', '/']);
    if !match_at_exec(v, sc, &sep) {
        return None;
    }
    let stop = vec!['>'];
    assert(stop@ == seq!['>']);
    let r = span_end_exec(v, sc + 3, &stop, true);
    if sc + 3 < r && r < n && v[r] == '>' {
        Some((string_from(v, i + 1, r), r + 1))
    } else {
        None
    }
}

/// The email autolink that starts at `i` (see `email_at`).
fn email_at_exec(v: &Vec<char>, i: usize) -> (r: Option<(String, usize)>)
    requires
        i <= v.len(),
    ensures
        match r {
            Some((u, e)) => email_at(v@, i as int) == Some((u@, e as int)) && i < e <= v.len(),
            None => email_at(v@, i as int) is None,
        },
{
    let n = v.len();
    if !(i < n && v[i] == '<') {
        return None;
    }
    let local_stop = vec!['@', '>'];
    assert(local_stop@ == seq!['@', '>']);
    let l = span_end_exec(v, i + 1, &local_stop, true);
    if !(i + 1 < l && l < n && v[l] == '@') {
        return None;
    }
    let stop = vec!['>'];
    assert(stop@ == seq!['>']);
    let d = span_end_exec(v, l + 1, &stop, true);
    if l + 1 < d && d < n && v[d] == '>' {
        Some((string_from(v, i + 1, d), d + 1))
    } else {
        None
    }
}

/// The first URL autolink of `v[from..]` and where it ends.
fn next_url(v: &Vec<char>, from: usize) -> (r: Option<(String, usize)>)
    requires
        from <= v.len(),
    ensures
        match r {
            Some((u, e)) => from < e <= v.len() && urls_from(v@, from as int) == seq![u@]
                + urls_from(v@, e as int),
            None => urls_from(v@, from as int) == Seq::<Seq<char>>::empty(),
        },
{
    let mut i = from;
    while i < v.len()
        invariant
            from <= i <= v.len(),
            urls_from(v@, from as int) == urls_from(v@, i as int),
        decreases v.len() - i,
    {
        match url_at_exec(v, i) {
            Some((u, e)) => {
                return Some((u, e));
            },
            None => {},
        }
        i = i + 1;
    }
    None
}

/// The first email autolink of `v[from..]` and where it ends.
fn next_email(v: &Vec<char>, from: usize) -> (r: Option<(String, usize)>)
    requires
        from <= v.len(),
    ensures
        match r {
            Some((u, e)) => from < e <= v.len() && emails_from(v@, from as int) == seq![u@]
                + emails_from(v@, e as int),
            None => emails_from(v@, from as int) == Seq::<Seq<char>>::empty(),
        },
{
    let mut i = from;
    while i < v.len()
        invariant
            from <= i <= v.len(),
            emails_from(v@, from as int) == emails_from(v@, i as int),
        decreases v.len() - i,
    {
        match email_at_exec(v, i) {
            Some((u, e)) => {
                return Some((u, e));
            },
            None => {},
        }
        i = i + 1;
    }
    None
}

// ---------------------------------------------------------------------------
// Extraction and parsing
// ---------------------------------------------------------------------------

pub open spec fn wiki_links(ws: Seq<WikiView>) -> Seq<LinkView> {
    ws.map_values(|w: WikiView| LinkView::Wiki(w))
}

pub open spec fn markdown_links(ms: Seq<MarkdownView>) -> Seq<LinkView> {
    ms.map_values(|m: MarkdownView| LinkView::Markdown(m))
}

pub open spec fn url_links(us: Seq<Seq<char>>) -> Seq<LinkView> {
    us.map_values(|u: Seq<char>| LinkView::Url(u))
}

pub open spec fn email_links(es: Seq<Seq<char>>) -> Seq<LinkView> {
    es.map_values(|e: Seq<char>| LinkView::Email(e))
}

pub open spec fn link_views(ls: Seq<Link>) -> Seq<LinkView> {
    ls.map_values(|l: Link| l@)
}

/// All links of a text: its wikilinks, then its markdown links, then its URL
/// autolinks, then its email autolinks, each group in text order.
pub open spec fn links_of(s: Seq<char>) -> Seq<LinkView> {
    wiki_links(wikis_from(s, 0)) + markdown_links(mds_from(s, 0)) + url_links(urls_from(s, 0)) + email_links(
        emails_from(s, 0),
    )
}

/// The link a text is read as: its first wikilink, else its first markdown link,
/// else its first URL autolink, else its first email autolink.
pub open spec fn parse_link(s: Seq<char>) -> Option<LinkView> {
    if wikis_from(s, 0).len() > 0 {
        Some(LinkView::Wiki(wikis_from(s, 0)[0]))
    } else if mds_from(s, 0).len() > 0 {
        Some(LinkView::Markdown(mds_from(s, 0)[0]))
    } else if urls_from(s, 0).len() > 0 {
        Some(LinkView::Url(urls_from(s, 0)[0]))
    } else if emails_from(s, 0).len() > 0 {
        Some(LinkView::Email(emails_from(s, 0)[0]))
    } else {
        None
    }
}

fn push_wikis(v: &Vec<char>, out: &mut Vec<Link>)
    ensures
        link_views(final(out)@) == link_views(old(out)@) + wiki_links(wikis_from(v@, 0)),
{
    let ghost start = link_views(out@);
    let mut i: usize = 0;
    loop
        invariant
            i <= v.len(),
            start == link_views(old(out)@),
            start + wiki_links(wikis_from(v@, 0)) == link_views(out@) + wiki_links(wikis_from(v@, i as int)),
        decreases v.len() - i,
    {
        match next_wiki(v, i) {
            Some((w, e)) => {
                let ghost before = link_views(out@);
                let ghost rest = wikis_from(v@, e as int);
                out.push(Link::Wiki(w));
                assert(link_views(out@) =~= before.push(LinkView::Wiki(w@)));
                assert(wiki_links(seq![w@] + rest) =~= seq![LinkView::Wiki(w@)] + wiki_links(rest));
                assert(before + (seq![LinkView::Wiki(w@)] + wiki_links(rest)) =~= before.push(LinkView::Wiki(w@))
                    + wiki_links(rest));
                i = e;
            },
            None => {
                assert(wiki_links(Seq::<WikiView>::empty()) =~= Seq::<LinkView>::empty());
                assert(link_views(out@) + Seq::<LinkView>::empty() =~= link_views(out@));
                return ;
            },
        }
    }
}

fn push_mds(v: &Vec<char>, out: &mut Vec<Link>)
    ensures
        link_views(final(out)@) == link_views(old(out)@) + markdown_links(mds_from(v@, 0)),
{
    let ghost start = link_views(out@);
    let mut i: usize = 0;
    loop
        invariant
            i <= v.len(),
            start == link_views(old(out)@),
            start + markdown_links(mds_from(v@, 0)) == link_views(out@) + markdown_links(mds_from(v@, i as int)),
        decreases v.len() - i,
    {
        match next_md(v, i) {
            Some((m, e)) => {
                let ghost before = link_views(out@);
                let ghost rest = mds_from(v@, e as int);
                out.push(Link::Markdown(m));
                assert(link_views(out@) =~= before.push(LinkView::Markdown(m@)));
                assert(markdown_links(seq![m@] + rest) =~= seq![LinkView::Markdown(m@)] + markdown_links(rest));
                assert(before + (seq![LinkView::Markdown(m@)] + markdown_links(rest)) =~= before.push(
                    LinkView::Markdown(m@),
                ) + markdown_links(rest));
                i = e;
            },
            None => {
                assert(markdown_links(Seq::<MarkdownView>::empty()) =~= Seq::<LinkView>::empty());
                assert(link_views(out@) + Seq::<LinkView>::empty() =~= link_views(out@));
                return ;
            },
        }
    }
}

fn push_urls(v: &Vec<char>, out: &mut Vec<Link>)
    ensures
        link_views(final(out)@) == link_views(old(out)@) + url_links(urls_from(v@, 0)),
{
    let ghost start = link_views(out@);
    let mut i: usize = 0;
    loop
        invariant
            i <= v.len(),
            start == link_views(old(out)@),
            start + url_links(urls_from(v@, 0)) == link_views(out@) + url_links(urls_from(v@, i as int)),
        decreases v.len() - i,
    {
        match next_url(v, i) {
            Some((u, e)) => {
                let ghost before = link_views(out@);
                let ghost rest = urls_from(v@, e as int);
                let ghost uv = u@;
                out.push(Link::Url(UrlLink { url: u }));
                assert(link_views(out@) =~= before.push(LinkView::Url(uv)));
                assert(url_links(seq![uv] + rest) =~= seq![LinkView::Url(uv)] + url_links(rest));
                assert(before + (seq![LinkView::Url(uv)] + url_links(rest)) =~= before.push(LinkView::Url(uv))
                    + url_links(rest));
                i = e;
            },
            None => {
                assert(url_links(Seq::<Seq<char>>::empty()) =~= Seq::<LinkView>::empty());
                assert(link_views(out@) + Seq::<LinkView>::empty() =~= link_views(out@));
                return ;
            },
        }
    }
}

fn push_emails(v: &Vec<char>, out: &mut Vec<Link>)
    ensures
        link_views(final(out)@) == link_views(old(out)@) + email_links(emails_from(v@, 0)),
{
    let ghost start = link_views(out@);
    let mut i: usize = 0;
    loop
        invariant
            i <= v.len(),
            start == link_views(old(out)@),
            start + email_links(emails_from(v@, 0)) == link_views(out@) + email_links(emails_from(v@, i as int)),
        decreases v.len() - i,
    {
        match next_email(v, i) {
            Some((u, e)) => {
                let ghost before = link_views(out@);
                let ghost rest = emails_from(v@, e as int);
                let ghost uv = u@;
                out.push(Link::Email(EmailLink { address: u }));
                assert(link_views(out@) =~= before.push(LinkView::Email(uv)));
                assert(email_links(seq![uv] + rest) =~= seq![LinkView::Email(uv)] + email_links(rest));
                assert(before + (seq![LinkView::Email(uv)] + email_links(rest)) =~= before.push(LinkView::Email(uv))
                    + email_links(rest));
                i = e;
            },
            None => {
                assert(email_links(Seq::<Seq<char>>::empty()) =~= Seq::<LinkView>::empty());
                assert(link_views(out@) + Seq::<LinkView>::empty() =~= link_views(out@));
                return ;
            },
        }
    }
}

impl Link {
    /// All links of `content`: wikilinks, then markdown links, then URL autolinks,
    /// then email autolinks, each group in text order.
    pub fn extract(content: &str) -> (r: Vec<Link>)
        ensures
            link_views(r@) == links_of(content@),
    {
        let v = chars_of(content);
        let mut out: Vec<Link> = Vec::new();
        assert(link_views(out@) =~= Seq::<LinkView>::empty());
        push_wikis(&v, &mut out);
        push_mds(&v, &mut out);
        push_urls(&v, &mut out);
        push_emails(&v, &mut out);
        assert(Seq::<LinkView>::empty() + wiki_links(wikis_from(v@, 0)) =~= wiki_links(wikis_from(v@, 0)));
        out
    }

    /// The first link of `s`, trying wikilinks, markdown links, URL autolinks and
    /// email autolinks in that order.
    pub fn parse(s: &str) -> (r: Result<Link, ParseLinkError>)
        ensures
            match r {
                Ok(l) => parse_link(s@) == Some(l@),
                Err(_) => parse_link(s@) is None,
            },
    {
        let v = chars_of(s);
        match next_wiki(&v, 0) {
            Some((w, _)) => {
                return Ok(Link::Wiki(w));
            },
            None => {},
        }
        match next_md(&v, 0) {
            Some((m, _)) => {
                return Ok(Link::Markdown(m));
            },
            None => {},
        }
        match next_url(&v, 0) {
            Some((u, _)) => {
                return Ok(Link::Url(UrlLink { url: u }));
            },
            None => {},
        }
        match next_email(&v, 0) {
            Some((u, _)) => {
                return Ok(Link::Email(EmailLink { address: u }));
            },
            None => {},
        }
        Err(ParseLinkError)
    }
}

impl std::str::FromStr for Link {
    type Err = ParseLinkError;

    fn from_str(s: &str) -> (r: Result<Link, ParseLinkError>)
        ensures
            match r {
                Ok(l) => parse_link(s@) == Some(l@),
                Err(_) => parse_link(s@) is None,
            },
    {
        Link::parse(s)
    }
}

// ---------------------------------------------------------------------------
// Written form
// ---------------------------------------------------------------------------

/// `prefix` and the value when there is one; nothing otherwise.
pub open spec fn opt_part(prefix: Seq<char>, o: Option<Seq<char>>) -> Seq<char> {
    match o {
        Some(x) => prefix + x,
        None => Seq::empty(),
    }
}

pub open spec fn embed_mark(e: bool) -> Seq<char> {
    if e {
        seq!['!']
    } else {
        Seq::empty()
    }
}

/// `[[target#heading#^block|alias]]`, each optional part only when present, `!` first for an embed.
pub open spec fn wiki_text(w: WikiView) -> Seq<char> {
    embed_mark(w.is_embed) + (seq!['[', '['] + (w.target + (opt_part(seq!['#'], w.heading) + (opt_part(
        seq!['#', '^'],
        w.block_ref,
    ) + (opt_part(seq!['|'], w.alias) + seq![']', ']'])))))
}

/// ` "title"` when there is a title.
pub open spec fn title_part(t: Option<Seq<char>>) -> Seq<char> {
    match t {
        Some(x) => seq![' ', '"'] + (x + seq!['"']),
        None => Seq::empty(),
    }
}

/// `[text](url "title")`, the title only when present, `!` first for an embed.
pub open spec fn markdown_text(m: MarkdownView) -> Seq<char> {
    embed_mark(m.is_embed) + (seq!['['] + (m.text + (seq![']', '('] + (m.url + (title_part(m.title) + seq![')'])))))
}

/// `<value>`: the written form of both autolinks.
pub open spec fn angle_text(u: Seq<char>) -> Seq<char> {
    seq!['<'] + (u + seq!['>'])
}

/// The written form of a link.
pub open spec fn link_text(l: LinkView) -> Seq<char> {
    match l {
        LinkView::Wiki(w) => wiki_text(w),
        LinkView::Markdown(m) => markdown_text(m),
        LinkView::Url(u) => angle_text(u),
        LinkView::Email(e) => angle_text(e),
    }
}

fn push_opt(r: &mut String, prefix: &str, o: &Option<String>)
    ensures
        final(r)@ == old(r)@ + opt_part(prefix@, opt_view(*o)),
{
    match o {
        Some(x) => {
            r.append(prefix);
            r.append(x.as_str());
            assert(old(r)@ + prefix@ + x@ =~= old(r)@ + (prefix@ + x@));
        },
        None => {
            assert(old(r)@ + Seq::<char>::empty() =~= old(r)@);
        },
    }
}

impl WikiLink {
    /// The written form: `[[target#heading#^block|alias]]`, `!` first for an embed.
    pub fn to_string(&self) -> (r: String)
        ensures
            r@ == wiki_text(self@),
    {
        let mut r = String::new();
        if self.is_embed {
            r.push('!');
        }
        r.push('[');
        r.push('[');
        r.append(self.target.as_str());
        let ghost r1 = r@;
        proof {
            reveal_strlit("#");
            reveal_strlit("#^");
            reveal_strlit("|");
        }
        push_opt(&mut r, "#", &self.heading);
        push_opt(&mut r, "#^", &self.block_ref);
        push_opt(&mut r, "|", &self.alias);
        r.push(']');
        r.push(']');
        let ghost w = self@;
        let ghost tail = opt_part(seq!['#'], w.heading) + (opt_part(seq!['#', '^'], w.block_ref) + (opt_part(
            seq!['|'],
            w.alias,
        ) + seq![']', ']']));
        assert(r@ =~= r1 + tail);
        assert(r1 =~= embed_mark(w.is_embed) + seq!['[', '['] + w.target);
        assert(r@ =~= wiki_text(w));
        r
    }
}

impl MarkdownLink {
    /// The written form: `[text](url "title")`, `!` first for an embed.
    pub fn to_string(&self) -> (r: String)
        ensures
            r@ == markdown_text(self@),
    {
        let mut r = String::new();
        if self.is_embed {
            r.push('!');
        }
        r.push('[');
        r.append(self.text.as_str());
        r.push(']');
        r.push('(');
        r.append(self.url.as_str());
        match &self.title {
            Some(t) => {
                r.push(' ');
                r.push('"');
                r.append(t.as_str());
                r.push('"');
            },
            None => {},
        }
        r.push(')');
        assert(r@ =~= markdown_text(self@));
        r
    }
}

impl UrlLink {
    /// The written form: `<url>`.
    pub fn to_string(&self) -> (r: String)
        ensures
            r@ == angle_text(self.url@),
    {
        let mut r = String::new();
        r.push('<');
        r.append(self.url.as_str());
        r.push('>');
        assert(r@ =~= angle_text(self.url@));
        r
    }
}

impl EmailLink {
    /// The written form: `<address>`.
    pub fn to_string(&self) -> (r: String)
        ensures
            r@ == angle_text(self.address@),
    {
        let mut r = String::new();
        r.push('<');
        r.append(self.address.as_str());
        r.push('>');
        assert(r@ =~= angle_text(self.address@));
        r
    }
}

impl Link {
    /// The written form of the link.
    pub fn to_string(&self) -> (r: String)
        ensures
            r@ == link_text(self@),
    {
        match self {
            Link::Wiki(l) => l.to_string(),
            Link::Markdown(l) => l.to_string(),
            Link::Url(l) => l.to_string(),
            Link::Email(l) => l.to_string(),
        }
    }
}

// ---------------------------------------------------------------------------
// Reading the written form back
// ---------------------------------------------------------------------------

/// No character of `s` stops a run (see `stops_at`).
pub open spec fn none_of(s: Seq<char>, stops: Seq<char>, ws: bool) -> bool {
    forall|j: int| 0 <= j < s.len() ==> !stops_at(#[trigger] s[j], stops, ws)
}

/// A present part is non-empty and free of the characters that end it.
pub open spec fn part_fits(o: Option<Seq<char>>, stops: Seq<char>) -> bool {
    match o {
        Some(x) => x.len() > 0 && none_of(x, stops, false),
        None => true,
    }
}

/// The wikilink's parts hold none of the characters that end them, and the
/// optional ones are non-empty.
pub open spec fn wiki_fits(w: WikiView) -> bool {
    &&& none_of(w.target, target_stops(), false)
    &&& part_fits(w.heading, target_stops())
    &&& part_fits(w.block_ref, block_stops())
    &&& part_fits(w.alias, alias_stops())
}

proof fn lemma_alias_part(s: Seq<char>, m: int, a: Option<Seq<char>>)
    requires
        0 <= m <= s.len(),
        s.skip(m) == opt_part(seq!['|'], a) + seq![']', ']'],
        part_fits(a, alias_stops()),
    ensures
        ne_map(wiki_alias(s, m).0) == a,
        wiki_alias(s, m).1 == s.len() - 2,
{
    let r = s.skip(m);
    assert(r.len() == s.len() - m);
    assert forall|i: int| 0 <= i < r.len() implies s[m + i] == r[i] by {}
    match a {
        Some(x) => {
            let e = m + 1 + x.len();
            assert(s[m] == r[0]);
            assert forall|i: int| m + 1 <= i < e implies !stops_at(#[trigger] s[i], alias_stops(), false) by {
                assert(s[m + (i - m)] == r[i - m]);
                assert(r[i - m] == x[i - m - 1]);
            }
            assert(s[e] == ']') by {
                assert(s[m + (e - m)] == r[e - m]);
            }
            assert(alias_stops()[0] == ']');
            lemma_span_end_is(s, m + 1, e, alias_stops(), false);
            assert(s.subrange(m + 1, e) =~= x) by {
                assert forall|i: int| 0 <= i < x.len() implies s.subrange(m + 1, e)[i] == x[i] by {
                    assert(s[m + (1 + i)] == r[1 + i]);
                }
            }
        },
        None => {
            assert(s[m] == r[0]);
        },
    }
}

proof fn lemma_block_part(s: Seq<char>, k: int, b: Option<Seq<char>>, a: Option<Seq<char>>)
    requires
        0 <= k <= s.len(),
        s.skip(k) == opt_part(seq!['#', '^'], b) + (opt_part(seq!['|'], a) + seq![']', ']']),
        part_fits(b, block_stops()),
    ensures
        ne_map(wiki_block(s, k).0) == b,
        wiki_block(s, k).1 == k + opt_part(seq!['#', '^'], b).len(),
{
    let r = s.skip(k);
    assert(r.len() == s.len() - k);
    let bp = opt_part(seq!['#', '^'], b);
    let rest = opt_part(seq!['|'], a) + seq![']', ']'];
    assert forall|i: int| 0 <= i < r.len() implies s[k + i] == r[i] by {}
    assert(rest[0] == '|' || rest[0] == ']');
    match b {
        Some(x) => {
            let m = k + 2 + x.len();
            assert(s[k] == r[0] && s[k + 1] == r[1]);
            assert forall|i: int| k + 2 <= i < m implies !stops_at(#[trigger] s[i], block_stops(), false) by {
                assert(s[k + (i - k)] == r[i - k]);
                assert(r[i - k] == x[i - k - 2]);
            }
            assert(s[m] == rest[0]) by {
                assert(s[k + (m - k)] == r[m - k]);
            }
            assert(block_stops()[0] == '|' && block_stops()[1] == ']');
            lemma_span_end_is(s, k + 2, m, block_stops(), false);
            assert(s.subrange(k + 2, m) =~= x) by {
                assert forall|i: int| 0 <= i < x.len() implies s.subrange(k + 2, m)[i] == x[i] by {
                    assert(s[k + (2 + i)] == r[2 + i]);
                }
            }
        },
        None => {
            assert(r =~= rest);
            assert(s[k] == rest[0]);
        },
    }
}

proof fn lemma_heading_part(s: Seq<char>, t: int, h: Option<Seq<char>>, b: Option<Seq<char>>, a: Option<Seq<char>>)
    requires
        0 <= t <= s.len(),
        s.skip(t) == opt_part(seq!['#'], h) + (opt_part(seq!['#', '^'], b) + (opt_part(seq!['|'], a) + seq![
            ']',
            ']',
        ])),
        part_fits(h, target_stops()),
        part_fits(b, block_stops()),
    ensures
        ne_map(wiki_heading(s, t).0) == h,
        ne_map(wiki_block(s, wiki_heading(s, t).1).0) == b,
        wiki_block(s, wiki_heading(s, t).1).1 == t + opt_part(seq!['#'], h).len() + opt_part(seq!['#', '^'], b).len(),
{
    let r = s.skip(t);
    assert(r.len() == s.len() - t);
    let hp = opt_part(seq!['#'], h);
    let r3 = opt_part(seq!['#', '^'], b) + (opt_part(seq!['|'], a) + seq![']', ']']);
    assert forall|i: int| 0 <= i < r.len() implies s[t + i] == r[i] by {}
    assert(r3[0] == '#' || r3[0] == '|' || r3[0] == ']');
    assert(target_stops()[0] == '#' && target_stops()[1] == '|' && target_stops()[2] == '^' && target_stops()[3] == ']');
    match h {
        Some(x) => {
            let k = t + 1 + x.len();
            assert(s[t] == r[0]);
            assert forall|i: int| t + 1 <= i < k implies !stops_at(#[trigger] s[i], target_stops(), false) by {
                assert(s[t + (i - t)] == r[i - t]);
                assert(r[i - t] == x[i - t - 1]);
            }
            assert(s[k] == r3[0]) by {
                assert(s[t + (k - t)] == r[k - t]);
            }
            lemma_span_end_is(s, t + 1, k, target_stops(), false);
            assert(s.subrange(t + 1, k) =~= x) by {
                assert forall|i: int| 0 <= i < x.len() implies s.subrange(t + 1, k)[i] == x[i] by {
                    assert(s[t + (1 + i)] == r[1 + i]);
                }
            }
            assert(s.skip(k) =~= r3) by {
                assert forall|i: int| 0 <= i < r3.len() implies s.skip(k)[i] == r3[i] by {
                    assert(s[t + (k - t + i)] == r[k - t + i]);
                }
            }
            lemma_block_part(s, k, b, a);
        },
        None => {
            assert(r =~= r3);
            match b {
                Some(y) => {
                    assert(s[t] == '#' && s[t + 1] == '^') by {
                        assert(s[t] == r[0] && s[t + 1] == r[1]);
                    }
                    lemma_span_end_is(s, t + 1, t + 1, target_stops(), false);
                    assert(s.subrange(t + 1, t + 1) =~= Seq::<char>::empty());
                    let k = t + 1;
                    assert(s[k] == '^');
                    let m = k + 1 + y.len();
                    assert forall|i: int| k + 1 <= i < m implies !stops_at(#[trigger] s[i], block_stops(), false) by {
                        assert(s[t + (i - t)] == r[i - t]);
                        assert(r[i - t] == y[i - t - 2]);
                    }
                    let rest = opt_part(seq!['|'], a) + seq![']', ']'];
                    assert(rest[0] == '|' || rest[0] == ']');
                    assert(s[m] == rest[0]) by {
                        assert(s[t + (m - t)] == r[m - t]);
                    }
                    assert(block_stops()[0] == '|' && block_stops()[1] == ']');
                    lemma_span_end_is(s, k + 1, m, block_stops(), false);
                    assert(s.subrange(k + 1, m) =~= y) by {
                        assert forall|i: int| 0 <= i < y.len() implies s.subrange(k + 1, m)[i] == y[i] by {
                            assert(s[t + (2 + i)] == r[2 + i]);
                        }
                    }
                },
                None => {
                    assert(s[t] == r[0]);
                    lemma_block_part(s, t, b, a);
                },
            }
        },
    }
}

/// What follows `[[` in the written form of `w`.
pub open spec fn wiki_rest(w: WikiView) -> Seq<char> {
    w.target + (opt_part(seq!['#'], w.heading) + (opt_part(seq!['#', '^'], w.block_ref) + (opt_part(seq!['|'], w.alias)
        + seq![']', ']'])))
}

proof fn lemma_wiki_tail_reads(s: Seq<char>, j: int, w: WikiView)
    requires
        0 <= j <= s.len(),
        s.skip(j) == wiki_rest(w),
        wiki_fits(w),
    ensures
        wiki_tail(s, j, w.is_embed) == Some((w, s.len() as int)),
{
    reveal(wiki_tail);
    let r = s.skip(j);
    assert(r.len() == s.len() - j);
    let r2 = opt_part(seq!['#'], w.heading) + (opt_part(seq!['#', '^'], w.block_ref) + (opt_part(seq!['|'], w.alias)
        + seq![']', ']']));
    let t: int = j + w.target.len();
    assert(s.skip(t) =~= r2) by {
        assert forall|i: int| 0 <= i < r2.len() implies s.skip(t)[i] == r2[i] by {
            assert(r[w.target.len() + i] == r2[i]);
        }
    }
    assert(r2[0] == '#' || r2[0] == '|' || r2[0] == ']');
    assert(target_stops()[0] == '#' && target_stops()[1] == '|' && target_stops()[3] == ']');
    assert forall|i: int| j <= i < t implies !stops_at(#[trigger] s[i], target_stops(), false) by {
        assert(r[i - j] == w.target[i - j]);
    }
    assert(s[t] == r2[0]) by {
        assert(s.skip(t)[0] == r2[0]);
    }
    lemma_span_end_is(s, j, t, target_stops(), false);
    lemma_heading_part(s, t, w.heading, w.block_ref, w.alias);
    let m = wiki_block(s, wiki_heading(s, t).1).1;
    let ar = opt_part(seq!['|'], w.alias) + seq![']', ']'];
    let hb = opt_part(seq!['#'], w.heading).len() + opt_part(seq!['#', '^'], w.block_ref).len();
    assert(s.skip(m) =~= ar) by {
        assert forall|i: int| 0 <= i < ar.len() implies s.skip(m)[i] == ar[i] by {
            assert(s.skip(t)[hb + i] == r2[hb + i]);
        }
    }
    lemma_alias_part(s, m, w.alias);
    let e = s.len() - 2;
    assert(s[e] == ']' && s[e + 1] == ']') by {
        assert(s.skip(m)[e - m] == ar[e - m]);
        assert(s.skip(m)[e + 1 - m] == ar[e + 1 - m]);
    }
    assert(s.subrange(j, t) =~= w.target) by {
        assert forall|i: int| 0 <= i < w.target.len() implies s.subrange(j, t)[i] == w.target[i] by {
            assert(r[i] == w.target[i]);
        }
    }
}

proof fn lemma_wiki_reads_back(w: WikiView)
    requires
        wiki_fits(w),
    ensures
        wiki_at(wiki_text(w), 0) == Some((w, wiki_text(w).len() as int)),
{
    let s = wiki_text(w);
    let em = embed_mark(w.is_embed);
    let j: int = em.len() as int + 2;
    assert(s.skip(j) =~= wiki_rest(w));
    lemma_wiki_tail_reads(s, j, w);
    if w.is_embed {
        assert(s.subrange(0, 3) =~= seq!['!', '[', '[']);
    } else {
        assert(s.subrange(0, 2) =~= seq!['[', '[']);
        assert(s[0] == '[');
        assert(!match_at(s, 0, seq!['!', '[', '['])) by {
            if match_at(s, 0, seq!['!', '[', '[']) {
                assert(s.subrange(0, 3)[0] == '!');
            }
        }
    }
}

/// The markdown link's text holds no `]`, its URL is non-empty and holds no `)`
/// and no whitespace, and its title holds no `"`.
pub open spec fn markdown_fits(m: MarkdownView) -> bool {
    &&& none_of(m.text, seq![']'], false)
    &&& m.url.len() > 0
    &&& none_of(m.url, seq![')'], true)
    &&& match m.title {
        Some(t) => none_of(t, seq!['"'], false),
        None => true,
    }
}

/// What follows `[` in the written form of `m`.
pub open spec fn markdown_rest(m: MarkdownView) -> Seq<char> {
    m.text + (seq![']', '('] + (m.url + (title_part(m.title) + seq![')'])))
}

proof fn lemma_md_tail_reads(s: Seq<char>, j: int, m: MarkdownView)
    requires
        0 <= j <= s.len(),
        s.skip(j) == markdown_rest(m),
        markdown_fits(m),
    ensures
        md_tail(s, j, m.is_embed) == Some((m, s.len() as int)),
{
    reveal(md_tail);
    let r = s.skip(j);
    assert(r.len() == s.len() - j);
    let t: int = j + m.text.len();
    let u0 = t + 2;
    let u = u0 + m.url.len();
    let tail = title_part(m.title) + seq![')'];
    assert forall|i: int| 0 <= i < r.len() implies s[j + i] == r[i] by {}
    assert forall|i: int| j <= i < t implies s[i] != ']' by {
        assert(r[i - j] == m.text[i - j]);
        assert(!stops_at(m.text[i - j], seq![']'], false));
        assert(seq![']'][0] == ']');
    }
    assert(s[t] == ']' && s[t + 1] == '(') by {
        assert(s[j + (t - j)] == r[t - j]);
        assert(s[j + (t + 1 - j)] == r[t + 1 - j]);
    }
    lemma_find_char_is(s, j, t, ']');
    assert forall|i: int| u0 <= i < u implies !stops_at(#[trigger] s[i], seq![')'], true) by {
        assert(s[j + (i - j)] == r[i - j]);
        assert(r[i - j] == m.url[i - u0]);
    }
    assert(s[u] == tail[0]) by {
        assert(s[j + (u - j)] == r[u - j]);
    }
    assert(seq![')'][0] == ')');
    assert(is_ws(' '));
    lemma_span_end_is(s, u0, u, seq![')'], true);
    assert(s.subrange(j, t) =~= m.text) by {
        assert forall|i: int| 0 <= i < m.text.len() implies s.subrange(j, t)[i] == m.text[i] by {
            assert(s[j + i] == r[i]);
        }
    }
    assert(s.subrange(u0, u) =~= m.url) by {
        assert forall|i: int| 0 <= i < m.url.len() implies s.subrange(u0, u)[i] == m.url[i] by {
            assert(s[j + (u0 - j + i)] == r[u0 - j + i]);
        }
    }
    match m.title {
        Some(x) => {
            let w = u + 1;
            let q = w + 1 + x.len();
            assert(s[u] == ' ' && s[w] == '"') by {
                assert(s[j + (w - j)] == r[w - j]);
            }
            assert(ws_end(s, w) == w);
            assert(ws_end(s, u) == w);
            assert forall|i: int| w + 1 <= i < q implies s[i] != '"' by {
                assert(s[j + (i - j)] == r[i - j]);
                assert(r[i - j] == x[i - w - 1]);
                assert(!stops_at(x[i - w - 1], seq!['"'], false));
                assert(seq!['"'][0] == '"');
            }
            assert(s[q] == '"' && s[q + 1] == ')') by {
                assert(s[j + (q - j)] == r[q - j]);
                assert(s[j + (q + 1 - j)] == r[q + 1 - j]);
            }
            lemma_find_char_is(s, w + 1, q, '"');
            assert(s.len() == q + 2);
            assert(s.subrange(w + 1, q) =~= x) by {
                assert forall|i: int| 0 <= i < x.len() implies s.subrange(w + 1, q)[i] == x[i] by {
                    assert(s[j + (w + 1 - j + i)] == r[w + 1 - j + i]);
                }
            }
        },
        None => {
            assert(s.len() == u + 1);
        },
    }
}

proof fn lemma_markdown_reads_back(m: MarkdownView)
    requires
        markdown_fits(m),
    ensures
        md_at(markdown_text(m), 0) == Some((m, markdown_text(m).len() as int)),
{
    let s = markdown_text(m);
    let em = embed_mark(m.is_embed);
    let j: int = em.len() as int + 1;
    assert(s.skip(j) =~= markdown_rest(m));
    lemma_md_tail_reads(s, j, m);
    if m.is_embed {
        assert(s.subrange(0, 2) =~= seq!['!', '[']);
    } else {
        assert(s.subrange(0, 1) =~= seq!['[']);
        assert(s[0] == '[');
        assert(!match_at(s, 0, seq!['!', '['])) by {
            if match_at(s, 0, seq!['!', '[']) {
                assert(s.subrange(0, 2)[0] == '!');
            }
        }
    }
}

/// An ASCII letter, scheme characters (`[a-zA-Z0-9+.-]`), `://`, then one or
/// more characters other than whitespace and `>`.
pub open spec fn url_fits(u: Seq<char>) -> bool {
    let sc = first_index_of(u, ':');
    &&& u.len() > 0
    &&& ascii_alpha(u[0])
    &&& forall|i: int| 1 <= i < sc ==> scheme_char(#[trigger] u[i])
    &&& match_at(u, sc, seq![':', '/', '/'])
    &&& sc + 3 < u.len()
    &&& none_of(u.skip(sc + 3), seq!['>'], true)
}

/// Characters other than whitespace, `@` and `>`, then `@`, then one or more
/// characters other than whitespace and `>`.
pub open spec fn email_fits(a: Seq<char>) -> bool {
    let at = first_index_of(a, '@');
    &&& 0 < at
    &&& at + 1 < a.len()
    &&& none_of(a.take(at), seq!['@', '>'], true)
    &&& none_of(a.skip(at + 1), seq!['>'], true)
}

proof fn lemma_scheme_end_is(s: Seq<char>, from: int, e: int)
    requires
        0 <= from <= e < s.len(),
        forall|j: int| from <= j < e ==> scheme_char(#[trigger] s[j]),
        !scheme_char(s[e]),
    ensures
        scheme_end(s, from) == e,
    decreases e - from,
{
    if from < e {
        lemma_scheme_end_is(s, from + 1, e);
    }
}

proof fn lemma_url_reads_back(u: Seq<char>)
    requires
        url_fits(u),
    ensures
        url_at(angle_text(u), 0) == Some((u, angle_text(u).len() as int)),
{
    let s = angle_text(u);
    let sc = first_index_of(u, ':');
    crate::text::lemma_first_index_of_bounds(u, ':');
    assert forall|i: int| 0 <= i < u.len() implies s[i + 1] == u[i] by {}
    assert(s[0] == '<');
    assert(s[u.len() as int + 1] == '>');
    assert(u.subrange(sc, sc + 3)[0] == ':');
    assert forall|i: int| 2 <= i < sc + 1 implies scheme_char(#[trigger] s[i]) by {
        assert(s[(i - 1) + 1] == u[i - 1]);
    }
    assert(s[sc + 1] == ':') by {
        assert(s[sc + 1] == u[sc]);
    }
    lemma_scheme_end_is(s, 2, sc + 1);
    assert(s.subrange(sc + 1, sc + 4) =~= seq![':', '/', '/']) by {
        assert(u.subrange(sc, sc + 3) =~= seq![':', '/', '/']);
        assert(s[sc + 2] == u[sc + 1]);
        assert(s[sc + 3] == u[sc + 2]);
        assert(u.subrange(sc, sc + 3)[1] == u[sc + 1]);
        assert(u.subrange(sc, sc + 3)[2] == u[sc + 2]);
    }
    let r: int = u.len() as int + 1;
    assert forall|i: int| sc + 4 <= i < r implies !stops_at(#[trigger] s[i], seq!['>'], true) by {
        assert(s[(i - 1) + 1] == u[i - 1]);
        assert(u.skip(sc + 3)[i - sc - 4] == u[i - 1]);
    }
    assert(seq!['>'][0] == '>');
    lemma_span_end_is(s, sc + 4, r, seq!['>'], true);
    assert(s.subrange(1, r) =~= u);
}

proof fn lemma_email_reads_back(a: Seq<char>)
    requires
        email_fits(a),
    ensures
        email_at(angle_text(a), 0) == Some((a, angle_text(a).len() as int)),
{
    let s = angle_text(a);
    let at = first_index_of(a, '@');
    crate::text::lemma_first_index_of_bounds(a, '@');
    assert forall|i: int| 0 <= i < a.len() implies s[i + 1] == a[i] by {}
    assert(s[0] == '<');
    assert(s[a.len() as int + 1] == '>');
    assert forall|i: int| 1 <= i < at + 1 implies !stops_at(#[trigger] s[i], seq!['@', '>'], true) by {
        assert(s[(i - 1) + 1] == a[i - 1]);
        assert(a.take(at)[i - 1] == a[i - 1]);
    }
    assert(s[at + 1] == '@');
    assert(seq!['@', '>'][0] == '@');
    lemma_span_end_is(s, 1, at + 1, seq!['@', '>'], true);
    let d: int = a.len() as int + 1;
    assert forall|i: int| at + 2 <= i < d implies !stops_at(#[trigger] s[i], seq!['>'], true) by {
        assert(s[(i - 1) + 1] == a[i - 1]);
        assert(a.skip(at + 1)[i - at - 2] == a[i - 1]);
    }
    assert(seq!['>'][0] == '>');
    lemma_span_end_is(s, at + 2, d, seq!['>'], true);
    assert(s.subrange(1, d) =~= a);
}

/// The link's parts fit its syntax, and its written form holds no match of a
/// syntax that is tried before its own (wikilinks, markdown links, URL autolinks,
/// in that order).
pub open spec fn reads_back(l: LinkView) -> bool {
    let t = link_text(l);
    match l {
        LinkView::Wiki(w) => wiki_fits(w),
        LinkView::Markdown(m) => markdown_fits(m) && wikis_from(t, 0).len() == 0,
        LinkView::Url(u) => url_fits(u) && wikis_from(t, 0).len() == 0 && mds_from(t, 0).len() == 0,
        LinkView::Email(a) => email_fits(a) && wikis_from(t, 0).len() == 0 && mds_from(t, 0).len() == 0
            && urls_from(t, 0).len() == 0,
    }
}

/// The written form of a link reads back as the same link, for every link whose
/// parts fit its syntax and whose written form holds no match of a syntax tried
/// before its own.
pub proof fn law_written_link_reads_back(l: LinkView)
    requires
        reads_back(l),
    ensures
        parse_link(link_text(l)) == Some(l),
{
    let t = link_text(l);
    match l {
        LinkView::Wiki(w) => {
            lemma_wiki_reads_back(w);
            assert(wikis_from(t, t.len() as int) =~= Seq::<WikiView>::empty());
            assert(wikis_from(t, 0) =~= seq![w]);
        },
        LinkView::Markdown(m) => {
            lemma_markdown_reads_back(m);
            assert(mds_from(t, t.len() as int) =~= Seq::<MarkdownView>::empty());
            assert(mds_from(t, 0) =~= seq![m]);
        },
        LinkView::Url(u) => {
            lemma_url_reads_back(u);
            assert(urls_from(t, t.len() as int) =~= Seq::<Seq<char>>::empty());
            assert(urls_from(t, 0) =~= seq![u]);
        },
        LinkView::Email(a) => {
            lemma_email_reads_back(a);
            assert(emails_from(t, t.len() as int) =~= Seq::<Seq<char>>::empty());
            assert(emails_from(t, 0) =~= seq![a]);
        },
    }
}

/// A character that may stand in any part of a written link: none of
/// `[ ] ( ) < > | # ^ "` and no line break.
pub open spec fn plain_char(c: char) -> bool {
    &&& c != '[' && c != ']' && c != '(' && c != ')' && c != '<' && c != '>'
    &&& c != '|' && c != '#' && c != '^' && c != '"' && c != '\n' && c != '\r'
}

/// A non-empty text of plain characters.
pub open spec fn plain_text(s: Seq<char>) -> bool {
    s.len() > 0 && forall|i: int| 0 <= i < s.len() ==> plain_char(#[trigger] s[i])
}

/// A present part is plain.
pub open spec fn plain_part(o: Option<Seq<char>>) -> bool {
    match o {
        Some(x) => plain_text(x),
        None => true,
    }
}

/// A text without whitespace.
pub open spec fn no_ws(s: Seq<char>) -> bool {
    forall|i: int| 0 <= i < s.len() ==> !is_ws(#[trigger] s[i])
}

/// A link whose every part is plain text; a markdown link's URL holds no
/// whitespace; a URL autolink has the form `scheme://rest` without whitespace;
/// an email autolink is `local@domain` without whitespace and without `://`.
pub open spec fn plain_link(l: LinkView) -> bool {
    match l {
        LinkView::Wiki(w) => plain_text(w.target) && plain_part(w.heading) && plain_part(w.block_ref)
            && plain_part(w.alias),
        LinkView::Markdown(m) => plain_text(m.text) && plain_text(m.url) && no_ws(m.url) && plain_part(m.title),
        LinkView::Url(u) => plain_text(u) && url_fits(u),
        LinkView::Email(a) => plain_text(a) && email_fits(a) && forall|i: int| !match_at(a, i, seq![':', '/', '/']),
    }
}

/// `s` holds no `c`.
pub open spec fn lacks(s: Seq<char>, c: char) -> bool {
    forall|i: int| 0 <= i < s.len() ==> s[i] != c
}

proof fn lemma_lacks_concat(a: Seq<char>, b: Seq<char>, c: char)
    requires
        lacks(a, c),
        lacks(b, c),
    ensures
        lacks(a + b, c),
{
    assert forall|i: int| 0 <= i < (a + b).len() implies (a + b)[i] != c by {
        if i >= a.len() {
            assert((a + b)[i] == b[i - a.len()]);
        }
    }
}

proof fn lemma_plain_lacks(s: Seq<char>, c: char)
    requires
        forall|i: int| 0 <= i < s.len() ==> plain_char(#[trigger] s[i]),
        c == '[' || c == ']' || c == '(' || c == ')' || c == '<' || c == '>' || c == '|' || c == '#' || c == '^'
            || c == '"' || c == '\n',
    ensures
        lacks(s, c),
{
    assert forall|i: int| 0 <= i < s.len() implies s[i] != c by {
        assert(plain_char(s[i]));
    }
}

/// Without `[[` anywhere, no wikilink is found.
proof fn lemma_no_wikis(s: Seq<char>, i: int)
    requires
        forall|k: int| 0 <= k && k + 1 < s.len() ==> !(s[k] == '[' && #[trigger] s[k + 1] == '['),
    ensures
        wikis_from(s, i).len() == 0,
    decreases s.len() - i,
{
    if 0 <= i < s.len() {
        if match_at(s, i, seq!['!', '[', '[']) {
            assert(s.subrange(i, i + 3)[1] == s[i + 1]);
            assert(s.subrange(i, i + 3)[2] == s[i + 2]);
        }
        if match_at(s, i, seq!['[', '[']) {
            assert(s.subrange(i, i + 2)[0] == s[i]);
            assert(s.subrange(i, i + 2)[1] == s[i + 1]);
        }
        lemma_no_wikis(s, i + 1);
    }
}

/// Without `[` anywhere, no markdown link is found.
proof fn lemma_no_mds(s: Seq<char>, i: int)
    requires
        lacks(s, '['),
    ensures
        mds_from(s, i).len() == 0,
    decreases s.len() - i,
{
    if 0 <= i < s.len() {
        if match_at(s, i, seq!['!', '[']) {
            assert(s.subrange(i, i + 2)[1] == s[i + 1]);
        }
        if match_at(s, i, seq!['[']) {
            assert(s.subrange(i, i + 1)[0] == s[i]);
        }
        lemma_no_mds(s, i + 1);
    }
}

/// Without `://` anywhere, no URL autolink is found.
proof fn lemma_no_urls(s: Seq<char>, i: int)
    requires
        forall|k: int| !match_at(s, k, seq![':', '/', '/']),
    ensures
        urls_from(s, i).len() == 0,
    decreases s.len() - i,
{
    if 0 <= i < s.len() {
        let sc = scheme_end(s, i + 2);
        assert(!match_at(s, sc, seq![':', '/', '/']));
        lemma_no_urls(s, i + 1);
    }
}

proof fn lemma_part_fits(o: Option<Seq<char>>, stops: Seq<char>)
    requires
        plain_part(o),
        forall|k: int| 0 <= k < stops.len() ==> !plain_char(#[trigger] stops[k]),
    ensures
        part_fits(o, stops),
{
    if let Some(x) = o {
        lemma_none_of_plain(x, stops);
    }
}

proof fn lemma_none_of_plain(x: Seq<char>, stops: Seq<char>)
    requires
        forall|i: int| 0 <= i < x.len() ==> plain_char(#[trigger] x[i]),
        forall|k: int| 0 <= k < stops.len() ==> !plain_char(#[trigger] stops[k]),
    ensures
        none_of(x, stops, false),
{
    assert forall|j: int| 0 <= j < x.len() implies !stops_at(#[trigger] x[j], stops, false) by {
        assert(plain_char(x[j]));
        if stops.contains(x[j]) {
            let k = choose|k: int| 0 <= k < stops.len() && stops[k] == x[j];
            assert(!plain_char(stops[k]));
        }
    }
}

/// The written form of a link whose parts are plain text (see `plain_link`)
/// reads back as the same link.
pub proof fn law_plain_link_reads_back(l: LinkView)
    requires
        plain_link(l),
    ensures
        parse_link(link_text(l)) == Some(l),
{
    let t = link_text(l);
    match l {
        LinkView::Wiki(w) => {
            assert(!plain_char(target_stops()[0]) && !plain_char(target_stops()[1]) && !plain_char(target_stops()[2])
                && !plain_char(target_stops()[3]) && !plain_char(target_stops()[4]));
            assert(!plain_char(block_stops()[0]) && !plain_char(block_stops()[1]) && !plain_char(block_stops()[2]));
            assert(!plain_char(alias_stops()[0]) && !plain_char(alias_stops()[1]));
            lemma_none_of_plain(w.target, target_stops());
            lemma_part_fits(w.heading, target_stops());
            lemma_part_fits(w.block_ref, block_stops());
            lemma_part_fits(w.alias, alias_stops());
        },
        LinkView::Markdown(m) => {
            lemma_none_of_plain(m.text, seq![']']);
            assert(none_of(m.url, seq![')'], true)) by {
                assert forall|j: int| 0 <= j < m.url.len() implies !stops_at(#[trigger] m.url[j], seq![')'], true) by {
                    assert(plain_char(m.url[j]));
                    assert(!is_ws(m.url[j]));
                    if seq![')'].contains(m.url[j]) {
                        assert(seq![')'][0] == ')');
                    }
                }
            }
            if let Some(x) = m.title {
                lemma_none_of_plain(x, seq!['"']);
            }
            // The only `[` of the written form opens the text, and the text does
            // not begin with `[`.
            let rest = m.text + (seq![']', '('] + (m.url + (title_part(m.title) + seq![')'])));
            lemma_plain_lacks(m.text, '[');
            lemma_plain_lacks(m.url, '[');
            let tail = title_part(m.title) + seq![')'];
            assert(lacks(tail, '[')) by {
                if let Some(x) = m.title {
                    lemma_plain_lacks(x, '[');
                    lemma_lacks_concat(x, seq!['"'], '[');
                    lemma_lacks_concat(seq![' ', '"'], x + seq!['"'], '[');
                    lemma_lacks_concat(title_part(m.title), seq![')'], '[');
                }
            }
            lemma_lacks_concat(m.url, tail, '[');
            lemma_lacks_concat(seq![']', '('], m.url + tail, '[');
            lemma_lacks_concat(m.text, seq![']', '('] + (m.url + tail), '[');
            assert(rest == m.text + (seq![']', '('] + (m.url + tail)));
            let e = embed_mark(m.is_embed).len();
            assert(t == embed_mark(m.is_embed) + (seq!['['] + rest));
            assert forall|k: int| 0 <= k && k + 1 < t.len() implies !(t[k] == '[' && #[trigger] t[k + 1] == '[') by {
                if k < e {
                    assert(t[k] == '!');
                } else if k == e {
                    assert(t[k + 1] == m.text[0]);
                    assert(plain_char(m.text[0]));
                } else {
                    assert(t[k] == rest[k - e - 1]);
                }
            }
            lemma_no_wikis(t, 0);
        },
        LinkView::Url(u) => {
            lemma_plain_lacks(u, '[');
            lemma_lacks_concat(u, seq!['>'], '[');
            lemma_lacks_concat(seq!['<'], u + seq!['>'], '[');
            lemma_no_wikis(t, 0);
            lemma_no_mds(t, 0);
        },
        LinkView::Email(a) => {
            lemma_plain_lacks(a, '[');
            lemma_lacks_concat(a, seq!['>'], '[');
            lemma_lacks_concat(seq!['<'], a + seq!['>'], '[');
            lemma_no_wikis(t, 0);
            lemma_no_mds(t, 0);
            assert forall|k: int| !match_at(t, k, seq![':', '/', '/']) by {
                if match_at(t, k, seq![':', '/', '/']) {
                    assert(t.subrange(k, k + 3)[0] == t[k]);
                    assert(t.subrange(k, k + 3)[1] == t[k + 1]);
                    assert(t.subrange(k, k + 3)[2] == t[k + 2]);
                    assert(k >= 1 && k + 2 <= a.len());
                    assert(a.subrange(k - 1, k + 2) =~= t.subrange(k, k + 3));
                    assert(match_at(a, k - 1, seq![':', '/', '/']));
                }
            }
            lemma_no_urls(t, 0);
        },
    }
    law_written_link_reads_back(l);
}

// ---------------------------------------------------------------------------
// Distinct links
// ---------------------------------------------------------------------------

/// The links of `ls` without repeats, each kept where it first occurs.
pub open spec fn distinct_links(ls: Seq<LinkView>) -> Seq<LinkView>
    decreases ls.len(),
{
    if ls.len() == 0 {
        Seq::empty()
    } else {
        let d = distinct_links(ls.drop_last());
        if d.contains(ls.last()) {
            d
        } else {
            d.push(ls.last())
        }
    }
}

fn opt_eq(a: &Option<String>, b: &Option<String>) -> (r: bool)
    ensures
        r == (opt_view(*a) == opt_view(*b)),
{
    match (a, b) {
        (Some(x), Some(y)) => *x == *y,
        (None, None) => true,
        _ => false,
    }
}

/// Whether two links are the same link.
fn link_eq(a: &Link, b: &Link) -> (r: bool)
    ensures
        r == (a@ == b@),
{
    match (a, b) {
        (Link::Wiki(x), Link::Wiki(y)) => {
            x.target == y.target && opt_eq(&x.alias, &y.alias) && opt_eq(&x.heading, &y.heading) && opt_eq(
                &x.block_ref,
                &y.block_ref,
            ) && x.is_embed == y.is_embed
        },
        (Link::Markdown(x), Link::Markdown(y)) => {
            x.text == y.text && x.url == y.url && opt_eq(&x.title, &y.title) && x.is_embed == y.is_embed
        },
        (Link::Url(x), Link::Url(y)) => x.url == y.url,
        (Link::Email(x), Link::Email(y)) => x.address == y.address,
        _ => false,
    }
}

fn opt_clone(o: &Option<String>) -> (r: Option<String>)
    ensures
        opt_view(r) == opt_view(*o),
{
    match o {
        Some(x) => Some(x.clone()),
        None => None,
    }
}

/// A copy of the link.
fn link_clone(l: &Link) -> (r: Link)
    ensures
        r@ == l@,
{
    match l {
        Link::Wiki(x) => Link::Wiki(
            WikiLink {
                target: x.target.clone(),
                alias: opt_clone(&x.alias),
                heading: opt_clone(&x.heading),
                block_ref: opt_clone(&x.block_ref),
                is_embed: x.is_embed,
            },
        ),
        Link::Markdown(x) => Link::Markdown(
            MarkdownLink {
                text: x.text.clone(),
                url: x.url.clone(),
                title: opt_clone(&x.title),
                is_embed: x.is_embed,
            },
        ),
        Link::Url(x) => Link::Url(UrlLink { url: x.url.clone() }),
        Link::Email(x) => Link::Email(EmailLink { address: x.address.clone() }),
    }
}

fn holds_link(out: &Vec<Link>, l: &Link) -> (r: bool)
    ensures
        r == link_views(out@).contains(l@),
{
    let mut k: usize = 0;
    while k < out.len()
        invariant
            k <= out.len(),
            forall|j: int| 0 <= j < k ==> out@[j]@ != l@,
        decreases out.len() - k,
    {
        if link_eq(&out[k], l) {
            assert(link_views(out@)[k as int] == l@);
            return true;
        }
        k = k + 1;
    }
    assert(!link_views(out@).contains(l@)) by {
        if link_views(out@).contains(l@) {
            let j = choose|j: int| 0 <= j < link_views(out@).len() && link_views(out@)[j] == l@;
            assert(out@[j]@ == l@);
        }
    }
    false
}

impl ExtractFrom for Link {
    type Output = Vec<Link>;

    /// The distinct links of `text` (see `Link::extract` for their order), each
    /// kept where it first occurs.
    fn extract_from(text: &str) -> (r: Vec<Link>)
        ensures
            link_views(r@) == distinct_links(links_of(text@)),
    {
        let all = Link::extract(text);
        let ghost ls = link_views(all@);
        let mut out: Vec<Link> = Vec::new();
        let mut k: usize = 0;
        while k < all.len()
            invariant
                k <= all.len(),
                ls == link_views(all@),
                link_views(out@) == distinct_links(ls.take(k as int)),
            decreases all.len() - k,
        {
            assert(ls.take(k + 1).drop_last() =~= ls.take(k as int));
            assert(ls.take(k + 1).last() == all@[k as int]@);
            if !holds_link(&out, &all[k]) {
                let ghost before = link_views(out@);
                out.push(link_clone(&all[k]));
                assert(link_views(out@) =~= before.push(all@[k as int]@));
            }
            k = k + 1;
        }
        assert(ls.take(k as int) =~= ls);
        out
    }
}

impl Clone for Link {
    fn clone(&self) -> (r: Self)
        ensures
            r@ == self@,
    {
        link_clone(self)
    }
}

} // verus!
