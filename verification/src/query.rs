//! Search queries: free text with inline `tag:name` and `folder:path` filters.
use vstd::prelude::*;

use crate::scan::match_at_exec;
use crate::text::{chars_of, is_whitespace, is_ws, string_from};
use crate::vault_path::{VaultPath, VaultPathKind, vault_path_spec};

verus! {

/// A piece of a query: a tag filter, a folder filter, or free text.
#[derive(Debug, Clone, Copy, PartialEq, Eq, Structural)]
pub enum PartKind {
    Tag,
    Folder,
    Text,
}

/// The folder text a folder filter names: `/` appended unless it ends with one.
pub open spec fn folder_text(v: Seq<char>) -> Seq<char> {
    if v.len() > 0 && v.last() == '/' {
        v
    } else {
        v.push('/')
    }
}

/// Text parts, tags and folders (kind and text) gathered from query pieces:
/// empty tag and folder values are dropped, and so are folders that are not vault paths.
pub open spec fn assemble(parts: Seq<(PartKind, Seq<char>)>) -> (Seq<Seq<char>>, Seq<Seq<char>>, Seq<(VaultPathKind, Seq<char>)>)
    decreases parts.len(),
{
    if parts.len() == 0 {
        (Seq::empty(), Seq::empty(), Seq::empty())
    } else {
        let (t, g, f) = assemble(parts.drop_last());
        let (k, v) = parts.last();
        if k == PartKind::Tag {
            if v.len() > 0 {
                (t, g.push(v), f)
            } else {
                (t, g, f)
            }
        } else if k == PartKind::Folder {
            if v.len() > 0 && vault_path_spec(folder_text(v)) is Ok {
                (t, g, f.push(vault_path_spec(folder_text(v))->Ok_0))
            } else {
                (t, g, f)
            }
        } else {
            (t.push(v), g, f)
        }
    }
}

/// The parts joined with single spaces.
pub open spec fn join_spaces(parts: Seq<Seq<char>>) -> Seq<char>
    decreases parts.len(),
{
    if parts.len() == 0 {
        Seq::empty()
    } else if parts.len() == 1 {
        parts[0]
    } else {
        join_spaces(parts.drop_last()) + seq![' '] + parts.last()
    }
}

/// What gathering pieces produces, as exec values.
pub(crate) struct Gathered {
    pub(crate) text_parts: Vec<String>,
    pub(crate) tags: Vec<String>,
    pub(crate) folders: Vec<VaultPath>,
}

impl Gathered {
    pub(crate) open spec fn views(&self) -> (Seq<Seq<char>>, Seq<Seq<char>>, Seq<(VaultPathKind, Seq<char>)>) {
        (
            self.text_parts@.map_values(|s: String| s@),
            self.tags@.map_values(|s: String| s@),
            self.folders@.map_values(|p: VaultPath| p@),
        )
    }

    pub(crate) fn new() -> (g: Gathered)
        ensures
            g.views() == assemble(Seq::empty()),
    {
        let g = Gathered { text_parts: Vec::new(), tags: Vec::new(), folders: Vec::new() };
        assert(g.views().0 =~= Seq::<Seq<char>>::empty());
        assert(g.views().1 =~= Seq::<Seq<char>>::empty());
        assert(g.views().2 =~= Seq::<(VaultPathKind, Seq<char>)>::empty());
        g
    }

    /// Adds the piece `v[lo..hi]` of kind `k`.
    pub(crate) fn add(&mut self, k: PartKind, v: &Vec<char>, lo: usize, hi: usize, Ghost(parts): Ghost<Seq<(PartKind, Seq<char>)>>)
        requires
            lo <= hi <= v.len(),
            old(self).views() == assemble(parts),
        ensures
            final(self).views() == assemble(parts.push((k, v@.subrange(lo as int, hi as int)))),
    {
        let ghost val = v@.subrange(lo as int, hi as int);
        assert(parts.push((k, val)).drop_last() =~= parts);
        match k {
            PartKind::Tag => {
                if hi > lo {
                    let ghost before = self.tags@.map_values(|s: String| s@);
                    self.tags.push(string_from(v, lo, hi));
                    assert(self.tags@.map_values(|s: String| s@) =~= before.push(val));
                }
            },
            PartKind::Folder => {
                if hi > lo {
                    let mut f = string_from(v, lo, hi);
                    if v[hi - 1] != '/' {
                        f.push('/');
                    }
                    assert(f@ =~= folder_text(val));
                    match VaultPath::new(f.as_str()) {
                        Ok(p) => {
                            let ghost before = self.folders@.map_values(|p: VaultPath| p@);
                            self.folders.push(p);
                            assert(self.folders@.map_values(|p: VaultPath| p@) =~= before.push(p@));
                        },
                        Err(_) => {},
                    }
                }
            },
            PartKind::Text => {
                let ghost before = self.text_parts@.map_values(|s: String| s@);
                self.text_parts.push(string_from(v, lo, hi));
                assert(self.text_parts@.map_values(|s: String| s@) =~= before.push(val));
            },
        }
    }
}

/// The strings of `parts` joined with single spaces.
pub(crate) fn join_with_spaces(parts: &Vec<String>) -> (r: String)
    ensures
        r@ == join_spaces(parts@.map_values(|s: String| s@)),
{
    let ghost views = parts@.map_values(|s: String| s@);
    let mut r = String::new();
    let mut k: usize = 0;
    while k < parts.len()
        invariant
            k <= parts.len(),
            views == parts@.map_values(|s: String| s@),
            r@ == join_spaces(views.take(k as int)),
        decreases parts.len() - k,
    {
        assert(views.take(k + 1).drop_last() =~= views.take(k as int));
        if k > 0 {
            r.push(' ');
        } else {
            assert(views.take(1) =~= seq![views[0]]);
        }
        r.append(parts[k].as_str());
        assert(r@ =~= join_spaces(views.take(k + 1)));
        k = k + 1;
    }
    assert(views.take(k as int) =~= views);
    r
}

// ---------------------------------------------------------------------------
// ParsedQuery: whitespace tokens, quotes group words
// ---------------------------------------------------------------------------

/// The tokens of `s[i..]` given the quote state and the token read so far:
/// `"` toggles quoting and is dropped; unquoted whitespace ends a token.
pub open spec fn quoted_tokens(s: Seq<char>, i: int, in_quotes: bool, cur: Seq<char>) -> Seq<Seq<char>>
    decreases s.len() - i,
{
    if i < 0 || i >= s.len() {
        if cur.len() > 0 {
            seq![cur]
        } else {
            Seq::empty()
        }
    } else if s[i] == '"' {
        quoted_tokens(s, i + 1, !in_quotes, cur)
    } else if is_ws(s[i]) && !in_quotes {
        (if cur.len() > 0 {
            seq![cur]
        } else {
            Seq::empty()
        }) + quoted_tokens(s, i + 1, in_quotes, Seq::empty())
    } else {
        quoted_tokens(s, i + 1, in_quotes, cur.push(s[i]))
    }
}

/// The piece a token stands for: `tag:` and `folder:` prefixes select filters.
pub open spec fn classify_token(t: Seq<char>) -> (PartKind, Seq<char>) {
    if crate::text::starts_with(t, "tag:"@) {
        (PartKind::Tag, t.skip(4))
    } else if crate::text::starts_with(t, "folder:"@) {
        (PartKind::Folder, t.skip(7))
    } else {
        (PartKind::Text, t)
    }
}

/// A query split into free text and filters.
#[derive(Debug, Clone, Default, PartialEq, Eq)]
pub struct ParsedQuery {
    /// The free-text tokens joined with single spaces.
    pub text: String,
    /// Values of `tag:` tokens.
    pub tags: Vec<String>,
    /// Folders of `folder:` tokens.
    pub folders: Vec<VaultPath>,
}

/// What parsing a `ParsedQuery` gives: text, tags and folders.
pub open spec fn parsed_query_spec(raw: Seq<char>) -> (Seq<char>, Seq<Seq<char>>, Seq<(VaultPathKind, Seq<char>)>) {
    let g = assemble(quoted_tokens(raw, 0, false, Seq::empty()).map_values(|t: Seq<char>| classify_token(t)));
    (join_spaces(g.0), g.1, g.2)
}

/// The tokens of `raw`, quotes respected.
fn tokenize_query(v: &Vec<char>) -> (r: Vec<Vec<char>>)
    ensures
        r@.map_values(|t: Vec<char>| t@) == quoted_tokens(v@, 0, false, Seq::empty()),
{
    let mut out: Vec<Vec<char>> = Vec::new();
    let mut cur: Vec<char> = Vec::new();
    let mut in_quotes = false;
    let mut i: usize = 0;
    while i < v.len()
        invariant
            i <= v.len(),
            quoted_tokens(v@, 0, false, Seq::empty()) == out@.map_values(|t: Vec<char>| t@)
                + quoted_tokens(v@, i as int, in_quotes, cur@),
        decreases v.len() - i,
    {
        let c = v[i];
        if c == '"' {
            in_quotes = !in_quotes;
        } else if is_whitespace(c) && !in_quotes {
            if cur.len() > 0 {
                let ghost before = out@.map_values(|t: Vec<char>| t@);
                let ghost cv = cur@;
                let t = cur;
                cur = Vec::new();
                out.push(t);
                assert(out@.map_values(|t: Vec<char>| t@) =~= before.push(cv));
                assert(before + (seq![cv] + quoted_tokens(v@, i + 1, in_quotes, Seq::empty())) =~= before.push(cv)
                    + quoted_tokens(v@, i + 1, in_quotes, Seq::empty()));
            } else {
                assert(Seq::<Seq<char>>::empty() + quoted_tokens(v@, i + 1, in_quotes, Seq::empty())
                    =~= quoted_tokens(v@, i + 1, in_quotes, Seq::empty()));
            }
            assert(cur@ =~= Seq::<char>::empty());
        } else {
            cur.push(c);
        }
        i = i + 1;
    }
    if cur.len() > 0 {
        let ghost before = out@.map_values(|t: Vec<char>| t@);
        let ghost cv = cur@;
        out.push(cur);
        assert(out@.map_values(|t: Vec<char>| t@) =~= before.push(cv));
        assert(before + seq![cv] =~= before.push(cv));
    } else {
        assert(out@.map_values(|t: Vec<char>| t@) + Seq::empty() =~= out@.map_values(|t: Vec<char>| t@));
    }
    out
}

impl ParsedQuery {
    pub open spec fn spec_view(&self) -> (Seq<char>, Seq<Seq<char>>, Seq<(VaultPathKind, Seq<char>)>) {
        (self.text@, self.tags@.map_values(|s: String| s@), self.folders@.map_values(|p: VaultPath| p@))
    }

    /// Splits `raw` into tokens (double quotes group words and are dropped), takes
    /// `tag:` and `folder:` tokens as filters and joins the rest as the text.
    pub fn parse(raw: &str) -> (r: ParsedQuery)
        ensures
            r.spec_view() == parsed_query_spec(raw@),
    {
        let v = chars_of(raw);
        let tokens = tokenize_query(&v);
        let ghost toks = tokens@.map_values(|t: Vec<char>| t@);
        let ghost parts = toks.map_values(|t: Seq<char>| classify_token(t));
        let tag_p = chars_of("tag:");
        let folder_p = chars_of("folder:");
        proof {
            reveal_strlit("tag:");
            reveal_strlit("folder:");
        }
        let mut g = Gathered::new();
        let mut k: usize = 0;
        while k < tokens.len()
            invariant
                k <= tokens.len(),
                toks == tokens@.map_values(|t: Vec<char>| t@),
                parts == toks.map_values(|t: Seq<char>| classify_token(t)),
                tag_p@ == "tag:"@,
                folder_p@ == "folder:"@,
                g.views() == assemble(parts.take(k as int)),
            decreases tokens.len() - k,
        {
            let t = &tokens[k];
            proof {
                reveal_strlit("tag:");
                reveal_strlit("folder:");
            }
            assert(parts.take(k + 1) =~= parts.take(k as int).push(parts[k as int]));
            assert(toks[k as int] == t@);
            if match_at_exec(t, 0, &tag_p) {
                assert(crate::text::starts_with(t@, "tag:"@));
                assert(t@.skip(4) =~= t@.subrange(4, t@.len() as int));
                g.add(PartKind::Tag, t, 4, t.len(), Ghost(parts.take(k as int)));
            } else if match_at_exec(t, 0, &folder_p) {
                assert(!crate::text::starts_with(t@, "tag:"@));
                assert(t@.skip(7) =~= t@.subrange(7, t@.len() as int));
                g.add(PartKind::Folder, t, 7, t.len(), Ghost(parts.take(k as int)));
            } else {
                assert(t@.subrange(0, t@.len() as int) =~= t@);
                g.add(PartKind::Text, t, 0, t.len(), Ghost(parts.take(k as int)));
            }
            k = k + 1;
        }
        assert(parts.take(k as int) =~= parts);
        let text = join_with_spaces(&g.text_parts);
        ParsedQuery { text, tags: g.tags, folders: g.folders }
    }
}

impl From<&str> for ParsedQuery {
    fn from(raw: &str) -> (r: ParsedQuery)
        ensures
            r.spec_view() == parsed_query_spec(raw@),
    {
        ParsedQuery::parse(raw)
    }
}

impl vstd::std_specs::convert::FromSpecImpl<&str> for ParsedQuery {
    open spec fn obeys_from_spec() -> bool {
        false
    }

    /// Not used: `from` is `ParsedQuery::parse`, whose contract states the result.
    closed spec fn from_spec(raw: &str) -> ParsedQuery {
        vstd::pervasive::arbitrary()
    }
}

impl From<String> for ParsedQuery {
    fn from(raw: String) -> (r: ParsedQuery)
        ensures
            r.spec_view() == parsed_query_spec(raw@),
    {
        ParsedQuery::parse(raw.as_str())
    }
}

impl vstd::std_specs::convert::FromSpecImpl<String> for ParsedQuery {
    open spec fn obeys_from_spec() -> bool {
        false
    }

    /// Not used: `from` is `ParsedQuery::parse`, whose contract states the result.
    closed spec fn from_spec(raw: String) -> ParsedQuery {
        vstd::pervasive::arbitrary()
    }
}

} // verus!
