//! Search queries as the search tool reads them: `tag:` and `folder:` filters whose
//! values may be double-quoted, quoted free text, and plain words.
use vstd::prelude::*;

use crate::query::{assemble, join_spaces, join_with_spaces, Gathered, PartKind};
use crate::scan::{find_char, find_char_exec, lemma_find_char_bounds, match_at, match_at_exec};
use crate::text::{chars_of, is_whitespace, is_ws};
use crate::vault_path::{VaultPath, VaultPathKind};
use crate::words::{lemma_word_end_bounds, word_end, word_end_exec};

verus! {

/// The end of a quoted value whose text starts at `a`: after the closing `"`,
/// or the end of the text when the quote is not closed.
pub open spec fn quoted_end(s: Seq<char>, a: int) -> int {
    if find_char(s, a, '"') < s.len() {
        find_char(s, a, '"') + 1
    } else {
        s.len() as int
    }
}

/// The filter or text piece read at `i` (a non-whitespace position), and where it ends.
///
/// In order of preference: `tag:"value"` (closing quote optional), `tag:value`,
/// `folder:"value"`, `folder:value`, `"text"` (closing quote optional), and a word.
pub open spec fn piece_at(s: Seq<char>, i: int) -> (PartKind, Seq<char>, int) {
    if match_at(s, i, "tag:\""@) {
        (PartKind::Tag, s.subrange(i + 5, find_char(s, i + 5, '"')), quoted_end(s, i + 5))
    } else if match_at(s, i, "tag:"@) && i + 4 < s.len() && !is_ws(s[i + 4]) {
        (PartKind::Tag, s.subrange(i + 4, word_end(s, i + 4)), word_end(s, i + 4))
    } else if match_at(s, i, "folder:\""@) {
        (PartKind::Folder, s.subrange(i + 8, find_char(s, i + 8, '"')), quoted_end(s, i + 8))
    } else if match_at(s, i, "folder:"@) && i + 7 < s.len() && !is_ws(s[i + 7]) {
        (PartKind::Folder, s.subrange(i + 7, word_end(s, i + 7)), word_end(s, i + 7))
    } else if s[i] == '"' {
        (PartKind::Text, s.subrange(i + 1, find_char(s, i + 1, '"')), quoted_end(s, i + 1))
    } else {
        (PartKind::Text, s.subrange(i, word_end(s, i)), word_end(s, i))
    }
}

proof fn lemma_piece_at_bounds(s: Seq<char>, i: int)
    requires
        0 <= i < s.len(),
        !is_ws(s[i]),
    ensures
        i < piece_at(s, i).2 <= s.len(),
{
    reveal_strlit("tag:\"");
    reveal_strlit("tag:");
    reveal_strlit("folder:\"");
    reveal_strlit("folder:");
    lemma_word_end_bounds(s, i);
    if i + 4 <= s.len() {
        lemma_word_end_bounds(s, i + 4);
    }
    if i + 7 <= s.len() {
        lemma_word_end_bounds(s, i + 7);
    }
    if i + 5 <= s.len() {
        lemma_find_char_bounds(s, i + 5, '"');
    }
    if i + 8 <= s.len() {
        lemma_find_char_bounds(s, i + 8, '"');
    }
    lemma_find_char_bounds(s, i + 1, '"');
}

/// The pieces of `s[i..]`, in order; whitespace between them is skipped.
pub open spec fn pieces_from(s: Seq<char>, i: int) -> Seq<(PartKind, Seq<char>)>
    decreases s.len() - i,
{
    if i < 0 || i >= s.len() {
        Seq::empty()
    } else if is_ws(s[i]) {
        pieces_from(s, i + 1)
    } else if i < piece_at(s, i).2 <= s.len() {
        seq![(piece_at(s, i).0, piece_at(s, i).1)] + pieces_from(s, piece_at(s, i).2)
    } else {
        Seq::empty()
    }
}

/// What parsing a `SearchQuery` gives: text, tags and folders.
pub open spec fn search_query_spec(raw: Seq<char>) -> (Seq<char>, Seq<Seq<char>>, Seq<(VaultPathKind, Seq<char>)>) {
    let g = assemble(pieces_from(raw, 0));
    (join_spaces(g.0), g.1, g.2)
}

/// A search query with its filters taken out.
#[derive(Debug, Clone, Default, PartialEq, Eq)]
pub struct SearchQuery {
    /// The free-text pieces joined with single spaces.
    pub text: String,
    /// Values of `tag:` filters.
    pub tags: Vec<String>,
    /// Folders of `folder:` filters.
    pub folders: Vec<VaultPath>,
}

impl SearchQuery {
    pub open spec fn spec_view(&self) -> (Seq<char>, Seq<Seq<char>>, Seq<(VaultPathKind, Seq<char>)>) {
        (self.text@, self.tags@.map_values(|s: String| s@), self.folders@.map_values(|p: VaultPath| p@))
    }

    /// Reads `raw` piece by piece: `tag:` and `folder:` values (quoted ones may hold
    /// spaces) become filters, empty values are dropped, folders get a trailing `/` and
    /// are kept when they are vault paths; the text pieces are joined with single spaces.
    pub fn parse(raw: &str) -> (r: SearchQuery)
        ensures
            r.spec_view() == search_query_spec(raw@),
    {
        let v = chars_of(raw);
        let n = v.len();
        let tag_q = chars_of("tag:\"");
        let tag_p = chars_of("tag:");
        let folder_q = chars_of("folder:\"");
        let folder_p = chars_of("folder:");
        let mut g = Gathered::new();
        let ghost mut parts: Seq<(PartKind, Seq<char>)> = Seq::empty();
        let mut i: usize = 0;
        while i < n
            invariant
                i <= n == v.len(),
                tag_q@ == "tag:\""@,
                tag_p@ == "tag:"@,
                folder_q@ == "folder:\""@,
                folder_p@ == "folder:"@,
                pieces_from(v@, 0) == parts + pieces_from(v@, i as int),
                g.views() == assemble(parts),
            decreases n - i,
        {
            proof {
                reveal_strlit("tag:\"");
                reveal_strlit("tag:");
                reveal_strlit("folder:\"");
                reveal_strlit("folder:");
            }
            if is_whitespace(v[i]) {
                i = i + 1;
            } else {
                let ghost p = piece_at(v@, i as int);
                proof {
                    lemma_piece_at_bounds(v@, i as int);
                }
                let kind: PartKind;
                let lo: usize;
                let hi: usize;
                let end: usize;
                if match_at_exec(&v, i, &tag_q) {
                    kind = PartKind::Tag;
                    lo = i + 5;
                    hi = find_char_exec(&v, lo, '"');
                    end = if hi < n { hi + 1 } else { n };
                } else if match_at_exec(&v, i, &tag_p) && i + 4 < n && !is_whitespace(v[i + 4]) {
                    kind = PartKind::Tag;
                    lo = i + 4;
                    hi = word_end_exec(&v, lo);
                    end = hi;
                } else if match_at_exec(&v, i, &folder_q) {
                    kind = PartKind::Folder;
                    lo = i + 8;
                    hi = find_char_exec(&v, lo, '"');
                    end = if hi < n { hi + 1 } else { n };
                } else if match_at_exec(&v, i, &folder_p) && i + 7 < n && !is_whitespace(v[i + 7]) {
                    kind = PartKind::Folder;
                    lo = i + 7;
                    hi = word_end_exec(&v, lo);
                    end = hi;
                } else if v[i] == '"' {
                    kind = PartKind::Text;
                    lo = i + 1;
                    hi = find_char_exec(&v, lo, '"');
                    end = if hi < n { hi + 1 } else { n };
                } else {
                    kind = PartKind::Text;
                    lo = i;
                    hi = word_end_exec(&v, lo);
                    end = hi;
                }
                assert(kind == p.0 && v@.subrange(lo as int, hi as int) == p.1 && end == p.2);
                g.add(kind, &v, lo, hi, Ghost(parts));
                proof {
                    assert(parts.push((p.0, p.1)) + pieces_from(v@, end as int) =~= parts + pieces_from(v@, i as int));
                    parts = parts.push((p.0, p.1));
                }
                i = end;
            }
        }
        assert(parts + Seq::empty() =~= parts);
        let text = join_with_spaces(&g.text_parts);
        SearchQuery { text, tags: g.tags, folders: g.folders }
    }
}

impl From<&str> for SearchQuery {
    fn from(raw: &str) -> (r: SearchQuery)
        ensures
            r.spec_view() == search_query_spec(raw@),
    {
        SearchQuery::parse(raw)
    }
}

impl vstd::std_specs::convert::FromSpecImpl<&str> for SearchQuery {
    open spec fn obeys_from_spec() -> bool {
        false
    }

    /// Not used: `from` states its result through `search_query_spec`.
    closed spec fn from_spec(raw: &str) -> SearchQuery {
        vstd::pervasive::arbitrary()
    }
}

impl From<String> for SearchQuery {
    fn from(raw: String) -> (r: SearchQuery)
        ensures
            r.spec_view() == search_query_spec(raw@),
    {
        SearchQuery::parse(raw.as_str())
    }
}

impl vstd::std_specs::convert::FromSpecImpl<String> for SearchQuery {
    open spec fn obeys_from_spec() -> bool {
        false
    }

    /// Not used: `from` states its result through `search_query_spec`.
    closed spec fn from_spec(raw: String) -> SearchQuery {
        vstd::pervasive::arbitrary()
    }
}

} // verus!
