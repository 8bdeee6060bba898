//! The choices a tool call makes before it touches the vault: which folder it
//! names, which replacement or write mode it asks for, whether its query says
//! anything, and the text of a note written with frontmatter.
use vstd::prelude::*;

use crate::query::ParsedQuery;
use crate::text::{chars_of, is_ws, owned, trim_end_char};
use crate::vault_path::{vault_path_spec, VaultPath, VaultPathError};

verus! {

/// The folder path a tool names: its text without trailing `/`, then one `/`.
pub open spec fn folder_text(f: Seq<char>) -> Seq<char> {
    trim_end_char(f, '/').push('/')
}

/// The folder a tool call names, if any.
pub fn parse_folder(folder: Option<&str>) -> (r: Result<Option<VaultPath>, VaultPathError>)
    ensures
        match folder {
            None => r matches Ok(None),
            Some(f) => match vault_path_spec(folder_text(f@)) {
                Ok(k) => r matches Ok(Some(p)) && p@ == k,
                Err(fault) => r matches Err(e) && e.fault() == fault,
            },
        },
{
    match folder {
        None => Ok(None),
        Some(f) => {
            let v = chars_of(f);
            let e = crate::text::trim_end_bound(&v, 0, v.len(), '/');
            assert(v@.subrange(0, v.len() as int) =~= v@);
            let mut t = crate::text::string_from(&v, 0, e);
            t.push('/');
            match VaultPath::new(t.as_str()) {
                Ok(p) => Ok(Some(p)),
                Err(err) => Err(err),
            }
        },
    }
}

/// How a replacement in a note is made.
#[derive(Debug, Clone, Copy, PartialEq, Eq, Structural)]
pub enum ReplaceMode {
    /// The first occurrence, literally.
    First,
    /// Every occurrence, literally.
    All,
    /// Every match of a regular expression.
    Regex,
}

/// The replacement mode a tool call asks for: `first` (also when none is
/// given), `all` or `regex`; any other word is refused with its message.
pub fn parse_replace_mode(mode: Option<&str>) -> (r: Result<ReplaceMode, String>)
    ensures
        match mode {
            None => r == Ok::<ReplaceMode, String>(ReplaceMode::First),
            Some(m) => if m@ == "first"@ {
                r == Ok::<ReplaceMode, String>(ReplaceMode::First)
            } else if m@ == "all"@ {
                r == Ok::<ReplaceMode, String>(ReplaceMode::All)
            } else if m@ == "regex"@ {
                r == Ok::<ReplaceMode, String>(ReplaceMode::Regex)
            } else {
                r matches Err(msg) && msg@ == "invalid mode: "@ + m@ + " (expected: first, all, or regex)"@
            },
        },
{
    match mode {
        None => Ok(ReplaceMode::First),
        Some(m) => {
            if str_is(m, "first") {
                Ok(ReplaceMode::First)
            } else if str_is(m, "all") {
                Ok(ReplaceMode::All)
            } else if str_is(m, "regex") {
                Ok(ReplaceMode::Regex)
            } else {
                let mut s = owned("invalid mode: ");
                s.append(m);
                s.append(" (expected: first, all, or regex)");
                Err(s)
            }
        },
    }
}

/// How a note is written.
#[derive(Debug, Clone, Copy, PartialEq, Eq, Structural)]
pub enum WriteMode {
    /// The content replaces the note (with the revision check).
    Replace,
    /// The content is added at the end.
    Append,
}

/// The write mode a tool call asks for: `replace` (also when none is given) or
/// `append`; any other word is refused with its message.
pub fn parse_write_mode(mode: Option<&str>) -> (r: Result<WriteMode, String>)
    ensures
        match mode {
            None => r == Ok::<WriteMode, String>(WriteMode::Replace),
            Some(m) => if m@ == "replace"@ {
                r == Ok::<WriteMode, String>(WriteMode::Replace)
            } else if m@ == "append"@ {
                r == Ok::<WriteMode, String>(WriteMode::Append)
            } else {
                r matches Err(msg) && msg@ == "invalid mode: "@ + m@ + " (expected: replace or append)"@
            },
        },
{
    match mode {
        None => Ok(WriteMode::Replace),
        Some(m) => {
            if str_is(m, "replace") {
                Ok(WriteMode::Replace)
            } else if str_is(m, "append") {
                Ok(WriteMode::Append)
            } else {
                let mut s = owned("invalid mode: ");
                s.append(m);
                s.append(" (expected: replace or append)");
                Err(s)
            }
        },
    }
}

fn str_is(a: &str, lit: &str) -> (b: bool)
    ensures
        b == (a@ == lit@),
{
    let v = chars_of(a);
    assert(v@.subrange(0, v.len() as int) =~= v@);
    crate::text::range_is(&v, 0, v.len(), lit)
}

/// The text of a note written with a frontmatter block: the block, a newline,
/// then the content.
pub fn with_frontmatter(frontmatter: &str, content: &str) -> (r: String)
    ensures
        r@ == frontmatter@ + seq!['\n'] + content@,
{
    let mut s = owned(frontmatter);
    s.push('\n');
    s.append(content);
    s
}

/// Every character is whitespace.
pub open spec fn blank_text(s: Seq<char>) -> bool {
    forall|i: int| 0 <= i < s.len() ==> is_ws(#[trigger] s[i])
}

/// Whether a query says anything: text that is not all whitespace, a tag or a folder.
pub open spec fn query_says_something(q: ParsedQuery) -> bool {
    !blank_text(q.text@) || q.tags@.len() > 0 || q.folders@.len() > 0
}

/// What the search tool does with its query.
pub enum SearchPlan {
    /// No query, or one that says nothing: list the vault's notes.
    ListNotes,
    /// Search with this query.
    Search(ParsedQuery),
}

/// The plan of a search: with no query, or one that says nothing, the notes
/// are listed; otherwise the query is searched for.
pub fn effective_query(query: Option<ParsedQuery>) -> (r: SearchPlan)
    ensures
        match query {
            Some(q) => if query_says_something(q) {
                r == SearchPlan::Search(q)
            } else {
                r is ListNotes
            },
            None => r is ListNotes,
        },
{
    match query {
        None => SearchPlan::ListNotes,
        Some(q) => {
            let v = chars_of(q.text.as_str());
            let mut i: usize = 0;
            let mut blank = true;
            while i < v.len()
                invariant
                    i <= v@.len(),
                    blank == (forall|j: int| 0 <= j < i ==> is_ws(#[trigger] v@[j])),
                decreases v.len() - i,
            {
                if !crate::text::is_whitespace(v[i]) {
                    blank = false;
                }
                i = i + 1;
            }
            if !blank || q.tags.len() > 0 || q.folders.len() > 0 {
                SearchPlan::Search(q)
            } else {
                SearchPlan::ListNotes
            }
        },
    }
}

} // verus!
