//! Which resource a `tarn://` URI names.
use vstd::prelude::*;

use crate::scan::find_char;
use crate::text::{chars_of, string_from};

verus! {

/// The resources of the server.
#[derive(Debug, PartialEq, Eq)]
pub enum ResourceRoute {
    /// `tarn://vault/info`, or `tarn://vault/info/<folder>`.
    VaultInfo(Option<String>),
    /// `tarn://vault/tags`, or `tarn://vault/tags/<folder>`.
    VaultTags(Option<String>),
    /// `tarn://vault/folders`, or `tarn://vault/folders/<folder>`.
    VaultFolders(Option<String>),
    /// `tarn://note/<path>`.
    Note(String),
    /// `tarn://note/<path>#<section path>`.
    Section(String, String),
}

/// A route as plain values.
pub enum RouteView {
    VaultInfo(Option<Seq<char>>),
    VaultTags(Option<Seq<char>>),
    VaultFolders(Option<Seq<char>>),
    Note(Seq<char>),
    Section(Seq<char>, Seq<char>),
}

pub open spec fn opt_text(o: Option<String>) -> Option<Seq<char>> {
    match o {
        Some(s) => Some(s@),
        None => None,
    }
}

impl View for ResourceRoute {
    type V = RouteView;

    open spec fn view(&self) -> RouteView {
        match self {
            ResourceRoute::VaultInfo(f) => RouteView::VaultInfo(opt_text(*f)),
            ResourceRoute::VaultTags(f) => RouteView::VaultTags(opt_text(*f)),
            ResourceRoute::VaultFolders(f) => RouteView::VaultFolders(opt_text(*f)),
            ResourceRoute::Note(p) => RouteView::Note(p@),
            ResourceRoute::Section(p, s) => RouteView::Section(p@, s@),
        }
    }
}

pub open spec fn scheme_text() -> Seq<char> {
    seq!['t', 'a', 'r', 'n', ':', '/', '/']
}

/// The route of a vault resource named by `kind` with an optional folder.
pub open spec fn vault_route(kind: Seq<char>, folder: Option<Seq<char>>) -> Option<RouteView> {
    if kind == "info"@ {
        Some(RouteView::VaultInfo(folder))
    } else if kind == "tags"@ {
        Some(RouteView::VaultTags(folder))
    } else if kind == "folders"@ {
        Some(RouteView::VaultFolders(folder))
    } else {
        None
    }
}

/// The route of a note path, split at its first `#` into a section.
pub open spec fn note_route(path: Seq<char>) -> RouteView {
    let h = find_char(path, 0, '#');
    if h < path.len() {
        RouteView::Section(path.take(h), path.skip(h + 1))
    } else {
        RouteView::Note(path)
    }
}

/// What a URI names: after `tarn://`, the path is cut at its first two `/` into
/// at most three segments; `vault` with `info`, `tags` or `folders` (and a
/// folder as third segment), or `note` followed by a note path.
pub open spec fn route_spec(uri: Seq<char>) -> Option<RouteView> {
    if !(uri.len() >= 7 && uri.take(7) == scheme_text()) {
        None
    } else {
        let rest = uri.skip(7);
        let i1 = find_char(rest, 0, '/');
        let first = rest.take(i1);
        if first == "note"@ {
            Some(note_route(if i1 < rest.len() { rest.skip(i1 + 1) } else { Seq::empty() }))
        } else if first == "vault"@ && i1 < rest.len() {
            let tail = rest.skip(i1 + 1);
            let i2 = find_char(tail, 0, '/');
            if i2 < tail.len() {
                vault_route(tail.take(i2), Some(tail.skip(i2 + 1)))
            } else {
                vault_route(tail, None)
            }
        } else {
            None
        }
    }
}

fn range_text_is(v: &Vec<char>, lo: usize, hi: usize, lit: &str) -> (b: bool)
    requires
        lo <= hi <= v.len(),
    ensures
        b == (v@.subrange(lo as int, hi as int) == lit@),
{
    crate::text::range_is(v, lo, hi, lit)
}

/// The resource `uri` names, if any.
pub fn route_resource(uri: &str) -> (r: Option<ResourceRoute>)
    ensures
        match r {
            Some(route) => route_spec(uri@) == Some(route@),
            None => route_spec(uri@) is None,
        },
{
    proof {
        reveal_strlit("tarn://");
    }
    let v = chars_of(uri);
    let n = v.len();
    assert("tarn://"@ =~= scheme_text());
    if n < 7 || !crate::text::range_is(&v, 0, 7, "tarn://") {
        assert(n >= 7 ==> v@.take(7) =~= v@.subrange(0, 7));
        return None;
    }
    assert(v@.take(7) =~= v@.subrange(0, 7));
    let ghost rest = v@.skip(7);
    proof {
        crate::scan::lemma_find_char_bounds(v@, 7, '/');
        lemma_find_char_from(v@, 7, '/');
    }
    let i1 = crate::scan::find_char_exec(&v, 7, '/');
    assert(rest.take(i1 - 7) =~= v@.subrange(7, i1 as int));
    if range_text_is(&v, 7, i1, "note") {
        let path = if i1 < n { string_from(&v, i1 + 1, n) } else { String::new() };
        assert(i1 < n ==> path@ =~= rest.skip(i1 - 7 + 1));
        return Some(note_route_exec(path));
    }
    if range_text_is(&v, 7, i1, "vault") && i1 < n {
        let ghost tail = rest.skip(i1 - 7 + 1);
        assert(tail =~= v@.skip(i1 + 1));
        proof {
            crate::scan::lemma_find_char_bounds(v@, i1 + 1, '/');
            lemma_find_char_from(v@, i1 + 1, '/');
        }
        let i2 = crate::scan::find_char_exec(&v, i1 + 1, '/');
        let folder = if i2 < n {
            assert(tail.skip(i2 - (i1 + 1) + 1) =~= v@.subrange(i2 + 1, n as int));
            Some(string_from(&v, i2 + 1, n))
        } else {
            None
        };
        assert(tail.take(i2 - (i1 + 1)) =~= v@.subrange(i1 + 1, i2 as int));
        assert(i2 == n ==> tail =~= v@.subrange(i1 + 1, i2 as int));
        proof {
            reveal_strlit("info");
            reveal_strlit("tags");
            reveal_strlit("folders");
        }
        if range_text_is(&v, i1 + 1, i2, "info") {
            return Some(ResourceRoute::VaultInfo(folder));
        } else if range_text_is(&v, i1 + 1, i2, "tags") {
            return Some(ResourceRoute::VaultTags(folder));
        } else if range_text_is(&v, i1 + 1, i2, "folders") {
            return Some(ResourceRoute::VaultFolders(folder));
        }
        return None;
    }
    None
}

fn note_route_exec(path: String) -> (r: ResourceRoute)
    ensures
        r@ == note_route(path@),
{
    let v = chars_of(path.as_str());
    proof {
        crate::scan::lemma_find_char_bounds(v@, 0, '#');
    }
    let h = crate::scan::find_char_exec(&v, 0, '#');
    if h < v.len() {
        let note = string_from(&v, 0, h);
        let section = string_from(&v, h + 1, v.len());
        assert(note@ =~= v@.take(h as int));
        assert(section@ =~= v@.skip(h + 1));
        ResourceRoute::Section(note, section)
    } else {
        ResourceRoute::Note(path)
    }
}

/// Searching `t` from `k` is searching `t[k..]` from 0, shifted.
proof fn lemma_find_char_from(t: Seq<char>, k: int, c: char)
    requires
        0 <= k <= t.len(),
    ensures
        find_char(t, k, c) == k + find_char(t.skip(k), 0, c),
    decreases t.len() - k,
{
    if k < t.len() && t[k] != c {
        lemma_find_char_from(t, k + 1, c);
        lemma_find_char_from(t.skip(k), 1, c);
        assert(t.skip(k).skip(1) =~= t.skip(k + 1));
    }
}

} // verus!
