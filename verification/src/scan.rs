//! Position-based scanning over character sequences: the building blocks of the
//! note grammars (code spans, wikilinks, tags, links, headings, tasks).
use vstd::prelude::*;

use crate::text::{is_whitespace, is_ws};

verus! {

/// `pat` occurs in `s` at index `i`.
pub open spec fn match_at(s: Seq<char>, i: int, pat: Seq<char>) -> bool {
    0 <= i && i + pat.len() <= s.len() && s.subrange(i, i + pat.len()) == pat
}

/// The first index at or after `from` where `pat` occurs in `s`, or `-1`.
pub open spec fn find_seq(s: Seq<char>, from: int, pat: Seq<char>) -> int
    decreases s.len() - from,
{
    if from < 0 || from >= s.len() || from + pat.len() > s.len() {
        -1
    } else if match_at(s, from, pat) {
        from
    } else {
        find_seq(s, from + 1, pat)
    }
}

/// The first index at or after `from` that holds `c`, or `s.len()`.
pub open spec fn find_char(s: Seq<char>, from: int, c: char) -> int
    decreases s.len() - from,
{
    if from >= s.len() {
        s.len() as int
    } else if from >= 0 && s[from] == c {
        from
    } else {
        find_char(s, from + 1, c)
    }
}

pub proof fn lemma_find_char_bounds(s: Seq<char>, from: int, c: char)
    requires
        0 <= from,
    ensures
        from <= find_char(s, from, c) <= s.len() || (from > s.len() && find_char(s, from, c) == s.len()),
        find_char(s, from, c) < s.len() ==> s[find_char(s, from, c)] == c,
        forall|j: int| from <= j < find_char(s, from, c) ==> s[j] != c,
    decreases s.len() - from,
{
    if from < s.len() && s[from] != c {
        lemma_find_char_bounds(s, from + 1, c);
    }
}

pub proof fn lemma_find_seq_bounds(s: Seq<char>, from: int, pat: Seq<char>)
    requires
        0 <= from,
    ensures
        find_seq(s, from, pat) == -1 || (from <= find_seq(s, from, pat) && match_at(
            s,
            find_seq(s, from, pat),
            pat,
        )),
    decreases s.len() - from,
{
    if from < s.len() && from + pat.len() <= s.len() && !match_at(s, from, pat) {
        lemma_find_seq_bounds(s, from + 1, pat);
    }
}

/// Whether `pat` occurs in `v` at `i`.
pub fn match_at_exec(v: &Vec<char>, i: usize, pat: &Vec<char>) -> (b: bool)
    ensures
        b == match_at(v@, i as int, pat@),
{
    if i > v.len() || pat.len() > v.len() - i {
        return false;
    }
    let r = crate::text::range_eq(v, i, i + pat.len(), pat, 0, pat.len());
    assert(pat@.subrange(0, pat@.len() as int) =~= pat@);
    r
}

/// The first index at or after `from` where `pat` occurs in `v`.
pub fn find_seq_exec(v: &Vec<char>, from: usize, pat: &Vec<char>) -> (r: Option<usize>)
    ensures
        match r {
            Some(k) => find_seq(v@, from as int, pat@) == k,
            None => find_seq(v@, from as int, pat@) == -1,
        },
{
    let mut i = from;
    while i < v.len() && pat.len() <= v.len() - i
        invariant
            from <= i,
            find_seq(v@, from as int, pat@) == find_seq(v@, i as int, pat@),
        decreases v.len() - i,
    {
        if match_at_exec(v, i, pat) {
            return Some(i);
        }
        i = i + 1;
    }
    None
}

/// The first index at or after `from` that holds `c`, or `v.len()`.
pub fn find_char_exec(v: &Vec<char>, from: usize, c: char) -> (r: usize)
    ensures
        r == find_char(v@, from as int, c),
        from <= v.len() ==> from <= r <= v.len(),
        from > v.len() ==> r == v.len(),
{
    let mut i = from;
    while i < v.len() && v[i] != c
        invariant
            from <= i,
            find_char(v@, from as int, c) == find_char(v@, i as int, c),
        decreases v.len() - i,
    {
        i = i + 1;
    }
    if i >= v.len() {
        v.len()
    } else {
        i
    }
}

/// `c` is one of `stops`, or whitespace when `ws` is set: the characters a
/// negated class such as `[^)\s]` refuses.
pub open spec fn stops_at(c: char, stops: Seq<char>, ws: bool) -> bool {
    stops.contains(c) || (ws && is_ws(c))
}

/// The end of the run, starting at `from`, of characters that do not stop it.
pub open spec fn span_end(s: Seq<char>, from: int, stops: Seq<char>, ws: bool) -> int
    decreases s.len() - from,
{
    if 0 <= from < s.len() && !stops_at(s[from], stops, ws) {
        span_end(s, from + 1, stops, ws)
    } else {
        from
    }
}

pub proof fn lemma_span_end_bounds(s: Seq<char>, from: int, stops: Seq<char>, ws: bool)
    requires
        0 <= from <= s.len(),
    ensures
        from <= span_end(s, from, stops, ws) <= s.len(),
        span_end(s, from, stops, ws) < s.len() ==> stops_at(s[span_end(s, from, stops, ws)], stops, ws),
        forall|j: int| from <= j < span_end(s, from, stops, ws) ==> !stops_at(#[trigger] s[j], stops, ws),
    decreases s.len() - from,
{
    if from < s.len() && !stops_at(s[from], stops, ws) {
        lemma_span_end_bounds(s, from + 1, stops, ws);
    }
}

/// A run that holds no stopping character and is followed by one (or by the end)
/// ends there.
pub proof fn lemma_span_end_is(s: Seq<char>, from: int, e: int, stops: Seq<char>, ws: bool)
    requires
        0 <= from <= e <= s.len(),
        forall|j: int| from <= j < e ==> !stops_at(#[trigger] s[j], stops, ws),
        e < s.len() ==> stops_at(s[e], stops, ws),
    ensures
        span_end(s, from, stops, ws) == e,
    decreases e - from,
{
    if from < e {
        lemma_span_end_is(s, from + 1, e, stops, ws);
    }
}

/// Whether `c` stops a run (see `stops_at`).
pub fn stops_at_exec(c: char, stops: &Vec<char>, ws: bool) -> (b: bool)
    ensures
        b == stops_at(c, stops@, ws),
{
    let mut k: usize = 0;
    while k < stops.len()
        invariant
            k <= stops.len(),
            forall|j: int| 0 <= j < k ==> stops@[j] != c,
        decreases stops.len() - k,
    {
        if stops[k] == c {
            assert(stops@.contains(c));
            return true;
        }
        k = k + 1;
    }
    ws && is_whitespace(c)
}

/// The end of the run of `v` from `from` (see `span_end`).
pub fn span_end_exec(v: &Vec<char>, from: usize, stops: &Vec<char>, ws: bool) -> (e: usize)
    requires
        from <= v.len(),
    ensures
        e == span_end(v@, from as int, stops@, ws),
        from <= e <= v.len(),
{
    let mut e = from;
    while e < v.len() && !stops_at_exec(v[e], stops, ws)
        invariant
            from <= e <= v.len(),
            span_end(v@, from as int, stops@, ws) == span_end(v@, e as int, stops@, ws),
        decreases v.len() - e,
    {
        e = e + 1;
    }
    e
}

/// The first `c` at or after `from`, where `s[from..i]` holds none, is at `i`.
pub proof fn lemma_find_char_is(s: Seq<char>, from: int, i: int, c: char)
    requires
        0 <= from <= i <= s.len(),
        forall|j: int| from <= j < i ==> s[j] != c,
        i < s.len() ==> s[i] == c,
    ensures
        find_char(s, from, c) == i,
    decreases i - from,
{
    if from < i {
        lemma_find_char_is(s, from + 1, i, c);
    }
}

/// The end of the run of whitespace that starts at `i`.
pub open spec fn ws_end(s: Seq<char>, i: int) -> int
    decreases s.len() - i,
{
    if 0 <= i < s.len() && is_ws(s[i]) {
        ws_end(s, i + 1)
    } else {
        i
    }
}

pub proof fn lemma_ws_end_bounds(s: Seq<char>, i: int)
    requires
        0 <= i <= s.len(),
    ensures
        i <= ws_end(s, i) <= s.len(),
        ws_end(s, i) < s.len() ==> !is_ws(s[ws_end(s, i)]),
        forall|j: int| i <= j < ws_end(s, i) ==> is_ws(#[trigger] s[j]),
    decreases s.len() - i,
{
    if i < s.len() && is_ws(s[i]) {
        lemma_ws_end_bounds(s, i + 1);
    }
}

/// The end of the run of whitespace of `v` that starts at `i`.
pub fn ws_end_exec(v: &Vec<char>, i: usize) -> (e: usize)
    requires
        i <= v.len(),
    ensures
        e == ws_end(v@, i as int),
        i <= e <= v.len(),
{
    let mut e = i;
    while e < v.len() && is_whitespace(v[e])
        invariant
            i <= e <= v.len(),
            ws_end(v@, i as int) == ws_end(v@, e as int),
        decreases v.len() - e,
    {
        e = e + 1;
    }
    e
}

} // verus!
