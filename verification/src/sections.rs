//! Headings and the sections they delimit.
//!
//! A heading starts a line: one to six `#`, whitespace, the heading text, and
//! optionally whitespace and a closing run of `#`. The whitespace after the
//! opening `#`s may run over line ends, and so may a closing run: a heading is
//! read as one match of that grammar, and the matches of a text are found from
//! left to right, each search starting where the previous match ended.
use vstd::prelude::*;

use crate::extract::ExtractFrom;
use crate::lines::{line_spans, lines_of};
use crate::links::{distinct_links, link_views, links_of, Link, LinkView};
use crate::tags::{extracted_tags, Tag};
use crate::tasks::{tasks_from, Task, TaskStatus};
use crate::words::{word_count, words_of};
use crate::scan::{lemma_ws_end_bounds, ws_end, ws_end_exec};
use crate::text::{chars_of, is_whitespace, is_ws, string_from, sub_vec};

verus! {

/// The end of the run of `#` that starts at `i`.
pub open spec fn hash_end(s: Seq<char>, i: int) -> int
    decreases s.len() - i,
{
    if 0 <= i < s.len() && s[i] == '#' {
        hash_end(s, i + 1)
    } else {
        i
    }
}

proof fn lemma_hash_end_bounds(s: Seq<char>, i: int)
    requires
        0 <= i <= s.len(),
    ensures
        i <= hash_end(s, i) <= s.len(),
        hash_end(s, i) < s.len() ==> s[hash_end(s, i)] != '#',
        forall|j: int| i <= j < hash_end(s, i) ==> s[j] == '#',
    decreases s.len() - i,
{
    if i < s.len() && s[i] == '#' {
        lemma_hash_end_bounds(s, i + 1);
    }
}

/// At `e`: whitespace, then `#`s that reach the end of a line. Such a closing
/// sequence ends the heading text.
pub open spec fn closing_at(s: Seq<char>, e: int) -> bool {
    let r = ws_end(s, e);
    let he = hash_end(s, r);
    &&& 0 <= e < s.len()
    &&& is_ws(s[e])
    &&& r < s.len()
    &&& s[r] == '#'
    &&& (he == s.len() || s[he] == '\n')
}

/// The end of the heading text, looked for from `e` on: the first position
/// where a closing sequence starts or the line ends.
pub open spec fn text_end(s: Seq<char>, e: int) -> int
    decreases s.len() - e,
{
    if e < 0 || e >= s.len() || closing_at(s, e) || s[e] == '\n' {
        e
    } else {
        text_end(s, e + 1)
    }
}

proof fn lemma_text_end_bounds(s: Seq<char>, e: int)
    requires
        0 <= e <= s.len(),
    ensures
        e <= text_end(s, e) <= s.len(),
        forall|j: int| e <= j < text_end(s, e) ==> s[j] != '\n',
    decreases s.len() - e,
{
    if e < s.len() && !closing_at(s, e) && s[e] != '\n' {
        lemma_text_end_bounds(s, e + 1);
    }
}

/// The last index in `lo..hi` that holds no line end, or `lo - 1`.
pub open spec fn last_non_newline(s: Seq<char>, lo: int, hi: int) -> int
    decreases hi - lo,
{
    if hi <= lo {
        lo - 1
    } else if s[hi - 1] != '\n' {
        hi - 1
    } else {
        last_non_newline(s, lo, hi - 1)
    }
}

proof fn lemma_last_non_newline_bounds(s: Seq<char>, lo: int, hi: int)
    requires
        lo <= hi,
    ensures
        lo - 1 <= last_non_newline(s, lo, hi) < hi,
    decreases hi - lo,
{
    if hi > lo && s[hi - 1] == '\n' {
        lemma_last_non_newline_bounds(s, lo, hi - 1);
    }
}

/// The heading that starts at `p`: its level, where its text starts and ends,
/// and where the match ends.
///
/// After the opening `#`s and the longest run of whitespace, the text is the
/// shortest non-empty run up to a closing sequence or a line end. When only
/// whitespace follows, the text is its last character that is not a line end,
/// provided one follows the first whitespace character.
pub open spec fn heading_match(s: Seq<char>, p: int) -> Option<(int, int, int, int)> {
    let h = hash_end(s, p) - p;
    let w = ws_end(s, p + h);
    if !(0 <= p && 1 <= h <= 6 && p + h < s.len() && is_ws(s[p + h])) {
        None
    } else if w < s.len() {
        let e = text_end(s, w + 1);
        Some((h, w, e, if closing_at(s, e) { hash_end(s, ws_end(s, e)) } else { e }))
    } else {
        let x = last_non_newline(s, p + h + 1, s.len() as int);
        if x >= p + h + 1 {
            Some((h, x, x + 1, x + 1))
        } else {
            None
        }
    }
}

proof fn lemma_heading_match_bounds(s: Seq<char>, p: int)
    requires
        0 <= p <= s.len(),
    ensures
        heading_match(s, p) matches Some((h, a, b, e)) ==> 1 <= h <= 6 && p < a < b <= e <= s.len() && b
            <= s.len(),
{
    lemma_hash_end_bounds(s, p);
    let h = hash_end(s, p) - p;
    if 1 <= h <= 6 && p + h < s.len() && is_ws(s[p + h]) {
        lemma_ws_end_bounds(s, p + h);
        let w = ws_end(s, p + h);
        if w < s.len() {
            lemma_text_end_bounds(s, w + 1);
            let e = text_end(s, w + 1);
            if closing_at(s, e) {
                lemma_ws_end_bounds(s, e);
                lemma_hash_end_bounds(s, ws_end(s, e));
            }
        } else {
            lemma_last_non_newline_bounds(s, p + h + 1, s.len() as int);
        }
    }
}

fn hash_end_exec(v: &Vec<char>, i: usize) -> (e: usize)
    requires
        i <= v.len(),
    ensures
        e == hash_end(v@, i as int),
        i <= e <= v.len(),
{
    let mut e = i;
    while e < v.len() && v[e] == '#'
        invariant
            i <= e <= v.len(),
            hash_end(v@, i as int) == hash_end(v@, e as int),
        decreases v.len() - e,
    {
        e = e + 1;
    }
    e
}

fn closing_at_exec(v: &Vec<char>, e: usize) -> (b: bool)
    requires
        e <= v.len(),
    ensures
        b == closing_at(v@, e as int),
{
    if e >= v.len() || !is_whitespace(v[e]) {
        return false;
    }
    let r = ws_end_exec(v, e);
    if r >= v.len() || v[r] != '#' {
        return false;
    }
    let he = hash_end_exec(v, r);
    he == v.len() || v[he] == '\n'
}

fn text_end_exec(v: &Vec<char>, from: usize) -> (e: usize)
    requires
        from <= v.len(),
    ensures
        e == text_end(v@, from as int),
        from <= e <= v.len(),
{
    let mut e = from;
    while e < v.len() && !closing_at_exec(v, e) && v[e] != '\n'
        invariant
            from <= e <= v.len(),
            text_end(v@, from as int) == text_end(v@, e as int),
        decreases v.len() - e,
    {
        e = e + 1;
    }
    e
}

fn last_non_newline_exec(v: &Vec<char>, lo: usize, hi: usize) -> (x: Option<usize>)
    requires
        lo <= hi <= v.len(),
    ensures
        match x {
            Some(i) => last_non_newline(v@, lo as int, hi as int) == i && lo <= i < hi,
            None => last_non_newline(v@, lo as int, hi as int) == lo - 1,
        },
{
    let mut k = hi;
    while k > lo && v[k - 1] == '\n'
        invariant
            lo <= k <= hi <= v.len(),
            last_non_newline(v@, lo as int, hi as int) == last_non_newline(v@, lo as int, k as int),
        decreases k - lo,
    {
        k = k - 1;
    }
    if k > lo {
        Some(k - 1)
    } else {
        None
    }
}

/// The heading that starts at `p` (see `heading_match`).
fn heading_match_exec(v: &Vec<char>, p: usize) -> (r: Option<(usize, usize, usize, usize)>)
    requires
        p <= v.len(),
    ensures
        match r {
            Some((h, a, b, e)) => heading_match(v@, p as int) == Some((h as int, a as int, b as int, e as int)),
            None => heading_match(v@, p as int) is None,
        },
{
    proof {
        lemma_heading_match_bounds(v@, p as int);
    }
    let n = v.len();
    let he = hash_end_exec(v, p);
    let h = he - p;
    if !(1 <= h && h <= 6 && he < n && is_whitespace(v[he])) {
        return None;
    }
    let w = ws_end_exec(v, he);
    if w < n {
        let e = text_end_exec(v, w + 1);
        let end = if closing_at_exec(v, e) {
            let r = ws_end_exec(v, e);
            hash_end_exec(v, r)
        } else {
            e
        };
        Some((h, w, e, end))
    } else {
        match last_non_newline_exec(v, he + 1, n) {
            Some(x) => Some((h, x, x + 1, x + 1)),
            None => None,
        }
    }
}

// ---------------------------------------------------------------------------
// Headings
// ---------------------------------------------------------------------------

/// A heading: its level (the number of `#`) and its text.
#[derive(Debug, PartialEq, Eq)]
pub struct Heading {
    pub level: u8,
    pub text: String,
}

impl Clone for Heading {
    fn clone(&self) -> (r: Self)
        ensures
            r@ == self@,
    {
        Heading { level: self.level, text: self.text.clone() }
    }
}

impl View for Heading {
    type V = (int, Seq<char>);

    open spec fn view(&self) -> (int, Seq<char>) {
        (self.level as int, self.text@)
    }
}

/// The heading a line holds: its level and text.
pub open spec fn line_heading(l: Seq<char>) -> Option<(int, Seq<char>)> {
    match heading_match(l, 0) {
        Some((h, a, b, e)) => Some((h, l.subrange(a, b))),
        None => None,
    }
}

/// The heading of a text: the heading its first line holds.
pub open spec fn heading_of(s: Seq<char>) -> Option<(int, Seq<char>)> {
    if lines_of(s).len() == 0 {
        None
    } else {
        line_heading(lines_of(s)[0])
    }
}

pub open spec fn heading_view(h: Option<Heading>) -> Option<(int, Seq<char>)> {
    match h {
        Some(x) => Some(x@),
        None => None,
    }
}

/// The heading the line `l` holds: its level and text.
pub fn line_heading_exec(l: &Vec<char>) -> (r: Option<(u8, String)>)
    ensures
        match r {
            Some((h, t)) => line_heading(l@) == Some((h as int, t@)),
            None => line_heading(l@) is None,
        },
{
    proof {
        lemma_heading_match_bounds(l@, 0);
    }
    match heading_match_exec(l, 0) {
        Some((h, a, b, _)) => Some((h as u8, string_from(l, a, b))),
        None => None,
    }
}

/// The heading the first line of `v` holds.
fn heading_in(v: &Vec<char>) -> (r: Option<Heading>)
    ensures
        heading_view(r) == heading_of(v@),
{
    let spans = line_spans(v);
    if spans.len() == 0 {
        return None;
    }
    let line = sub_vec(v, spans[0].start, spans[0].end);
    match line_heading_exec(&line) {
        Some((level, text)) => Some(Heading { level, text }),
        None => None,
    }
}

impl ExtractFrom for Heading {
    type Output = Option<Heading>;

    /// The heading the first line of `text` holds, if any.
    fn extract_from(text: &str) -> (r: Option<Heading>)
        ensures
            heading_view(r) == heading_of(text@),
    {
        let v = chars_of(text);
        heading_in(&v)
    }
}

// ---------------------------------------------------------------------------
// Sections
// ---------------------------------------------------------------------------

/// `p` starts a line of `s`.
pub open spec fn line_start(s: Seq<char>, p: int) -> bool {
    p == 0 || (0 < p <= s.len() && s[p - 1] == '\n')
}

/// Where the headings of `s[i..]` start, leftmost first, each search resuming
/// where the previous heading's match ended.
pub open spec fn heading_starts(s: Seq<char>, i: int) -> Seq<int>
    decreases s.len() - i,
{
    if i < 0 || i >= s.len() {
        Seq::empty()
    } else if line_start(s, i) && heading_match(s, i) is Some && i < heading_match(s, i)->Some_0.3 <= s.len() {
        seq![i] + heading_starts(s, heading_match(s, i)->Some_0.3)
    } else {
        heading_starts(s, i + 1)
    }
}

proof fn lemma_heading_starts_sorted(s: Seq<char>, i: int)
    requires
        0 <= i,
    ensures
        forall|k: int| 0 <= k < heading_starts(s, i).len() ==> i <= #[trigger] heading_starts(s, i)[k] < s.len(),
        forall|k: int, l: int|
            0 <= k < l < heading_starts(s, i).len() ==> #[trigger] heading_starts(s, i)[k]
                < #[trigger] heading_starts(s, i)[l],
    decreases s.len() - i,
{
    if i < s.len() {
        if line_start(s, i) && heading_match(s, i) is Some && i < heading_match(s, i)->Some_0.3 <= s.len() {
            let e = heading_match(s, i)->Some_0.3;
            lemma_heading_starts_sorted(s, e);
            let r = heading_starts(s, e);
            assert(heading_starts(s, i) == seq![i] + r);
            assert forall|k: int| 0 <= k < heading_starts(s, i).len() implies i <= #[trigger] heading_starts(s, i)[k]
                < s.len() by {
                if k > 0 {
                    assert(heading_starts(s, i)[k] == r[k - 1]);
                }
            }
            assert forall|k: int, l: int|
                0 <= k < l < heading_starts(s, i).len() implies #[trigger] heading_starts(s, i)[k]
                < #[trigger] heading_starts(s, i)[l] by {
                assert(heading_starts(s, i)[l] == r[l - 1]);
                if k > 0 {
                    assert(heading_starts(s, i)[k] == r[k - 1]);
                }
            }
        } else {
            lemma_heading_starts_sorted(s, i + 1);
            assert(heading_starts(s, i) == heading_starts(s, i + 1));
        }
    }
}

/// Where the headings of `v` start, in order.
fn heading_starts_exec(v: &Vec<char>) -> (r: Vec<usize>)
    ensures
        r@.map_values(|p: usize| p as int) == heading_starts(v@, 0),
{
    let n = v.len();
    let mut out: Vec<usize> = Vec::new();
    let mut i: usize = 0;
    while i < n
        invariant
            i <= n == v.len(),
            heading_starts(v@, 0) == out@.map_values(|p: usize| p as int) + heading_starts(v@, i as int),
        decreases n - i,
    {
        if i == 0 || v[i - 1] == '\n' {
            match heading_match_exec(v, i) {
                Some((_, _, _, e)) => {
                    if i < e && e <= n {
                        let ghost before = out@.map_values(|p: usize| p as int);
                        out.push(i);
                        assert(out@.map_values(|p: usize| p as int) =~= before.push(i as int));
                        assert(before + (seq![i as int] + heading_starts(v@, e as int)) =~= before.push(i as int)
                            + heading_starts(v@, e as int));
                        i = e;
                        continue;
                    }
                },
                None => {},
            }
        }
        i = i + 1;
    }
    assert(out@.map_values(|p: usize| p as int) + Seq::<int>::empty() =~= out@.map_values(|p: usize| p as int));
    out
}

/// The pieces of `s` cut at the heading starts: before the first heading, then
/// from each heading to the next.
pub open spec fn pieces_of(s: Seq<char>) -> Seq<Seq<char>> {
    let st = heading_starts(s, 0);
    Seq::new(
        st.len() + 1,
        |k: int|
            s.subrange(
                if k == 0 {
                    0
                } else {
                    st[k - 1]
                },
                if k < st.len() {
                    st[k]
                } else {
                    s.len() as int
                },
            ),
    )
}

/// Every character of `s` is whitespace (its trimmed form is empty).
pub open spec fn blank(s: Seq<char>) -> bool {
    forall|j: int| 0 <= j < s.len() ==> is_ws(#[trigger] s[j])
}

/// The open headings after popping those at `level` or deeper.
pub open spec fn pop_to(stack: Seq<(int, Seq<char>)>, level: int) -> Seq<(int, Seq<char>)>
    decreases stack.len(),
{
    if stack.len() > 0 && stack.last().0 >= level {
        pop_to(stack.drop_last(), level)
    } else {
        stack
    }
}

/// The texts of the open headings, outermost first.
pub open spec fn stack_texts(stack: Seq<(int, Seq<char>)>) -> Seq<Seq<char>> {
    stack.map_values(|e: (int, Seq<char>)| e.1)
}

/// The open headings after a section with heading `h`.
pub open spec fn next_stack(stack: Seq<(int, Seq<char>)>, h: Option<(int, Seq<char>)>) -> Seq<(int, Seq<char>)> {
    match h {
        Some((level, text)) => pop_to(stack, level).push((level, text)),
        None => stack,
    }
}

/// A section's heading, heading path, content, distinct links, tags and tasks.
pub struct SectionView {
    pub heading: Option<(int, Seq<char>)>,
    pub heading_path: Seq<Seq<char>>,
    pub content: Seq<char>,
    pub links: Seq<LinkView>,
    pub tags: Seq<Seq<char>>,
    pub tasks: Seq<(int, TaskStatus, Seq<char>)>,
}

/// The section of the piece `p`, given the open headings before it.
pub open spec fn section_of(p: Seq<char>, stack: Seq<(int, Seq<char>)>) -> SectionView {
    let h = heading_of(p);
    SectionView {
        heading: h,
        heading_path: match h {
            Some(_) => stack_texts(next_stack(stack, h)),
            None => Seq::empty(),
        },
        content: p,
        links: distinct_links(links_of(p)),
        tags: extracted_tags(p),
        tasks: tasks_from(lines_of(p), 0, 1),
    }
}

/// The sections of the pieces `ps`, blank pieces skipped; `stack` holds the
/// open headings before the first piece.
pub open spec fn sections_from(ps: Seq<Seq<char>>, stack: Seq<(int, Seq<char>)>) -> Seq<SectionView>
    decreases ps.len(),
{
    if ps.len() == 0 {
        Seq::empty()
    } else if blank(ps[0]) {
        sections_from(ps.drop_first(), stack)
    } else {
        seq![section_of(ps[0], stack)] + sections_from(ps.drop_first(), next_stack(stack, heading_of(ps[0])))
    }
}

/// The sections of a text.
pub open spec fn sections_of(s: Seq<char>) -> Seq<SectionView> {
    sections_from(pieces_of(s), Seq::empty())
}

/// A part of a note: the text from one heading to the next (or before the first).
#[derive(Debug, Clone, PartialEq)]
pub struct Section {
    pub heading: Option<Heading>,
    /// The texts of the headings from the outermost down to this section's own:
    /// `["Project Alpha", "Goals", "Q1"]` for `### Q1` under `## Goals` under
    /// `# Project Alpha`.
    pub heading_path: Vec<String>,
    pub content: String,
    /// The distinct links of the content.
    pub links: Vec<Link>,
    /// The distinct tags of the content.
    pub tags: Vec<Tag>,
    pub tasks: Vec<Task>,
}

impl View for Section {
    type V = SectionView;

    open spec fn view(&self) -> SectionView {
        SectionView {
            heading: heading_view(self.heading),
            heading_path: self.heading_path@.map_values(|t: String| t@),
            content: self.content@,
            links: link_views(self.links@),
            tags: self.tags@.map_values(|t: Tag| t@),
            tasks: self.tasks@.map_values(|t: Task| t@),
        }
    }
}

impl Section {
    /// The number of whitespace-separated words of the content.
    pub fn word_count(&self) -> (c: usize)
        ensures
            c == words_of(self.content@).len(),
    {
        let v = chars_of(self.content.as_str());
        word_count(&v)
    }
}

pub open spec fn stack_view(st: Seq<(u8, String)>) -> Seq<(int, Seq<char>)> {
    st.map_values(|e: (u8, String)| (e.0 as int, e.1@))
}

/// Whether every character of `v[lo..hi]` is whitespace.
fn is_blank(v: &Vec<char>, lo: usize, hi: usize) -> (b: bool)
    requires
        lo <= hi <= v.len(),
    ensures
        b == blank(v@.subrange(lo as int, hi as int)),
{
    let mut k = lo;
    while k < hi
        invariant
            lo <= k <= hi <= v.len(),
            forall|j: int| lo <= j < k ==> is_ws(#[trigger] v@[j]),
        decreases hi - k,
    {
        if !is_whitespace(v[k]) {
            assert(!is_ws(v@.subrange(lo as int, hi as int)[k - lo]));
            return false;
        }
        k = k + 1;
    }
    assert forall|j: int| 0 <= j < hi - lo implies is_ws(#[trigger] v@.subrange(lo as int, hi as int)[j]) by {
        assert(v@.subrange(lo as int, hi as int)[j] == v@[lo + j]);
    }
    true
}

/// Updates the open headings for a section with heading `h`, returning the
/// heading path.
fn enter_heading(stack: &mut Vec<(u8, String)>, h: &Heading) -> (path: Vec<String>)
    ensures
        stack_view(final(stack)@) == next_stack(stack_view(old(stack)@), Some(h@)),
        path@.map_values(|t: String| t@) == stack_texts(next_stack(stack_view(old(stack)@), Some(h@))),
{
    while stack.len() > 0 && stack[stack.len() - 1].0 >= h.level
        invariant
            pop_to(stack_view(old(stack)@), h.level as int) == pop_to(stack_view(stack@), h.level as int),
        decreases stack.len(),
    {
        let ghost before = stack_view(stack@);
        stack.pop();
        assert(stack_view(stack@) =~= before.drop_last());
    }
    let ghost popped = stack_view(stack@);
    stack.push((h.level, h.text.clone()));
    assert(stack_view(stack@) =~= popped.push(h@));
    let mut path: Vec<String> = Vec::new();
    let mut k: usize = 0;
    while k < stack.len()
        invariant
            k <= stack.len(),
            path@.map_values(|t: String| t@) == stack_texts(stack_view(stack@)).take(k as int),
        decreases stack.len() - k,
    {
        let ghost before = path@.map_values(|t: String| t@);
        path.push(stack[k].1.clone());
        assert(stack_view(stack@)[k as int] == (stack@[k as int].0 as int, stack@[k as int].1@));
        assert(stack_texts(stack_view(stack@))[k as int] == stack@[k as int].1@);
        assert(path@.map_values(|t: String| t@) =~= before.push(stack@[k as int].1@));
        assert(path@.map_values(|t: String| t@) =~= stack_texts(stack_view(stack@)).take(k + 1));
        k = k + 1;
    }
    assert(stack_texts(stack_view(stack@)).take(k as int) =~= stack_texts(stack_view(stack@)));
    path
}

pub open spec fn section_views(ss: Seq<Section>) -> Seq<SectionView> {
    ss.map_values(|x: Section| x@)
}

/// The sections a piece adds (none when it is blank), and the open headings after it.
pub open spec fn piece_step(p: Seq<char>, stack: Seq<(int, Seq<char>)>) -> (Seq<SectionView>, Seq<(int, Seq<char>)>) {
    if blank(p) {
        (Seq::empty(), stack)
    } else {
        (seq![section_of(p, stack)], next_stack(stack, heading_of(p)))
    }
}

/// Adds the section of the piece `v[lo..hi]` unless it is blank.
fn add_piece(v: &Vec<char>, lo: usize, hi: usize, out: &mut Vec<Section>, stack: &mut Vec<(u8, String)>)
    requires
        lo <= hi <= v.len(),
    ensures
        section_views(final(out)@) == section_views(old(out)@) + piece_step(
            v@.subrange(lo as int, hi as int),
            stack_view(old(stack)@),
        ).0,
        stack_view(final(stack)@) == piece_step(v@.subrange(lo as int, hi as int), stack_view(old(stack)@)).1,
{
    let ghost p = v@.subrange(lo as int, hi as int);
    if is_blank(v, lo, hi) {
        assert(section_views(out@) + Seq::<SectionView>::empty() =~= section_views(out@));
        return ;
    }
    let piece = string_from(v, lo, hi);
    let heading = heading_in(&sub_vec(v, lo, hi));
    let path = match &heading {
        Some(h) => enter_heading(stack, h),
        None => Vec::new(),
    };
    let links = Link::extract_from(piece.as_str());
    let tags = Tag::extract_from(piece.as_str());
    let tasks = Task::extract_from(piece.as_str());
    let section = Section { heading, heading_path: path, content: piece, links, tags, tasks };
    assert(section@.heading_path =~= section_of(p, stack_view(old(stack)@)).heading_path);
    assert(section@ == section_of(p, stack_view(old(stack)@)));
    let ghost before = section_views(out@);
    out.push(section);
    assert(section_views(out@) =~= before + seq![section_of(p, stack_view(old(stack)@))]);
}

impl ExtractFrom for Section {
    type Output = Vec<Section>;

    /// The sections of `text`: it is cut where headings start, blank pieces are
    /// dropped, and each section records the path of headings that lead to it.
    fn extract_from(text: &str) -> (r: Vec<Section>)
        ensures
            section_views(r@) == sections_of(text@),
    {
        let v = chars_of(text);
        let n = v.len();
        let starts = heading_starts_exec(&v);
        let ghost st = heading_starts(v@, 0);
        let ghost ps = pieces_of(v@);
        proof {
            lemma_heading_starts_sorted(v@, 0);
            assert(starts@.len() == st.len());
            assert forall|k: int| 0 <= k < st.len() implies #[trigger] st[k] == starts@[k] as int by {
                assert(starts@.map_values(|p: usize| p as int)[k] == starts@[k] as int);
            }
        }
        let mut out: Vec<Section> = Vec::new();
        let mut stack: Vec<(u8, String)> = Vec::new();
        let mut k: usize = 0;
        let mut lo: usize = 0;
        assert(section_views(out@) =~= Seq::<SectionView>::empty());
        assert(stack_view(stack@) =~= Seq::<(int, Seq<char>)>::empty());
        assert(ps.skip(0) =~= ps);
        while k < starts.len()
            invariant
                k <= starts.len() == st.len(),
                n == v.len(),
                st == heading_starts(v@, 0),
                ps == pieces_of(v@),
                forall|q: int| 0 <= q < st.len() ==> #[trigger] st[q] == starts@[q] as int,
                forall|q: int| 0 <= q < st.len() ==> 0 <= #[trigger] st[q] < n,
                forall|q: int, l: int| 0 <= q < l < st.len() ==> #[trigger] st[q] < #[trigger] st[l],
                lo == (if k == 0 {
                    0
                } else {
                    st[k - 1]
                }),
                sections_of(v@) == section_views(out@) + sections_from(ps.skip(k as int), stack_view(stack@)),
            decreases starts.len() - k,
        {
            let hi = starts[k];
            assert(ps[k as int] == v@.subrange(lo as int, hi as int));
            assert(ps.skip(k as int).drop_first() =~= ps.skip(k + 1));
            assert(ps.skip(k as int)[0] == ps[k as int]);
            let ghost before = section_views(out@);
            let ghost step = piece_step(ps[k as int], stack_view(stack@));
            assert(sections_from(ps.skip(k as int), stack_view(stack@)) == step.0 + sections_from(ps.skip(k + 1), step.1)) by {
                if blank(ps[k as int]) {
                    assert(step.0 + sections_from(ps.skip(k + 1), step.1) =~= sections_from(ps.skip(k + 1), step.1));
                }
            }
            add_piece(&v, lo, hi, &mut out, &mut stack);
            assert(before + (step.0 + sections_from(ps.skip(k + 1), step.1)) =~= section_views(out@) + sections_from(ps.skip(k + 1), stack_view(stack@)));
            lo = hi;
            k = k + 1;
        }
        let ghost m = st.len() as int;
        assert(ps[m] == v@.subrange(lo as int, n as int));
        assert(ps.skip(m).drop_first() =~= Seq::<Seq<char>>::empty());
        assert(ps.skip(m)[0] == ps[m]);
        let ghost before = section_views(out@);
        let ghost step = piece_step(ps[m], stack_view(stack@));
        assert(sections_from(ps.skip(m), stack_view(stack@)) == step.0 + sections_from(Seq::<Seq<char>>::empty(), step.1)) by {
            if blank(ps[m]) {
                assert(step.0 + sections_from(Seq::<Seq<char>>::empty(), step.1) =~= sections_from(Seq::<Seq<char>>::empty(), step.1));
            }
        }
        add_piece(&v, lo, n, &mut out, &mut stack);
        assert(before + (step.0 + Seq::<SectionView>::empty()) =~= section_views(out@));
        out
    }
}


/// `k` characters `#`.
pub open spec fn hashes(k: int) -> Seq<char> {
    Seq::new(k as nat, |i: int| '#')
}

/// A heading text: not empty, no `#` and no line end in it, and neither its
/// first nor its last character is whitespace.
pub open spec fn plain_heading_text(t: Seq<char>) -> bool {
    &&& t.len() > 0
    &&& !is_ws(t[0])
    &&& !is_ws(t.last())
    &&& forall|i: int| 0 <= i < t.len() ==> (#[trigger] t[i]) != '#' && t[i] != '\n'
}

proof fn lemma_hash_run(s: Seq<char>, i: int, e: int)
    requires
        0 <= i <= e <= s.len(),
        forall|j: int| i <= j < e ==> #[trigger] s[j] == '#',
        e < s.len() ==> s[e] != '#',
    ensures
        hash_end(s, i) == e,
    decreases e - i,
{
    if i < e {
        lemma_hash_run(s, i + 1, e);
    }
}

/// No closing sequence starts inside a heading text that holds no `#` and
/// ends with a character that is not whitespace.
proof fn lemma_no_closing_in(x: Seq<char>, j: int, te: int)
    requires
        0 <= j < te <= x.len(),
        !is_ws(x[te - 1]),
        forall|q: int| j <= q < te ==> (#[trigger] x[q]) != '#',
    ensures
        !closing_at(x, j),
{
    if is_ws(x[j]) {
        lemma_ws_end_bounds(x, j);
        let r = ws_end(x, j);
        if r > te - 1 {
            assert(is_ws(x[te - 1]));
        }
        assert(x[r] != '#');
    }
}

/// The heading text that runs from `j` to `te` ends at `te`.
proof fn lemma_text_end_at(x: Seq<char>, j: int, tb: int, te: int)
    requires
        0 <= tb <= j <= te <= x.len(),
        tb < te,
        !is_ws(x[te - 1]),
        forall|q: int| tb <= q < te ==> (#[trigger] x[q]) != '#' && x[q] != '\n',
        te == x.len() || x[te] == '\n',
    ensures
        text_end(x, j) == te,
    decreases te - j,
{
    if j < te {
        lemma_no_closing_in(x, j, te);
        lemma_text_end_at(x, j + 1, tb, te);
    }
}

/// The line `#…# t` holds the heading of level `k` with text `t`.
proof fn lemma_heading_line(k: int, t: Seq<char>)
    requires
        1 <= k <= 6,
        plain_heading_text(t),
    ensures
        line_heading(hashes(k) + seq![' '] + t) == Some((k, t)),
{
    let l = hashes(k) + seq![' '] + t;
    assert forall|j: int| 0 <= j < k implies #[trigger] l[j] == '#' by {}
    assert(l[k] == ' ');
    lemma_hash_run(l, 0, k);
    assert(is_ws(l[k]));
    assert(l[k + 1] == t[0]);
    assert(ws_end(l, k + 1) == k + 1);
    assert(ws_end(l, k) == k + 1);
    assert forall|q: int| k + 1 <= q < l.len() implies (#[trigger] l[q]) != '#' && l[q] != '\n' by {
        assert(l[q] == t[q - k - 1]);
    }
    assert(l[l.len() - 1] == t.last());
    if k + 2 <= l.len() {
        lemma_text_end_at(l, k + 2, k + 1, l.len() as int);
    } else {
        assert(text_end(l, k + 2) == k + 2);
    }
    assert(l.subrange(k + 1, l.len() as int) =~= t);
}

/// The first line of a text begins with the text's first character.
proof fn lemma_lines_first(a: Seq<char>)
    ensures
        lines_of(a).len() > 0 && lines_of(a)[0].len() > 0 ==> lines_of(a)[0][0] == a[0],
{
    if a.len() > 0 {
        crate::text::lemma_first_index_of_bounds(a, '\n');
        let f = crate::text::first_index_of(a, '\n');
        if f < a.len() {
            let x = a.subrange(0, f);
            if x.len() > 0 {
                assert(crate::lines::strip_cr(x).len() > 0 ==> crate::lines::strip_cr(x)[0] == x[0]);
            }
        }
    }
}

/// No heading starts where there is no `#`.
proof fn lemma_starts_skip(s: Seq<char>, j: int, p: int)
    requires
        0 <= j <= p <= s.len(),
        forall|i: int| j <= i < p ==> (#[trigger] s[i]) != '#',
    ensures
        heading_starts(s, j) == heading_starts(s, p),
    decreases p - j,
{
    if j < p {
        assert(hash_end(s, j) == j);
        lemma_starts_skip(s, j + 1, p);
    }
}

/// The text of the law below.
pub open spec fn heading_law_text(a: Seq<char>, k: int, t: Seq<char>, rest: Seq<char>) -> Seq<char> {
    a + hashes(k) + seq![' '] + t + seq!['\n'] + rest
}

/// The headings start at the heading line, then after its match.
proof fn lemma_law_starts(a: Seq<char>, k: int, t: Seq<char>, rest: Seq<char>) -> (end: int)
    requires
        1 <= k <= 6,
        plain_heading_text(t),
        forall|i: int| 0 <= i < a.len() ==> (#[trigger] a[i]) != '#',
        a.len() == 0 || a.last() == '\n',
    ensures
        ({
            let s = heading_law_text(a, k, t, rest);
            let ee = a.len() + k + 1 + t.len();
            &&& ee <= end <= s.len()
            &&& heading_starts(s, 0) == seq![a.len() as int] + heading_starts(s, end)
        }),
{
    let l = hashes(k) + seq![' '] + t;
    let s = heading_law_text(a, k, t, rest);
    let p = a.len() as int;
    let ee = p + l.len();
    assert(s =~= a + (l + (seq!['\n'] + rest)));
    assert forall|j: int| 0 <= j < l.len() implies #[trigger] s[p + j] == l[j] by {}
    assert(s[ee] == '\n');
    assert forall|i: int| 0 <= i < p implies (#[trigger] s[i]) != '#' by {
        assert(s[i] == a[i]);
    }
    lemma_starts_skip(s, 0, p);
    assert forall|j: int| p <= j < p + k implies #[trigger] s[j] == '#' by {
        assert(s[j] == l[j - p]);
    }
    assert(s[p + k] == l[k]);
    lemma_hash_run(s, p, p + k);
    assert(s[p + k + 1] == t[0]);
    assert(ws_end(s, p + k + 1) == p + k + 1);
    assert(ws_end(s, p + k) == p + k + 1);
    assert forall|q: int| p + k + 1 <= q < ee implies (#[trigger] s[q]) != '#' && s[q] != '\n' by {
        assert(s[q] == l[q - p]);
        assert(l[q - p] == t[q - p - k - 1]);
    }
    assert(s[ee - 1] == t.last());
    lemma_text_end_at(s, p + k + 2, p + k + 1, ee);
    let m = heading_match(s, p);
    let end = m->Some_0.3;
    if closing_at(s, ee) {
        lemma_ws_end_bounds(s, ee);
        lemma_hash_end_bounds(s, ws_end(s, ee));
    }
    assert(line_start(s, p)) by {
        if p > 0 {
            assert(s[p - 1] == a.last());
        }
    }
    end
}

/// The first piece is the text before the heading line; the second begins with
/// that line, so its heading is the line's.
proof fn lemma_law_pieces(a: Seq<char>, k: int, t: Seq<char>, rest: Seq<char>)
    requires
        1 <= k <= 6,
        plain_heading_text(t),
        forall|i: int| 0 <= i < a.len() ==> (#[trigger] a[i]) != '#',
        a.len() == 0 || a.last() == '\n',
    ensures
        ({
            let ps = pieces_of(heading_law_text(a, k, t, rest));
            &&& ps.len() >= 2
            &&& ps[0] == a
            &&& heading_of(ps[1]) == Some((k, t))
            &&& !blank(ps[1])
        }),
{
    let l = hashes(k) + seq![' '] + t;
    let s = heading_law_text(a, k, t, rest);
    let p = a.len() as int;
    let ee = p + l.len();
    let end = lemma_law_starts(a, k, t, rest);
    assert(s =~= a + (l + (seq!['\n'] + rest)));
    assert forall|j: int| 0 <= j < l.len() implies #[trigger] s[p + j] == l[j] by {}
    let st = heading_starts(s, 0);
    lemma_heading_starts_sorted(s, end);
    let ps = pieces_of(s);
    assert(ps[0] =~= a);
    let q = if st.len() > 1 { st[1] } else { s.len() as int };
    if st.len() > 1 {
        assert(st[1] == heading_starts(s, end)[0]);
    }
    let piece = s.subrange(p, q);
    assert(ps[1] == piece);
    assert forall|j: int| 0 <= j < l.len() implies #[trigger] l[j] != '\n' by {
        if j >= k + 1 {
            assert(l[j] == t[j - k - 1]);
        }
    }
    if q > ee {
        assert(s[ee] == '\n');
        assert(piece[l.len() as int] == '\n');
        assert forall|j: int| 0 <= j < l.len() implies #[trigger] piece[j] != '\n' by {
            assert(piece[j] == l[j]);
        }
        crate::text::lemma_first_index_of_is(piece, '\n', l.len() as int);
        assert(piece.subrange(0, l.len() as int) =~= l);
        assert(lines_of(piece)[0] == crate::lines::strip_cr(l));
    } else {
        assert(piece =~= l);
        crate::text::lemma_first_index_of_is(l, '\n', l.len() as int);
        assert(lines_of(piece) == seq![l]);
    }
    assert(l.last() == t.last());
    assert(crate::lines::strip_cr(l) == l);
    lemma_heading_line(k, t);
    assert(piece[0] == l[0]);
}

/// A line `#…# t` (one to six `#`, a space, a plain heading text) that follows
/// a text `a` holding no `#` and ending at a line start begins a section of
/// its own, whose heading has that level and text and whose heading path is
/// that text; whatever follows the line.
pub proof fn law_heading_line_starts_section(a: Seq<char>, k: int, t: Seq<char>, rest: Seq<char>)
    requires
        1 <= k <= 6,
        plain_heading_text(t),
        forall|i: int| 0 <= i < a.len() ==> (#[trigger] a[i]) != '#',
        a.len() == 0 || a.last() == '\n',
    ensures
        ({
            let s = heading_law_text(a, k, t, rest);
            let idx: int = if blank(a) { 0 } else { 1 };
            &&& sections_of(s).len() > idx
            &&& sections_of(s)[idx].heading == Some((k, t))
            &&& sections_of(s)[idx].heading_path == seq![t]
        }),
{
    let s = heading_law_text(a, k, t, rest);
    lemma_law_pieces(a, k, t, rest);
    let ps = pieces_of(s);
    let e0 = Seq::<(int, Seq<char>)>::empty();
    assert(pop_to(e0, k) == e0);
    assert(stack_texts(next_stack(e0, Some((k, t)))) =~= seq![t]);
    let rest_ps = ps.drop_first();
    assert(rest_ps[0] == ps[1]);
    assert(sections_from(rest_ps, e0)[0] == section_of(ps[1], e0));
    if blank(a) {
        assert(sections_of(s) == sections_from(rest_ps, e0));
    } else {
        assert(heading_of(a) is None) by {
            if lines_of(a).len() > 0 {
                let l0 = lines_of(a)[0];
                lemma_lines_first(a);
                if l0.len() > 0 {
                    assert(l0[0] != '#');
                }
                assert(hash_end(l0, 0) == 0);
            }
        }
        assert(next_stack(e0, heading_of(a)) == e0);
        assert(sections_of(s) == seq![section_of(a, e0)] + sections_from(rest_ps, e0));
    }
}

} // verus!
