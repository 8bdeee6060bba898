//! Sections read line by line, with the byte offset of each heading line.
use vstd::prelude::*;

use crate::lines::{eol_len, line_spans, lines_of};
use crate::links::{link_views, links_of, Link, LinkView};
use crate::parser::tags::{extract_inline_tags, inline_tags};
use crate::sections::{line_heading, line_heading_exec};
use crate::text::{chars_of, sub_vec};
use crate::words::{word_count, words_of};

verus! {

/// The number of bytes that encode `c` in UTF-8.
pub open spec fn char_width(c: char) -> int {
    if (c as u32) < 0x80 {
        1
    } else if (c as u32) < 0x800 {
        2
    } else if (c as u32) < 0x10000 {
        3
    } else {
        4
    }
}

/// The number of bytes that encode `s` in UTF-8.
pub open spec fn utf8_len(s: Seq<char>) -> int
    decreases s.len(),
{
    if s.len() == 0 {
        0
    } else {
        utf8_len(s.drop_last()) + char_width(s.last())
    }
}

pub proof fn lemma_utf8_len_add(a: Seq<char>, b: Seq<char>)
    ensures
        utf8_len(a + b) == utf8_len(a) + utf8_len(b),
        utf8_len(b) >= 0,
    decreases b.len(),
{
    if b.len() == 0 {
        assert(a + b =~= a);
    } else {
        lemma_utf8_len_add(a, b.drop_last());
        assert((a + b).drop_last() =~= a + b.drop_last());
    }
}

fn char_width_exec(c: char) -> (w: usize)
    ensures
        w == char_width(c),
{
    let u = c as u32;
    if u < 0x80 {
        1
    } else if u < 0x800 {
        2
    } else if u < 0x10000 {
        3
    } else {
        4
    }
}

/// The number of bytes that encode `v[lo..hi]` in UTF-8.
fn utf8_len_exec(v: &Vec<char>, lo: usize, hi: usize) -> (n: usize)
    requires
        lo <= hi <= v.len(),
        utf8_len(v@.subrange(lo as int, hi as int)) <= usize::MAX,
    ensures
        n == utf8_len(v@.subrange(lo as int, hi as int)),
{
    let mut n: usize = 0;
    let mut i = lo;
    while i < hi
        invariant
            lo <= i <= hi <= v.len(),
            n == utf8_len(v@.subrange(lo as int, i as int)),
            utf8_len(v@.subrange(lo as int, hi as int)) <= usize::MAX,
        decreases hi - i,
    {
        proof {
            assert(v@.subrange(lo as int, i + 1).drop_last() =~= v@.subrange(lo as int, i as int));
            lemma_utf8_len_add(v@.subrange(lo as int, i + 1), v@.subrange(i + 1, hi as int));
            assert(v@.subrange(lo as int, i + 1) + v@.subrange(i + 1, hi as int) =~= v@.subrange(lo as int, hi as int));
        }
        n = n + char_width_exec(v[i]);
        i = i + 1;
    }
    n
}

/// The bytes up to the start of the next line: those up to the line, the line's,
/// and one per character of the line ending.
proof fn lemma_line_bytes(s: Seq<char>, lo: int, hi: int, next: int)
    requires
        0 <= lo <= hi <= next <= s.len(),
        next == hi + eol_len(s, hi),
    ensures
        utf8_len(s.take(next)) == utf8_len(s.take(lo)) + utf8_len(s.subrange(lo, hi)) + eol_len(s, hi),
        utf8_len(s.take(next)) <= utf8_len(s),
        utf8_len(s.subrange(lo, hi)) >= 0,
{
    let e = eol_len(s, hi);
    lemma_utf8_len_add(s.take(lo), s.subrange(lo, hi));
    assert(s.take(lo) + s.subrange(lo, hi) =~= s.take(hi));
    lemma_utf8_len_add(s.take(hi), s.subrange(hi, next));
    assert(s.take(hi) + s.subrange(hi, next) =~= s.take(next));
    lemma_utf8_len_add(s.take(next), s.skip(next));
    assert(s.take(next) + s.skip(next) =~= s);
    lemma_eol_bytes(s, hi, next);
}

proof fn lemma_eol_bytes(s: Seq<char>, hi: int, next: int)
    requires
        0 <= hi <= next <= s.len(),
        next == hi + eol_len(s, hi),
    ensures
        utf8_len(s.subrange(hi, next)) == eol_len(s, hi),
{
    reveal_with_fuel(utf8_len, 3);
    let e = eol_len(s, hi);
    assert(char_width('\n') == 1);
    assert(char_width('\r') == 1);
    if e == 2 {
        assert(s.subrange(hi, next) =~= seq!['\r', '\n']);
        assert(seq!['\r', '\n'].drop_last() =~= seq!['\r']);
        assert(seq!['\r'].drop_last() =~= Seq::<char>::empty());
    } else if e == 1 {
        assert(s.subrange(hi, next) =~= seq!['\n']);
        assert(seq!['\n'].drop_last() =~= Seq::<char>::empty());
    } else {
        assert(s.subrange(hi, next) =~= Seq::<char>::empty());
    }
}

/// The length of the line ending of `v` at `pos`: 2 for `\r\n`, 1 for `\n`, 0 otherwise.
pub fn line_ending_len(v: &Vec<char>, pos: usize) -> (n: usize)
    ensures
        n == eol_len(v@, pos as int),
{
    if pos < v.len() && v.len() - pos >= 2 && v[pos] == '\r' && v[pos + 1] == '\n' {
        2
    } else if pos < v.len() && v[pos] == '\n' {
        1
    } else {
        0
    }
}

/// A heading line: its level, its text, and the byte offset where the line starts.
#[derive(Debug, Clone, PartialEq, Eq)]
pub struct Heading {
    pub level: u8,
    pub text: String,
    pub offset: usize,
}

/// A section: its heading (none for the text before the first heading), the
/// lines below the heading, each followed by `\n`, and what they hold.
#[derive(Debug, Clone, PartialEq)]
pub struct Section {
    pub heading: Option<Heading>,
    pub content: String,
    pub links: Vec<Link>,
    /// The distinct inline tag names, without `#`.
    pub tags: Vec<String>,
    pub word_count: usize,
}

/// A section's heading (level, text, offset), content, links, tags and word count.
pub struct ParsedSectionView {
    pub heading: Option<(int, Seq<char>, int)>,
    pub content: Seq<char>,
    pub links: Seq<LinkView>,
    pub tags: Seq<Seq<char>>,
    pub word_count: int,
}

pub open spec fn heading_view(h: Option<Heading>) -> Option<(int, Seq<char>, int)> {
    match h {
        Some(x) => Some((x.level as int, x.text@, x.offset as int)),
        None => None,
    }
}

impl View for Section {
    type V = ParsedSectionView;

    open spec fn view(&self) -> ParsedSectionView {
        ParsedSectionView {
            heading: heading_view(self.heading),
            content: self.content@,
            links: link_views(self.links@),
            tags: self.tags@.map_values(|t: String| t@),
            word_count: self.word_count as int,
        }
    }
}

/// The section with heading `h` and content `content`.
pub open spec fn built(h: Option<(int, Seq<char>, int)>, content: Seq<char>) -> ParsedSectionView {
    ParsedSectionView {
        heading: h,
        content,
        links: links_of(content),
        tags: inline_tags(content),
        word_count: words_of(content).len() as int,
    }
}

/// The sections from line `k` of `s` on, given the open section (heading and
/// content so far), the character position `cp` and the byte offset `off` of the line.
pub open spec fn sections_from_line(
    s: Seq<char>,
    ls: Seq<Seq<char>>,
    k: int,
    cur: Option<(int, Seq<char>, int)>,
    content: Seq<char>,
    cp: int,
    off: int,
) -> Seq<ParsedSectionView>
    decreases ls.len() - k,
{
    if k < 0 || k >= ls.len() {
        seq![built(cur, content)]
    } else {
        let l = ls[k];
        let e = eol_len(s, cp + l.len());
        match line_heading(l) {
            Some((level, text)) => seq![built(cur, content)] + sections_from_line(
                s,
                ls,
                k + 1,
                Some((level, text, off)),
                Seq::empty(),
                cp + l.len() + e,
                off + utf8_len(l) + e,
            ),
            None => sections_from_line(s, ls, k + 1, cur, content + l + seq!['\n'], cp + l.len() + e, off + utf8_len(l) + e),
        }
    }
}

/// The sections of a body: a section opens at each heading line, the first one
/// (possibly empty) before any heading.
pub open spec fn parsed_sections(s: Seq<char>) -> Seq<ParsedSectionView> {
    sections_from_line(s, lines_of(s), 0, None, Seq::empty(), 0, 0)
}

/// What one line does: the sections it closes, and the open heading and content after it.
pub open spec fn line_step(
    l: Seq<char>,
    cur: Option<(int, Seq<char>, int)>,
    content: Seq<char>,
    off: int,
) -> (Seq<ParsedSectionView>, Option<(int, Seq<char>, int)>, Seq<char>) {
    match line_heading(l) {
        Some((level, text)) => (seq![built(cur, content)], Some((level, text, off)), Seq::empty()),
        None => (Seq::empty(), cur, content + l + seq!['\n']),
    }
}

/// Takes the line `line`, which starts at byte offset `off`: a heading line closes
/// the open section and opens its own; another line joins the open section.
fn take_line(line: &Vec<char>, off: usize, out: &mut Vec<Section>, cur: &mut Option<Heading>, content: &mut String)
    ensures
        final(out)@.map_values(|x: Section| x@) == old(out)@.map_values(|x: Section| x@) + line_step(
            line@,
            heading_view(*old(cur)),
            old(content)@,
            off as int,
        ).0,
        heading_view(*final(cur)) == line_step(line@, heading_view(*old(cur)), old(content)@, off as int).1,
        final(content)@ == line_step(line@, heading_view(*old(cur)), old(content)@, off as int).2,
{
    match line_heading_exec(line) {
        Some((level, text)) => {
            let ghost before = out@.map_values(|x: Section| x@);
            let done = build_section(cur.take(), content.as_str());
            out.push(done);
            assert(out@.map_values(|x: Section| x@) =~= before.push(built(heading_view(*old(cur)), old(content)@)));
            *cur = Some(Heading { level, text, offset: off });
            *content = String::new();
        },
        None => {
            let line_text = crate::text::string_from(line, 0, line.len());
            assert(line@.subrange(0, line@.len() as int) =~= line@);
            content.append(line_text.as_str());
            content.push('\n');
            assert(content@ =~= old(content)@ + line@ + seq!['\n']);
            assert(out@.map_values(|x: Section| x@) =~= old(out)@.map_values(|x: Section| x@) + Seq::<ParsedSectionView>::empty());
        },
    }
}

/// The section with heading `heading` and content `content`.
pub fn build_section(heading: Option<Heading>, content: &str) -> (r: Section)
    ensures
        r@ == built(heading_view(heading), content@),
{
    let links = Link::extract(content);
    let tags = extract_inline_tags(content);
    let v = chars_of(content);
    let word_count = word_count(&v);
    Section { heading, content: content.to_string(), links, tags, word_count }
}

/// The sections of `body`, line by line: each heading line opens a section and
/// records the byte offset where it starts; other lines go to the open section.
pub fn parse_sections(body: &str) -> (r: Vec<Section>)
    requires
        utf8_len(body@) <= usize::MAX,
    ensures
        r@.map_values(|x: Section| x@) == parsed_sections(body@),
{
    let v = chars_of(body);
    let n = v.len();
    let spans = line_spans(&v);
    let ghost ls = lines_of(v@);
    let mut out: Vec<Section> = Vec::new();
    let mut cur: Option<Heading> = None;
    let mut content = String::new();
    let mut cp: usize = 0;
    let mut off: usize = 0;
    let mut k: usize = 0;
    assert(out@.map_values(|x: Section| x@) =~= Seq::<ParsedSectionView>::empty());
    assert(v@.take(0) =~= Seq::<char>::empty());
    while k < spans.len()
        invariant
            k <= spans@.len() == ls.len(),
            n == v.len(),
            ls == lines_of(v@),
            utf8_len(v@) <= usize::MAX,
            forall|q: int|
                0 <= q < spans@.len() ==> {
                    &&& (#[trigger] spans@[q]).start <= spans@[q].end <= spans@[q].next <= v.len()
                    &&& v@.subrange(spans@[q].start as int, spans@[q].end as int) == ls[q]
                    &&& (q + 1 < spans@.len() ==> spans@[q].next == spans@[q + 1].start)
                    &&& spans@[q].next == spans@[q].end + eol_len(v@, spans@[q].end as int)
                },
            spans@.len() > 0 ==> spans@[0].start == 0,
            k < spans@.len() ==> cp == spans@[k as int].start,
            cp <= n,
            off == utf8_len(v@.take(cp as int)),
            parsed_sections(v@) == out@.map_values(|x: Section| x@) + sections_from_line(
                v@,
                ls,
                k as int,
                heading_view(cur),
                content@,
                cp as int,
                off as int,
            ),
        decreases spans.len() - k,
    {
        let lo = spans[k].start;
        let hi = spans[k].end;
        let next = spans[k].next;
        proof {
            lemma_line_bytes(v@, lo as int, hi as int, next as int);
        }
        let line = sub_vec(&v, lo, hi);
        let e = line_ending_len(&v, hi);
        let width = utf8_len_exec(&v, lo, hi);
        let new_off = off + width + e;
        let ghost before = out@.map_values(|x: Section| x@);
        let ghost cur0 = heading_view(cur);
        let ghost content0 = content@;
        take_line(&line, off, &mut out, &mut cur, &mut content);
        assert(sections_from_line(v@, ls, k as int, cur0, content0, cp as int, off as int) == line_step(
            ls[k as int],
            cur0,
            content0,
            off as int,
        ).0 + sections_from_line(v@, ls, k + 1, heading_view(cur), content@, next as int, new_off as int));
        assert(before + (line_step(ls[k as int], cur0, content0, off as int).0 + sections_from_line(
            v@,
            ls,
            k + 1,
            heading_view(cur),
            content@,
            next as int,
            new_off as int,
        )) =~= out@.map_values(|x: Section| x@) + sections_from_line(
            v@,
            ls,
            k + 1,
            heading_view(cur),
            content@,
            next as int,
            new_off as int,
        ));
        cp = next;
        off = new_off;
        k = k + 1;
    }
    let ghost before = out@.map_values(|x: Section| x@);
    let last = build_section(cur, content.as_str());
    out.push(last);
    assert(out@.map_values(|x: Section| x@) =~= before.push(built(heading_view(cur), content@)));
    out
}

} // verus!
