//! Notes: the frontmatter block, the sections of the body, and what they hold.
use vstd::prelude::*;

use crate::extract::ExtractFrom;
use crate::links::{link_views, Link, LinkView};
use crate::order::texts;
use crate::scan::match_at;
use crate::sections::{section_views, sections_of, Heading, Section, SectionView};
use crate::text::{chars_of, string_from};
use crate::vault_path::VaultPath;
use crate::words::words_of;

verus! {

// ---------------------------------------------------------------------------
// The frontmatter block
// ---------------------------------------------------------------------------

/// Where the frontmatter text starts: after an opening `---` line at the very
/// start of the note (`\n` or `\r\n` ending), or `-1`.
pub open spec fn frontmatter_open(s: Seq<char>) -> int {
    if match_at(s, 0, seq!['-', '-', '-', '\n']) {
        4
    } else if match_at(s, 0, seq!['-', '-', '-', '\r', '\n']) {
        5
    } else {
        -1
    }
}

/// The length of a closing delimiter (`\n---` or `\r\n---`) at `q`, or 0.
pub open spec fn close_len(s: Seq<char>, q: int) -> int {
    if match_at(s, q, seq!['\r', '\n', '-', '-', '-']) {
        5
    } else if match_at(s, q, seq!['\n', '-', '-', '-']) {
        4
    } else {
        0
    }
}

/// The first closing delimiter at or after `q`, or `-1`.
pub open spec fn close_from(s: Seq<char>, q: int) -> int
    decreases s.len() - q,
{
    if q < 0 || q >= s.len() {
        -1
    } else if close_len(s, q) > 0 {
        q
    } else {
        close_from(s, q + 1)
    }
}

/// The end of the frontmatter block whose closing `---` ends at `c`: an
/// optional `\r`, then an optional `\n`, are taken with it.
pub open spec fn block_end(s: Seq<char>, c: int) -> int {
    let c2 = if 0 <= c < s.len() && s[c] == '\r' {
        c + 1
    } else {
        c
    };
    if 0 <= c2 < s.len() && s[c2] == '\n' {
        c2 + 1
    } else {
        c2
    }
}

/// The frontmatter text of a note and where its body starts: the shortest text
/// between an opening `---` line and a `---` that starts a later line.
pub open spec fn frontmatter_block(s: Seq<char>) -> Option<(Seq<char>, int)> {
    let open = frontmatter_open(s);
    let q = close_from(s, open);
    if open < 0 || q < 0 {
        None
    } else {
        Some((s.subrange(open, q), block_end(s, q + close_len(s, q))))
    }
}

/// `s` without its `\r` characters.
pub open spec fn drop_cr(s: Seq<char>) -> Seq<char>
    decreases s.len(),
{
    if s.len() == 0 {
        s
    } else if s.last() == '\r' {
        drop_cr(s.drop_last())
    } else {
        drop_cr(s.drop_last()).push(s.last())
    }
}

/// The frontmatter text (without `\r`) when the note opens with a frontmatter
/// block, and the body: what follows the block, or the whole text.
pub open spec fn frontmatter_split(s: Seq<char>) -> (Option<Seq<char>>, Seq<char>) {
    match frontmatter_block(s) {
        Some((yaml, end)) => (Some(drop_cr(yaml)), s.subrange(end, s.len() as int)),
        None => (None, s),
    }
}

proof fn lemma_close_from_bounds(s: Seq<char>, q: int)
    requires
        0 <= q,
    ensures
        close_from(s, q) == -1 || (q <= close_from(s, q) < s.len() && close_len(s, close_from(s, q)) > 0),
    decreases s.len() - q,
{
    if q < s.len() && close_len(s, q) == 0 {
        lemma_close_from_bounds(s, q + 1);
    }
}

fn lit_at(v: &Vec<char>, i: usize, lit: &Vec<char>) -> (b: bool)
    ensures
        b == match_at(v@, i as int, lit@),
{
    crate::scan::match_at_exec(v, i, lit)
}

/// Splits `content` into its frontmatter text (`\r` removed), when it opens with
/// a `---` delimited block, and its body.
pub fn split_frontmatter_text(content: &str) -> (r: (Option<String>, String))
    ensures
        opt_text(r.0) == frontmatter_split(content@).0,
        r.1@ == frontmatter_split(content@).1,
{
    let v = chars_of(content);
    let n = v.len();
    let open4 = vec!['-', '-', '-', '\n'];
    let open5 = vec!['-', '-', '-', '\r', '\n'];
    let close4 = vec!['\n', '-', '-', '-'];
    let close5 = vec!['\r', '\n', '-', '-', '-'];
    assert(open4@ == seq!['-', '-', '-', '\n']);
    assert(open5@ == seq!['-', '-', '-', '\r', '\n']);
    assert(close4@ == seq!['\n', '-', '-', '-']);
    assert(close5@ == seq!['\r', '\n', '-', '-', '-']);
    let open: usize = if lit_at(&v, 0, &open4) {
        4
    } else if lit_at(&v, 0, &open5) {
        5
    } else {
        assert(v@.subrange(0, n as int) =~= v@);
        assert(frontmatter_open(v@) == -1);
        assert(frontmatter_block(v@) is None);
        return (None, string_from(&v, 0, n));
    };
    let mut q = open;
    let mut found = false;
    while q < n && !found
        invariant
            open <= q <= n == v.len(),
            close4@ == seq!['\n', '-', '-', '-'],
            close5@ == seq!['\r', '\n', '-', '-', '-'],
            !found ==> close_from(v@, open as int) == close_from(v@, q as int),
            found ==> close_from(v@, open as int) == q && q < n && close_len(v@, q as int) > 0,
        decreases n - q + (if found { 0int } else { 1int }),
    {
        if lit_at(&v, q, &close5) || lit_at(&v, q, &close4) {
            found = true;
        } else {
            q = q + 1;
        }
    }
    if !found {
        assert(v@.subrange(0, n as int) =~= v@);
        return (None, string_from(&v, 0, n));
    }
    let len: usize = if lit_at(&v, q, &close5) {
        5
    } else {
        4
    };
    let c = q + len;
    let c2 = if c < n && v[c] == '\r' {
        c + 1
    } else {
        c
    };
    let end = if c2 < n && v[c2] == '\n' {
        c2 + 1
    } else {
        c2
    };
    let mut yaml = String::new();
    let mut k = open;
    while k < q
        invariant
            open <= k <= q < n == v.len(),
            yaml@ == drop_cr(v@.subrange(open as int, k as int)),
        decreases q - k,
    {
        let ghost before = v@.subrange(open as int, k as int);
        assert(v@.subrange(open as int, k + 1).drop_last() =~= before);
        if v[k] != '\r' {
            yaml.push(v[k]);
        }
        k = k + 1;
    }
    (Some(yaml), string_from(&v, end, n))
}

// ---------------------------------------------------------------------------
// Notes
// ---------------------------------------------------------------------------

/// The frontmatter fields the note logic reads.
#[derive(Debug, Clone, Default, PartialEq)]
pub struct Frontmatter {
    pub title: Option<String>,
    pub description: Option<String>,
    pub tags: Vec<String>,
    pub aliases: Vec<String>,
}

pub open spec fn opt_text(o: Option<String>) -> Option<Seq<char>> {
    match o {
        Some(s) => Some(s@),
        None => None,
    }
}

/// The note's title: a non-empty frontmatter title, else the text of the first
/// heading when that heading is of level 1.
pub open spec fn title_of(fm_title: Option<Seq<char>>, sections: Seq<SectionView>) -> Option<Seq<char>> {
    if fm_title matches Some(t) && t.len() > 0 {
        fm_title
    } else {
        match first_heading(sections, 0) {
            Some((level, text)) => if level == 1 {
                Some(text)
            } else {
                None
            },
            None => None,
        }
    }
}

/// The heading of the first section from `k` on that has one.
pub open spec fn first_heading(sections: Seq<SectionView>, k: int) -> Option<(int, Seq<char>)>
    decreases sections.len() - k,
{
    if k < 0 || k >= sections.len() {
        None
    } else if sections[k].heading is Some {
        sections[k].heading
    } else {
        first_heading(sections, k + 1)
    }
}

proof fn lemma_first_heading_at(sections: Seq<SectionView>, i: int, k: int)
    requires
        0 <= i <= k < sections.len(),
        sections[k].heading is Some,
        forall|j: int| i <= j < k ==> (#[trigger] sections[j]).heading is None,
    ensures
        first_heading(sections, i) == sections[k].heading,
    decreases k - i,
{
    if i < k {
        lemma_first_heading_at(sections, i + 1, k);
    }
}

proof fn lemma_first_heading_none(sections: Seq<SectionView>, i: int)
    requires
        0 <= i,
        forall|j: int| i <= j < sections.len() ==> (#[trigger] sections[j]).heading is None,
    ensures
        first_heading(sections, i) is None,
    decreases sections.len() - i,
{
    if i < sections.len() {
        lemma_first_heading_none(sections, i + 1);
    }
}

/// The title of a note: a non-empty frontmatter title; otherwise the text of
/// the first heading among the sections when that heading has level 1; and
/// none when that first heading has another level or no section has a heading.
pub proof fn law_title_from_first_heading(ft: Option<Seq<char>>, sections: Seq<SectionView>, k: int)
    ensures
        ft matches Some(x) && x.len() > 0 ==> title_of(ft, sections) == ft,
        !(ft matches Some(x) && x.len() > 0) && 0 <= k < sections.len() && sections[k].heading is Some && (forall|j: int|
            0 <= j < k ==> (#[trigger] sections[j]).heading is None) ==> title_of(ft, sections) == (if sections[k].heading->Some_0.0
            == 1 {
            Some(sections[k].heading->Some_0.1)
        } else {
            None
        }),
        !(ft matches Some(x) && x.len() > 0) && (forall|j: int|
            0 <= j < sections.len() ==> (#[trigger] sections[j]).heading is None) ==> title_of(ft, sections) is None,
{
    if 0 <= k < sections.len() && sections[k].heading is Some && (forall|j: int|
        0 <= j < k ==> (#[trigger] sections[j]).heading is None) {
        lemma_first_heading_at(sections, 0, k);
    }
    if forall|j: int| 0 <= j < sections.len() ==> (#[trigger] sections[j]).heading is None {
        lemma_first_heading_none(sections, 0);
    }
}

/// The title of a note with frontmatter `frontmatter` and sections `sections`.
pub fn derive_title(frontmatter: &Option<Frontmatter>, sections: &Vec<Section>) -> (r: Option<String>)
    ensures
        opt_text(r) == title_of(
            match frontmatter {
                Some(fm) => opt_text(fm.title),
                None => None,
            },
            section_views(sections@),
        ),
{
    match frontmatter {
        Some(fm) => match &fm.title {
            Some(t) => {
                if !t.as_str().is_empty() {
                    return Some(t.clone());
                }
            },
            None => {},
        },
        None => {},
    }
    let ghost svs = section_views(sections@);
    let ghost ft = match frontmatter {
        Some(fm) => opt_text(fm.title),
        None => None,
    };
    assert(!(ft matches Some(t) && t.len() > 0));
    let mut k: usize = 0;
    while k < sections.len()
        invariant
            k <= sections.len(),
            svs == section_views(sections@),
            !(ft matches Some(t) && t.len() > 0),
            ft == match frontmatter {
                Some(fm) => opt_text(fm.title),
                None => None,
            },
            first_heading(svs, 0) == first_heading(svs, k as int),
        decreases sections.len() - k,
    {
        match &sections[k].heading {
            Some(h) => {
                assert(svs[k as int].heading == Some(h@));
                if h.level == 1 {
                    return Some(h.text.clone());
                } else {
                    return None;
                }
            },
            None => {},
        }
        k = k + 1;
    }
    None
}

/// A parsed note.
#[derive(Debug, Clone)]
pub struct Note {
    pub path: Option<VaultPath>,
    pub title: Option<String>,
    pub frontmatter: Option<Frontmatter>,
    pub sections: Vec<Section>,
}

pub open spec fn fm_title(fm: Option<Frontmatter>) -> Option<Seq<char>> {
    match fm {
        Some(f) => opt_text(f.title),
        None => None,
    }
}

pub open spec fn fm_tags(fm: Option<Frontmatter>) -> Seq<Seq<char>> {
    match fm {
        Some(f) => texts(f.tags@),
        None => Seq::empty(),
    }
}

/// The headings of the sections, in order.
pub open spec fn headings_of(ss: Seq<SectionView>) -> Seq<(int, Seq<char>)>
    decreases ss.len(),
{
    if ss.len() == 0 {
        Seq::empty()
    } else {
        headings_of(ss.drop_last()) + match ss.last().heading {
            Some(h) => seq![h],
            None => Seq::empty(),
        }
    }
}

/// The links of the sections, in order.
pub open spec fn links_of_sections(ss: Seq<SectionView>) -> Seq<LinkView>
    decreases ss.len(),
{
    if ss.len() == 0 {
        Seq::empty()
    } else {
        links_of_sections(ss.drop_last()) + ss.last().links
    }
}

/// The tag names (without `#`) of the sections, in order.
pub open spec fn tag_names_of_sections(ss: Seq<SectionView>) -> Seq<Seq<char>>
    decreases ss.len(),
{
    if ss.len() == 0 {
        Seq::empty()
    } else {
        tag_names_of_sections(ss.drop_last()) + ss.last().tags.map_values(|t: Seq<char>| t.drop_first())
    }
}

/// The texts of `c`, each kept once, in order of first occurrence.
pub open spec fn distinct_texts(c: Seq<Seq<char>>) -> Seq<Seq<char>>
    decreases c.len(),
{
    if c.len() == 0 {
        c
    } else if distinct_texts(c.drop_last()).contains(c.last()) {
        distinct_texts(c.drop_last())
    } else {
        distinct_texts(c.drop_last()).push(c.last())
    }
}

/// The total number of words of the sections.
pub open spec fn words_of_sections(ss: Seq<SectionView>) -> int
    decreases ss.len(),
{
    if ss.len() == 0 {
        0
    } else {
        words_of_sections(ss.drop_last()) + words_of(ss.last().content).len()
    }
}

impl Note {
    /// The note with frontmatter `frontmatter` and body `body`: the body's
    /// sections, and the title the frontmatter or the first heading gives.
    pub fn from_parts(frontmatter: Option<Frontmatter>, body: &str) -> (r: Note)
        ensures
            r.path is None,
            section_views(r.sections@) == sections_of(body@),
            opt_text(r.title) == title_of(fm_title(frontmatter), sections_of(body@)),
            r.frontmatter == frontmatter,
    {
        let sections = Section::extract_from(body);
        let title = derive_title(&frontmatter, &sections);
        Note { path: None, title, frontmatter, sections }
    }

    /// The headings of the note's sections, in order.
    pub fn headings(&self) -> (r: Vec<Heading>)
        ensures
            r@.map_values(|h: Heading| h@) == headings_of(section_views(self.sections@)),
    {
        let ghost svs = section_views(self.sections@);
        let mut out: Vec<Heading> = Vec::new();
        let mut k: usize = 0;
        while k < self.sections.len()
            invariant
                k <= self.sections.len(),
                svs == section_views(self.sections@),
                out@.map_values(|h: Heading| h@) == headings_of(svs.take(k as int)),
            decreases self.sections.len() - k,
        {
            assert(svs.take(k + 1).drop_last() =~= svs.take(k as int));
            let ghost before = out@.map_values(|h: Heading| h@);
            match &self.sections[k].heading {
                Some(h) => {
                    out.push(h.clone());
                    assert(out@.map_values(|h: Heading| h@) =~= before + seq![h@]);
                },
                None => {
                    assert(before + Seq::<(int, Seq<char>)>::empty() =~= before);
                },
            }
            k = k + 1;
        }
        assert(svs.take(k as int) =~= svs);
        out
    }

    /// The links of the note's sections, in order.
    pub fn links(&self) -> (r: Vec<Link>)
        ensures
            link_views(r@) == links_of_sections(section_views(self.sections@)),
    {
        let ghost svs = section_views(self.sections@);
        let mut out: Vec<Link> = Vec::new();
        let mut k: usize = 0;
        while k < self.sections.len()
            invariant
                k <= self.sections.len(),
                svs == section_views(self.sections@),
                link_views(out@) == links_of_sections(svs.take(k as int)),
            decreases self.sections.len() - k,
        {
            assert(svs.take(k + 1).drop_last() =~= svs.take(k as int));
            let links = &self.sections[k].links;
            let ghost before = link_views(out@);
            let mut j: usize = 0;
            while j < links.len()
                invariant
                    j <= links.len(),
                    links == &self.sections@[k as int].links,
                    link_views(out@) == before + link_views(links@).take(j as int),
                decreases links.len() - j,
            {
                let ghost mid = link_views(out@);
                let c = links[j].clone();
                assert(c@ == links@[j as int]@);
                out.push(c);
                assert(link_views(out@) =~= mid.push(links@[j as int]@));
                assert(link_views(links@).take(j + 1) =~= link_views(links@).take(j as int).push(links@[j as int]@));
                assert(link_views(out@) =~= before + link_views(links@).take(j + 1));
                j = j + 1;
            }
            assert(link_views(links@).take(j as int) =~= link_views(links@));
            k = k + 1;
        }
        assert(svs.take(k as int) =~= svs);
        out
    }

    /// The distinct tag names of the note (without `#`): those of its sections,
    /// then those of its frontmatter, each once, in order of first occurrence.
    pub fn tags(&self) -> (r: Vec<String>)
        ensures
            texts(r@) == distinct_texts(tag_names_of_sections(section_views(self.sections@)) + fm_tags(self.frontmatter)),
    {
        let ghost svs = section_views(self.sections@);
        let mut out: Vec<String> = Vec::new();
        let ghost mut seen: Seq<Seq<char>> = Seq::empty();
        assert(texts(out@) =~= distinct_texts(seen));
        let mut k: usize = 0;
        while k < self.sections.len()
            invariant
                k <= self.sections.len(),
                svs == section_views(self.sections@),
                seen == tag_names_of_sections(svs.take(k as int)),
                texts(out@) == distinct_texts(seen),
            decreases self.sections.len() - k,
        {
            assert(svs.take(k + 1).drop_last() =~= svs.take(k as int));
            let tags = &self.sections[k].tags;
            let ghost start = seen;
            let ghost names = svs[k as int].tags.map_values(|t: Seq<char>| t.drop_first());
            let mut j: usize = 0;
            while j < tags.len()
                invariant
                    j <= tags.len(),
                    tags == &self.sections@[k as int].tags,
                    names == tags@.map_values(|t: crate::tags::Tag| t@).map_values(|t: Seq<char>| t.drop_first()),
                    seen == start + names.take(j as int),
                    texts(out@) == distinct_texts(seen),
                decreases tags.len() - j,
            {
                let name = tags[j].name().to_string();
                assert(name@ == names[j as int]);
                push_distinct(&mut out, name, Ghost(seen));
                proof {
                    assert(start + names.take(j + 1) =~= (start + names.take(j as int)).push(names[j as int]));
                    seen = seen.push(names[j as int]);
                }
                j = j + 1;
            }
            assert(names.take(j as int) =~= names);
            k = k + 1;
        }
        assert(svs.take(k as int) =~= svs);
        match &self.frontmatter {
            Some(fm) => {
                let ghost start = seen;
                let mut j: usize = 0;
                while j < fm.tags.len()
                    invariant
                        j <= fm.tags.len(),
                        seen == start + texts(fm.tags@).take(j as int),
                        texts(out@) == distinct_texts(seen),
                    decreases fm.tags.len() - j,
                {
                    let t = fm.tags[j].clone();
                    push_distinct(&mut out, t, Ghost(seen));
                    proof {
                        assert(start + texts(fm.tags@).take(j + 1) =~= (start + texts(fm.tags@).take(j as int)).push(
                            fm.tags@[j as int]@,
                        ));
                        seen = seen.push(fm.tags@[j as int]@);
                    }
                    j = j + 1;
                }
                assert(texts(fm.tags@).take(j as int) =~= texts(fm.tags@));
            },
            None => {
                assert(seen + Seq::<Seq<char>>::empty() =~= seen);
            },
        }
        out
    }

    /// The number of whitespace-separated words of the note's sections.
    pub fn word_count(&self) -> (c: usize)
        requires
            words_of_sections(section_views(self.sections@)) <= usize::MAX,
        ensures
            c == words_of_sections(section_views(self.sections@)),
    {
        let ghost svs = section_views(self.sections@);
        let mut total: usize = 0;
        let mut k: usize = 0;
        while k < self.sections.len()
            invariant
                k <= self.sections.len(),
                svs == section_views(self.sections@),
                words_of_sections(svs) <= usize::MAX,
                total == words_of_sections(svs.take(k as int)),
            decreases self.sections.len() - k,
        {
            assert(svs.take(k + 1).drop_last() =~= svs.take(k as int));
            proof {
                lemma_words_prefix(svs, k + 1);
            }
            total = total + self.sections[k].word_count();
            k = k + 1;
        }
        assert(svs.take(k as int) =~= svs);
        total
    }
}

proof fn lemma_words_prefix(ss: Seq<SectionView>, k: int)
    requires
        0 <= k <= ss.len(),
    ensures
        0 <= words_of_sections(ss.take(k)) <= words_of_sections(ss),
    decreases ss.len(),
{
    if ss.len() > 0 {
        if k == ss.len() {
            assert(ss.take(k) =~= ss);
            lemma_words_prefix(ss.drop_last(), k - 1);
            assert(ss.drop_last().take(k - 1) =~= ss.take(k - 1));
        } else {
            lemma_words_prefix(ss.drop_last(), k);
            assert(ss.drop_last().take(k) =~= ss.take(k));
        }
    } else {
        assert(ss.take(k) =~= ss);
    }
}

/// Adds `s` to `out` unless it is there already.
fn push_distinct(out: &mut Vec<String>, s: String, Ghost(seen): Ghost<Seq<Seq<char>>>)
    requires
        texts(old(out)@) == distinct_texts(seen),
    ensures
        texts(final(out)@) == distinct_texts(seen.push(s@)),
{
    assert(seen.push(s@).drop_last() =~= seen);
    let mut k: usize = 0;
    while k < out.len()
        invariant
            k <= out.len(),
            texts(out@) == distinct_texts(seen),
            seen.push(s@).drop_last() == seen,
            forall|j: int| 0 <= j < k ==> out@[j]@ != s@,
        decreases out.len() - k,
    {
        if out[k] == s {
            assert(texts(out@)[k as int] == s@);
            return ;
        }
        k = k + 1;
    }
    let ghost before = texts(out@);
    assert(!before.contains(s@)) by {
        if before.contains(s@) {
            let j = choose|j: int| 0 <= j < before.len() && #[trigger] before[j] == s@;
            assert(out@[j]@ == s@);
        }
    }
    out.push(s);
    assert(texts(out@) =~= before.push(s@));
}

/// The contents of the sections, one after the other.
pub open spec fn contents_of(ss: Seq<SectionView>) -> Seq<char>
    decreases ss.len(),
{
    if ss.len() == 0 {
        Seq::empty()
    } else {
        contents_of(ss.drop_last()) + ss.last().content
    }
}

impl Note {
    /// The note's body: the contents of its sections, one after the other.
    pub fn body_text(&self) -> (r: String)
        ensures
            r@ == contents_of(section_views(self.sections@)),
    {
        let ghost ss = section_views(self.sections@);
        let mut out = String::new();
        let mut i: usize = 0;
        while i < self.sections.len()
            invariant
                i <= self.sections@.len(),
                ss == section_views(self.sections@),
                out@ == contents_of(ss.take(i as int)),
            decreases self.sections.len() - i,
        {
            assert(ss.take(i + 1).drop_last() =~= ss.take(i as int));
            out.append(self.sections[i].content.as_str());
            i = i + 1;
        }
        assert(ss.take(i as int) =~= ss);
        out
    }
}

} // verus!
