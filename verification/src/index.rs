//! What the search index stores of each section, and note-level results.
use vstd::prelude::*;

use crate::links::{opt_view, Link, LinkView};
use crate::order::{insert_sorted, strictly_sorted, texts};
use crate::revisions::PathKey;
use crate::text::starts_with;
use crate::vault_path::{file_part, fragment, split_on, VaultPath, VaultPathKind};

verus! {

// ---------------------------------------------------------------------------
// Links as the index keeps them
// ---------------------------------------------------------------------------

/// A link as the index keeps it.
#[derive(Debug, PartialEq, Eq)]
pub enum IndexLink {
    Wiki { target: String, alias: Option<String> },
    Markdown { url: String, text: String },
    Url { url: String },
    Email { address: String },
}

/// An index link as character sequences.
pub enum IndexLinkView {
    Wiki { target: Seq<char>, alias: Option<Seq<char>> },
    Markdown { url: Seq<char>, text: Seq<char> },
    Url { url: Seq<char> },
    Email { address: Seq<char> },
}

impl View for IndexLink {
    type V = IndexLinkView;

    open spec fn view(&self) -> IndexLinkView {
        match self {
            IndexLink::Wiki { target, alias } => IndexLinkView::Wiki { target: target@, alias: opt_view(*alias) },
            IndexLink::Markdown { url, text } => IndexLinkView::Markdown { url: url@, text: text@ },
            IndexLink::Url { url } => IndexLinkView::Url { url: url@ },
            IndexLink::Email { address } => IndexLinkView::Email { address: address@ },
        }
    }
}

fn opt_clone(o: &Option<String>) -> (r: Option<String>)
    ensures
        opt_view(r) == opt_view(*o),
{
    match o {
        Some(x) => Some(x.clone()),
        None => None,
    }
}

impl Clone for IndexLink {
    fn clone(&self) -> (r: Self)
        ensures
            r@ == self@,
    {
        match self {
            IndexLink::Wiki { target, alias } => IndexLink::Wiki { target: target.clone(), alias: opt_clone(alias) },
            IndexLink::Markdown { url, text } => IndexLink::Markdown { url: url.clone(), text: text.clone() },
            IndexLink::Url { url } => IndexLink::Url { url: url.clone() },
            IndexLink::Email { address } => IndexLink::Email { address: address.clone() },
        }
    }
}

/// What the index keeps of a link: a wikilink's target and alias, a markdown
/// link's URL and text, an autolink's URL or address.
pub open spec fn index_link_of(l: LinkView) -> IndexLinkView {
    match l {
        LinkView::Wiki(w) => IndexLinkView::Wiki { target: w.target, alias: w.alias },
        LinkView::Markdown(m) => IndexLinkView::Markdown { url: m.url, text: m.text },
        LinkView::Url(u) => IndexLinkView::Url { url: u },
        LinkView::Email(e) => IndexLinkView::Email { address: e },
    }
}

impl<'a> From<&'a Link> for IndexLink {
    fn from(link: &'a Link) -> (r: IndexLink)
        ensures
            r@ == index_link_of(link@),
    {
        match link {
            Link::Wiki(w) => IndexLink::Wiki { target: w.target.clone(), alias: opt_clone(&w.alias) },
            Link::Markdown(m) => IndexLink::Markdown { url: m.url.clone(), text: m.text.clone() },
            Link::Url(u) => IndexLink::Url { url: u.url.clone() },
            Link::Email(e) => IndexLink::Email { address: e.address.clone() },
        }
    }
}

impl<'a> vstd::std_specs::convert::FromSpecImpl<&'a Link> for IndexLink {
    open spec fn obeys_from_spec() -> bool {
        false
    }

    /// Not used: `from` states its result through `index_link_of`.
    closed spec fn from_spec(link: &'a Link) -> IndexLink {
        vstd::pervasive::arbitrary()
    }
}

pub open spec fn index_link_views(ls: Seq<IndexLink>) -> Seq<IndexLinkView> {
    ls.map_values(|l: IndexLink| l@)
}

/// Copies of `ls`.
pub fn clone_links(ls: &Vec<IndexLink>) -> (r: Vec<IndexLink>)
    ensures
        index_link_views(r@) == index_link_views(ls@),
{
    let mut out: Vec<IndexLink> = Vec::new();
    let mut k: usize = 0;
    while k < ls.len()
        invariant
            k <= ls.len(),
            index_link_views(out@) == index_link_views(ls@).take(k as int),
        decreases ls.len() - k,
    {
        let ghost before = index_link_views(out@);
        let c = ls[k].clone();
        assert(c@ == ls@[k as int]@);
        out.push(c);
        assert(index_link_views(out@) =~= before.push(ls@[k as int]@));
        assert(index_link_views(ls@).take(k + 1) =~= index_link_views(ls@).take(k as int).push(ls@[k as int]@));
        k = k + 1;
    }
    assert(index_link_views(ls@).take(k as int) =~= index_link_views(ls@));
    out
}

/// Copies of `ts`.
pub fn clone_texts(ts: &Vec<String>) -> (r: Vec<String>)
    ensures
        texts(r@) == texts(ts@),
{
    let mut out: Vec<String> = Vec::new();
    let mut k: usize = 0;
    while k < ts.len()
        invariant
            k <= ts.len(),
            texts(out@) == texts(ts@).take(k as int),
        decreases ts.len() - k,
    {
        let ghost before = texts(out@);
        let c = ts[k].clone();
        out.push(c);
        assert(texts(out@) =~= before.push(ts@[k as int]@));
        assert(texts(ts@).take(k + 1) =~= texts(ts@).take(k as int).push(ts@[k as int]@));
        k = k + 1;
    }
    assert(texts(ts@).take(k as int) =~= texts(ts@));
    out
}

// ---------------------------------------------------------------------------
// Entries
// ---------------------------------------------------------------------------

/// What the index stores of a section: its path, tags, links and token count.
#[derive(Debug)]
pub struct IndexEntry {
    pub path: VaultPath,
    pub tags: Vec<String>,
    pub links: Vec<IndexLink>,
    pub token_count: usize,
}

/// An index entry as plain values.
pub struct IndexEntryView {
    pub path: PathKey,
    pub tags: Seq<Seq<char>>,
    pub links: Seq<IndexLinkView>,
    pub token_count: int,
}

impl View for IndexEntry {
    type V = IndexEntryView;

    open spec fn view(&self) -> IndexEntryView {
        IndexEntryView {
            path: self.path@,
            tags: texts(self.tags@),
            links: index_link_views(self.links@),
            token_count: self.token_count as int,
        }
    }
}

impl Clone for IndexEntry {
    fn clone(&self) -> (r: Self)
        ensures
            r@ == self@,
    {
        IndexEntry {
            path: self.path.clone(),
            tags: clone_texts(&self.tags),
            links: clone_links(&self.links),
            token_count: self.token_count,
        }
    }
}

pub open spec fn entry_views(es: Seq<IndexEntry>) -> Seq<IndexEntryView> {
    es.map_values(|e: IndexEntry| e@)
}

// ---------------------------------------------------------------------------
// Note results
// ---------------------------------------------------------------------------

/// A section of a note result: its heading path, tags, links and token count,
/// and the position of the entry it was made from.
#[derive(Debug)]
pub struct SectionResult {
    pub heading_path: Vec<String>,
    pub tags: Vec<String>,
    pub links: Vec<IndexLink>,
    pub token_count: usize,
    pub entry: usize,
}

pub struct SectionResultView {
    pub heading_path: Seq<Seq<char>>,
    pub tags: Seq<Seq<char>>,
    pub links: Seq<IndexLinkView>,
    pub token_count: int,
    pub entry: int,
}

impl View for SectionResult {
    type V = SectionResultView;

    open spec fn view(&self) -> SectionResultView {
        SectionResultView {
            heading_path: texts(self.heading_path@),
            tags: texts(self.tags@),
            links: index_link_views(self.links@),
            token_count: self.token_count as int,
            entry: self.entry as int,
        }
    }
}

/// The sections of one note found by a query or a listing.
#[derive(Debug)]
pub struct NoteResult {
    pub path: VaultPath,
    pub sections: Vec<SectionResult>,
}

pub open spec fn section_result_views(ss: Seq<SectionResult>) -> Seq<SectionResultView> {
    ss.map_values(|s: SectionResult| s@)
}

impl View for NoteResult {
    type V = (PathKey, Seq<SectionResultView>);

    open spec fn view(&self) -> (PathKey, Seq<SectionResultView>) {
        (self.path@, section_result_views(self.sections@))
    }
}

pub open spec fn note_result_views(ns: Seq<NoteResult>) -> Seq<(PathKey, Seq<SectionResultView>)> {
    ns.map_values(|n: NoteResult| n@)
}

/// The tags of the sections, in order, repeats included.
pub open spec fn section_tags(ss: Seq<SectionResultView>) -> Seq<Seq<char>>
    decreases ss.len(),
{
    if ss.len() == 0 {
        Seq::empty()
    } else {
        section_tags(ss.drop_last()) + ss.last().tags
    }
}

/// The links of the sections, in order.
pub open spec fn section_links(ss: Seq<SectionResultView>) -> Seq<IndexLinkView>
    decreases ss.len(),
{
    if ss.len() == 0 {
        Seq::empty()
    } else {
        section_links(ss.drop_last()) + ss.last().links
    }
}

/// The token counts of the sections, added up.
pub open spec fn section_tokens(ss: Seq<SectionResultView>) -> int
    decreases ss.len(),
{
    if ss.len() == 0 {
        0
    } else {
        section_tokens(ss.drop_last()) + ss.last().token_count
    }
}

/// The note a section path belongs to: the note of a section or block, the path itself otherwise.
pub open spec fn note_key(p: PathKey) -> PathKey {
    if p.0 == VaultPathKind::Section || p.0 == VaultPathKind::Block || p.0 == VaultPathKind::Note {
        (VaultPathKind::Note, file_part(p))
    } else {
        p
    }
}

/// The headings a section path names, outermost first; none for other paths.
pub open spec fn path_headings(p: PathKey) -> Seq<Seq<char>> {
    if p.0 == VaultPathKind::Section && fragment(p.1).len() > 0 {
        split_on(fragment(p.1), '/')
    } else {
        Seq::empty()
    }
}

/// The section result made from entry `e` at position `k`.
pub open spec fn section_result_of(e: IndexEntryView, k: int) -> SectionResultView {
    SectionResultView {
        heading_path: path_headings(e.path),
        tags: e.tags,
        links: e.links,
        token_count: e.token_count,
        entry: k,
    }
}

/// The position of the note result for `key`, or `-1`.
pub open spec fn key_index(ns: Seq<(PathKey, Seq<SectionResultView>)>, key: PathKey) -> int
    decreases ns.len(),
{
    if ns.len() == 0 {
        -1
    } else if key_index(ns.drop_last(), key) >= 0 {
        key_index(ns.drop_last(), key)
    } else if ns.last().0 == key {
        ns.len() - 1
    } else {
        -1
    }
}

/// The entries grouped into note results: one per note, in order of the note's
/// first entry, each with the sections of its entries in entry order.
pub open spec fn group_entries(es: Seq<IndexEntryView>) -> Seq<(PathKey, Seq<SectionResultView>)>
    decreases es.len(),
{
    if es.len() == 0 {
        Seq::empty()
    } else {
        let prev = group_entries(es.drop_last());
        let key = note_key(es.last().path);
        let sec = section_result_of(es.last(), es.len() - 1);
        let i = key_index(prev, key);
        if i >= 0 {
            prev.update(i, (key, prev[i].1.push(sec)))
        } else {
            prev.push((key, seq![sec]))
        }
    }
}

proof fn lemma_key_index(ns: Seq<(PathKey, Seq<SectionResultView>)>, key: PathKey)
    ensures
        -1 <= key_index(ns, key) < ns.len(),
        key_index(ns, key) >= 0 ==> ns[key_index(ns, key)].0 == key,
        key_index(ns, key) < 0 ==> forall|j: int| 0 <= j < ns.len() ==> (#[trigger] ns[j]).0 != key,
        key_index(ns, key) >= 0 ==> forall|j: int| 0 <= j < key_index(ns, key) ==> (#[trigger] ns[j]).0 != key,
    decreases ns.len(),
{
    if ns.len() > 0 {
        let init = ns.drop_last();
        lemma_key_index(init, key);
        assert forall|j: int| 0 <= j < ns.len() - 1 implies #[trigger] init[j] == ns[j] by {}
        if key_index(init, key) >= 0 {
            assert(key_index(ns, key) == key_index(init, key));
            assert forall|j: int| 0 <= j < key_index(ns, key) implies (#[trigger] ns[j]).0 != key by {
                assert(init[j] == ns[j]);
            }
        } else if ns.last().0 == key {
            assert(key_index(ns, key) == ns.len() - 1);
            assert forall|j: int| 0 <= j < key_index(ns, key) implies (#[trigger] ns[j]).0 != key by {
                assert(init[j] == ns[j]);
            }
        } else {
            assert(key_index(ns, key) == -1);
            assert forall|j: int| 0 <= j < ns.len() implies (#[trigger] ns[j]).0 != key by {
                if j < ns.len() - 1 {
                    assert(init[j] == ns[j]);
                }
            }
        }
    }
}

/// The section result made from `e`, the entry at position `k`.
fn section_result(e: &IndexEntry, k: usize) -> (r: SectionResult)
    ensures
        r@ == section_result_of(e@, k as int),
{
    let headings = e.path.section_headings();
    assert(texts(headings@) == path_headings(e.path@)) by {
        if !(e.path@.0 == VaultPathKind::Section && fragment(e.path@.1).len() > 0) {
            assert(texts(headings@) =~= Seq::<Seq<char>>::empty());
        }
    }
    SectionResult {
        heading_path: headings,
        tags: clone_texts(&e.tags),
        links: clone_links(&e.links),
        token_count: e.token_count,
        entry: k,
    }
}

/// Where the result for the note path `key` is in `out`.
fn find_note(out: &Vec<NoteResult>, key: &VaultPath) -> (r: Option<usize>)
    ensures
        match r {
            Some(i) => i as int == key_index(note_result_views(out@), key@),
            None => key_index(note_result_views(out@), key@) < 0,
        },
{
    proof {
        lemma_key_index(note_result_views(out@), key@);
    }
    let mut i: usize = 0;
    while i < out.len()
        invariant
            i <= out.len(),
            forall|j: int| 0 <= j < i ==> (#[trigger] out@[j]).path@ != key@,
        decreases out.len() - i,
    {
        if out[i].path.same_as(key) {
            proof {
                let ns = note_result_views(out@);
                lemma_key_index(ns, key@);
                let ki = key_index(ns, key@);
                if ki >= 0 && ki < i {
                    assert(ns[ki] == out@[ki]@);
                }
                if ki < 0 {
                    assert(ns[i as int] == out@[i as int]@);
                }
                if ki > i {
                    assert(ns[i as int] == out@[i as int]@);
                }
            }
            return Some(i);
        }
        i = i + 1;
    }
    proof {
        let ns = note_result_views(out@);
        lemma_key_index(ns, key@);
        let ki = key_index(ns, key@);
        if ki >= 0 {
            assert(ns[ki] == out@[ki]@);
        }
    }
    None
}

impl NoteResult {
    /// The distinct tags of the sections, in order.
    pub fn tags(&self) -> (r: Vec<String>)
        ensures
            strictly_sorted(texts(r@)),
            forall|x: Seq<char>|
                texts(r@).contains(x) <==> section_tags(section_result_views(self.sections@)).contains(x),
    {
        let ghost svs = section_result_views(self.sections@);
        let mut out: Vec<String> = Vec::new();
        let mut k: usize = 0;
        while k < self.sections.len()
            invariant
                k <= self.sections.len(),
                svs == section_result_views(self.sections@),
                strictly_sorted(texts(out@)),
                forall|x: Seq<char>| texts(out@).contains(x) <==> section_tags(svs.take(k as int)).contains(x),
            decreases self.sections.len() - k,
        {
            assert(svs.take(k + 1).drop_last() =~= svs.take(k as int));
            let tags = &self.sections[k].tags;
            let ghost base = section_tags(svs.take(k as int));
            let mut j: usize = 0;
            while j < tags.len()
                invariant
                    j <= tags.len(),
                    tags == &self.sections@[k as int].tags,
                    strictly_sorted(texts(out@)),
                    forall|x: Seq<char>| texts(out@).contains(x) <==> (base + texts(tags@).take(j as int)).contains(x),
                decreases tags.len() - j,
            {
                insert_sorted(&mut out, tags[j].clone());
                proof {
                    let t = texts(tags@);
                    assert(base + t.take(j + 1) =~= (base + t.take(j as int)).push(t[j as int]));
                    assert forall|x: Seq<char>| texts(out@).contains(x) <==> (base + t.take(j + 1)).contains(x) by {
                        if (base + t.take(j as int)).push(t[j as int]).contains(x) {
                            let q = choose|q: int|
                                0 <= q < (base + t.take(j as int)).push(t[j as int]).len() && (base + t.take(
                                    j as int,
                                )).push(t[j as int])[q] == x;
                            if q < (base + t.take(j as int)).len() {
                                assert((base + t.take(j as int))[q] == x);
                            }
                        }
                        if (base + t.take(j as int)).contains(x) {
                            let q = choose|q: int| 0 <= q < (base + t.take(j as int)).len() && (base + t.take(j as int))[q] == x;
                            assert((base + t.take(j as int)).push(t[j as int])[q] == x);
                        }
                        if x == t[j as int] {
                            assert((base + t.take(j as int)).push(t[j as int])[(base + t.take(j as int)).len() as int] == x);
                        }
                    }
                }
                j = j + 1;
            }
            assert(texts(tags@).take(j as int) =~= texts(tags@));
            assert(svs[k as int].tags == texts(tags@));
            k = k + 1;
        }
        assert(svs.take(k as int) =~= svs);
        out
    }

    /// The links of the sections, in order.
    pub fn links(&self) -> (r: Vec<IndexLink>)
        ensures
            index_link_views(r@) == section_links(section_result_views(self.sections@)),
    {
        let ghost svs = section_result_views(self.sections@);
        let mut out: Vec<IndexLink> = Vec::new();
        let mut k: usize = 0;
        while k < self.sections.len()
            invariant
                k <= self.sections.len(),
                svs == section_result_views(self.sections@),
                index_link_views(out@) == section_links(svs.take(k as int)),
            decreases self.sections.len() - k,
        {
            assert(svs.take(k + 1).drop_last() =~= svs.take(k as int));
            let links = &self.sections[k].links;
            let ghost before = index_link_views(out@);
            let mut j: usize = 0;
            while j < links.len()
                invariant
                    j <= links.len(),
                    links == &self.sections@[k as int].links,
                    index_link_views(out@) == before + index_link_views(links@).take(j as int),
                decreases links.len() - j,
            {
                let ghost mid = index_link_views(out@);
                out.push(links[j].clone());
                assert(index_link_views(out@) =~= mid.push(links@[j as int]@));
                assert(index_link_views(links@).take(j + 1) =~= index_link_views(links@).take(j as int).push(
                    links@[j as int]@,
                ));
                j = j + 1;
            }
            assert(index_link_views(links@).take(j as int) =~= index_link_views(links@));
            k = k + 1;
        }
        assert(svs.take(k as int) =~= svs);
        out
    }

    /// The token counts of the sections, added up.
    pub fn total_token_count(&self) -> (c: usize)
        requires
            section_tokens(section_result_views(self.sections@)) <= usize::MAX,
        ensures
            c == section_tokens(section_result_views(self.sections@)),
    {
        let ghost svs = section_result_views(self.sections@);
        let mut total: usize = 0;
        let mut k: usize = 0;
        while k < self.sections.len()
            invariant
                k <= self.sections.len(),
                svs == section_result_views(self.sections@),
                section_tokens(svs) <= usize::MAX,
                total == section_tokens(svs.take(k as int)),
            decreases self.sections.len() - k,
        {
            assert(svs.take(k + 1).drop_last() =~= svs.take(k as int));
            proof {
                lemma_tokens_prefix(svs, k + 1);
            }
            total = total + self.sections[k].token_count;
            k = k + 1;
        }
        assert(svs.take(k as int) =~= svs);
        total
    }

    /// The entries grouped by note: one result per note, in order of the note's
    /// first entry; the sections of a result are its entries, in order.
    pub fn from_entries(entries: &Vec<IndexEntry>) -> (r: Vec<NoteResult>)
        ensures
            note_result_views(r@) == group_entries(entry_views(entries@)),
    {
        let ghost evs = entry_views(entries@);
        let mut out: Vec<NoteResult> = Vec::new();
        let mut k: usize = 0;
        while k < entries.len()
            invariant
                k <= entries.len(),
                evs == entry_views(entries@),
                note_result_views(out@) == group_entries(evs.take(k as int)),
            decreases entries.len() - k,
        {
            let e = &entries[k];
            assert(evs.take(k + 1).drop_last() =~= evs.take(k as int));
            assert(evs.take(k + 1).last() == e@);
            let key = match e.path.note_path() {
                Some(p) => p,
                None => e.path.clone(),
            };
            assert(key@ == note_key(e@.path));
            let section = section_result(e, k);
            let ghost prev = note_result_views(out@);
            proof {
                lemma_key_index(prev, key@);
            }
            match find_note(&out, &key) {
                Some(i) => {
                    let ghost old_i = out@[i as int]@;
                    assert(old_i == prev[i as int]);
                    let ghost sv = section@;
                    let mut moved = NoteResult { path: key, sections: Vec::new() };
                    std::mem::swap(&mut moved, &mut out[i]);
                    let ghost mid = out@;
                    assert(moved@ == old_i);
                    moved.sections.push(section);
                    assert(section_result_views(moved.sections@) =~= old_i.1.push(sv));
                    out.set(i, moved);
                    proof {
                        assert forall|j: int| 0 <= j < out@.len() && j != i implies #[trigger] out@[j]@ == prev[j] by {
                            assert(mid[j] == out@[j]);
                        }
                        assert(note_result_views(out@) =~= prev.update(i as int, (key@, prev[i as int].1.push(
                            section_result_of(e@, k as int),
                        ))));
                    }
                },
                None => {
                    let ghost sv = section@;
                    let mut secs: Vec<SectionResult> = Vec::new();
                    secs.push(section);
                    assert(section_result_views(secs@) =~= seq![sv]);
                    out.push(NoteResult { path: key, sections: secs });
                    assert(note_result_views(out@) =~= prev.push((key@, seq![section_result_of(e@, k as int)])));
                },
            }
            k = k + 1;
        }
        assert(evs.take(k as int) =~= evs);
        out
    }
}

proof fn lemma_tokens_prefix(ss: Seq<SectionResultView>, k: int)
    requires
        0 <= k <= ss.len(),
        forall|j: int| 0 <= j < ss.len() ==> (#[trigger] ss[j]).token_count >= 0,
    ensures
        0 <= section_tokens(ss.take(k)) <= section_tokens(ss),
    decreases ss.len(),
{
    if ss.len() > 0 {
        assert forall|j: int| 0 <= j < ss.len() - 1 implies (#[trigger] ss.drop_last()[j]).token_count >= 0 by {
            assert(ss.drop_last()[j] == ss[j]);
        }
        if k == ss.len() {
            assert(ss.take(k) =~= ss);
            lemma_tokens_prefix(ss.drop_last(), k - 1);
            assert(ss.drop_last().take(k - 1) =~= ss.take(k - 1));
            assert(ss[ss.len() - 1] == ss.last());
        } else {
            lemma_tokens_prefix(ss.drop_last(), k);
            assert(ss.drop_last().take(k) =~= ss.take(k));
            assert(ss[ss.len() - 1] == ss.last());
        }
    } else {
        assert(ss.take(k) =~= ss);
    }
}

// ---------------------------------------------------------------------------
// Tag hierarchy
// ---------------------------------------------------------------------------

/// `t` is a direct child of `parent` in the tag hierarchy: `parent/name` with no
/// further `/`.
pub open spec fn direct_child(parent: Seq<char>, t: Seq<char>) -> bool {
    &&& starts_with(t, parent)
    &&& t.len() > parent.len()
    &&& t[parent.len() as int] == '/'
    &&& forall|j: int| parent.len() < j < t.len() ==> t[j] != '/'
}

/// The tags of `tags` that hold `t` for which `keep` holds, in order.
pub open spec fn children_of(parent: Seq<char>, tags: Seq<Seq<char>>) -> Seq<Seq<char>>
    decreases tags.len(),
{
    if tags.len() == 0 {
        Seq::empty()
    } else if direct_child(parent, tags.last()) {
        children_of(parent, tags.drop_last()).push(tags.last())
    } else {
        children_of(parent, tags.drop_last())
    }
}

/// The tags of `all_tags` that are direct children of `parent`, in order.
pub fn find_direct_children(parent: &str, all_tags: &Vec<String>) -> (r: Vec<String>)
    ensures
        texts(r@) == children_of(parent@, texts(all_tags@)),
{
    let p = crate::text::chars_of(parent);
    let ghost ts = texts(all_tags@);
    let mut out: Vec<String> = Vec::new();
    let mut k: usize = 0;
    while k < all_tags.len()
        invariant
            k <= all_tags.len(),
            p@ == parent@,
            ts == texts(all_tags@),
            texts(out@) == children_of(parent@, ts.take(k as int)),
        decreases all_tags.len() - k,
    {
        assert(ts.take(k + 1).drop_last() =~= ts.take(k as int));
        let t = crate::text::chars_of(all_tags[k].as_str());
        let n = p.len();
        let mut child = t.len() > n && crate::scan::match_at_exec(&t, 0, &p) && t[n] == '/';
        if child {
            let mut j = n + 1;
            while j < t.len() && t[j] != '/'
                invariant
                    n < j <= t.len(),
                    forall|q: int| n < q < j ==> t@[q] != '/',
                decreases t.len() - j,
            {
                j = j + 1;
            }
            child = j == t.len();
            proof {
                if !child {
                    assert(t@[j as int] == '/');
                }
            }
        }
        assert(child == direct_child(parent@, ts[k as int])) by {
            assert(ts[k as int] == t@);
            assert(crate::scan::match_at(t@, 0, p@) == starts_with(t@, p@));
        }
        if child {
            let ghost before = texts(out@);
            out.push(all_tags[k].clone());
            assert(texts(out@) =~= before.push(ts[k as int]));
        }
        k = k + 1;
    }
    assert(ts.take(k as int) =~= ts);
    out
}


/// Each note result of the grouped entries `es` has at least one section, and
/// each section is the result of the entry it names, an entry of that note.
pub open spec fn groups_from(es: Seq<IndexEntryView>, g: Seq<(PathKey, Seq<SectionResultView>)>) -> bool {
    forall|i: int|
        0 <= i < g.len() ==> {
            &&& (#[trigger] g[i]).1.len() > 0
            &&& forall|j: int|
                0 <= j < g[i].1.len() ==> {
                    let k = (#[trigger] g[i].1[j]).entry;
                    &&& 0 <= k < es.len()
                    &&& g[i].1[j] == section_result_of(es[k], k)
                    &&& g[i].0 == note_key(es[k].path)
                }
        }
}

pub proof fn lemma_group_entries_sections(es: Seq<IndexEntryView>)
    ensures
        groups_from(es, group_entries(es)),
    decreases es.len(),
{
    if es.len() > 0 {
        let init = es.drop_last();
        lemma_group_entries_sections(init);
        let prev = group_entries(init);
        let key = note_key(es.last().path);
        let sec = section_result_of(es.last(), es.len() - 1);
        lemma_key_index(prev, key);
        let ki = key_index(prev, key);
        let g = group_entries(es);
        assert forall|k: int| 0 <= k < init.len() implies #[trigger] init[k] == es[k] by {}
        assert forall|i: int| 0 <= i < g.len() implies {
            &&& (#[trigger] g[i]).1.len() > 0
            &&& forall|j: int|
                0 <= j < g[i].1.len() ==> {
                    let k = (#[trigger] g[i].1[j]).entry;
                    &&& 0 <= k < es.len()
                    &&& g[i].1[j] == section_result_of(es[k], k)
                    &&& g[i].0 == note_key(es[k].path)
                }
        } by {
            if ki >= 0 && i == ki {
                assert(g[i] == (key, prev[i].1.push(sec)));
                assert forall|j: int| 0 <= j < g[i].1.len() implies {
                    let k = (#[trigger] g[i].1[j]).entry;
                    &&& 0 <= k < es.len()
                    &&& g[i].1[j] == section_result_of(es[k], k)
                    &&& g[i].0 == note_key(es[k].path)
                } by {
                    if j < prev[i].1.len() {
                        assert(g[i].1[j] == prev[i].1[j]);
                        let k = prev[i].1[j].entry;
                        assert(init[k] == es[k]);
                    }
                }
            } else if i < prev.len() {
                assert(g[i] == prev[i]);
                assert forall|j: int| 0 <= j < g[i].1.len() implies {
                    let k = (#[trigger] g[i].1[j]).entry;
                    &&& 0 <= k < es.len()
                    &&& g[i].1[j] == section_result_of(es[k], k)
                    &&& g[i].0 == note_key(es[k].path)
                } by {
                    let k = prev[i].1[j].entry;
                    assert(init[k] == es[k]);
                }
            } else {
                assert(g[i] == (key, seq![sec]));
                assert forall|j: int| 0 <= j < g[i].1.len() implies {
                    let k = (#[trigger] g[i].1[j]).entry;
                    &&& 0 <= k < es.len()
                    &&& g[i].1[j] == section_result_of(es[k], k)
                    &&& g[i].0 == note_key(es[k].path)
                } by {
                    assert(g[i].1[j] == sec);
                }
            }
        }
    }
}

/// Where `key_index` points, the result has that key.
pub proof fn lemma_key_index_bounds(ns: Seq<(PathKey, Seq<SectionResultView>)>, key: PathKey)
    ensures
        -1 <= key_index(ns, key) < ns.len(),
        key_index(ns, key) >= 0 ==> ns[key_index(ns, key)].0 == key,
{
    lemma_key_index(ns, key);
}

} // verus!
