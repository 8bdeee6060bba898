//! The section entries of the in-memory index and the queries answered from them:
//! the entries of a note, listings by folder, backlinks, forward links, the hard
//! filters of a search, and the token budget of its results.
use vstd::prelude::*;

use crate::index::{
    clone_links, entry_views, group_entries, index_link_of, index_link_views, lemma_group_entries_sections, note_key,
    key_index, lemma_key_index_bounds, path_headings, section_result_of, IndexEntry, IndexEntryView, IndexLink, IndexLinkView, NoteResult,
    SectionResultView,
};
use crate::order::{lex_lt, lex_lt_exec, texts};
use crate::revisions::PathKey;
use crate::text::starts_with;
use crate::links::LinkView;
use crate::note::{fm_tags, Note};
use crate::sections::{section_views, Section, SectionView};
use crate::vault_path::{
    file_extension, fragment, note_part, parent_spec, split_on, under_folder_spec, vault_path_spec, VaultPath,
    VaultPathFault, VaultPathKind,
};
use crate::paths::{
    has_parent_segment, is_normalized, lemma_normalize_is_normalized, lemma_normalized_fixpoint, md_suffix,
    normalize_separators, parent_segment_at,
};
use crate::text::{
    ends_with, has_char, last_index_of, lemma_first_index_of_is, lemma_last_index_of_bounds, trim_end_char,
};

verus! {

/// Why the index could not answer.
#[derive(Debug)]
pub enum IndexError {
    /// No section of the note is indexed.
    NotFound(VaultPath),
    NotSupported,
    Corrupted(String),
    Backend(String),
}

impl IndexError {
    /// The message of the error.
    pub open spec fn message(&self) -> Seq<char> {
        match self {
            IndexError::NotFound(p) => "note not found: "@ + p@.1,
            IndexError::NotSupported => "operation not supported by this backend"@,
            IndexError::Corrupted(m) => "index corrupted: "@ + m@,
            IndexError::Backend(m) => "backend error: "@ + m@,
        }
    }

    /// The message of the error.
    pub fn to_string(&self) -> (r: String)
        ensures
            r@ == self.message(),
    {
        match self {
            IndexError::NotFound(p) => {
                let mut s = crate::text::owned("note not found: ");
                s.append(p.as_str());
                s
            },
            IndexError::NotSupported => crate::text::owned("operation not supported by this backend"),
            IndexError::Corrupted(m) => {
                let mut s = crate::text::owned("index corrupted: ");
                s.append(m.as_str());
                s
            },
            IndexError::Backend(m) => {
                let mut s = crate::text::owned("backend error: ");
                s.append(m.as_str());
                s
            },
        }
    }
}

/// The entries of `es` that satisfy `keep`, in order.
pub open spec fn filter_entries(es: Seq<IndexEntryView>, keep: spec_fn(IndexEntryView) -> bool) -> Seq<IndexEntryView>
    decreases es.len(),
{
    if es.len() == 0 {
        Seq::empty()
    } else if keep(es.last()) {
        filter_entries(es.drop_last(), keep).push(es.last())
    } else {
        filter_entries(es.drop_last(), keep)
    }
}

/// The entry belongs to the note `p`: it is a section, block or note path whose note is `p`.
pub open spec fn of_note(e: IndexEntryView, p: PathKey) -> bool {
    (e.path.0 == VaultPathKind::Section || e.path.0 == VaultPathKind::Block || e.path.0 == VaultPathKind::Note)
        && note_key(e.path) == p
}

/// The entry is listed for `folder`: every entry when there is none; with
/// `recursive`, the entries under the folder; otherwise those whose note lies
/// directly in it.
pub open spec fn listed(e: IndexEntryView, folder: Option<PathKey>, recursive: bool) -> bool {
    match folder {
        None => true,
        Some(f) => if recursive {
            under_folder_spec(e.path, f)
        } else {
            (e.path.0 == VaultPathKind::Section || e.path.0 == VaultPathKind::Block || e.path.0
                == VaultPathKind::Note) && parent_spec(note_key(e.path)) == Some(f)
        },
    }
}

/// The entry holds a wikilink to `target`.
pub open spec fn links_to(e: IndexEntryView, target: Seq<char>) -> bool {
    exists|j: int| 0 <= j < e.links.len() && is_wiki_to(#[trigger] e.links[j], target)
}

/// The link is a wikilink to `target`.
pub open spec fn is_wiki_to(l: IndexLinkView, target: Seq<char>) -> bool {
    match l {
        IndexLinkView::Wiki { target: t, .. } => t == target,
        _ => false,
    }
}

/// The entry's tag `t` matches the filter tag `q`: it is `q` or lies below it (`q/…`).
pub open spec fn tag_matches(t: Seq<char>, q: Seq<char>) -> bool {
    t == q || (starts_with(t, q) && t.len() > q.len() && t[q.len() as int] == '/')
}

/// The entry passes the hard filters of a search: it has a tag that matches one
/// of `tags` (when there are any), and it lies under one of `folders` (when there are any).
pub open spec fn passes_filters(e: IndexEntryView, tags: Seq<Seq<char>>, folders: Seq<PathKey>) -> bool {
    &&& (tags.len() == 0 || exists|i: int, j: int|
        0 <= i < e.tags.len() && 0 <= j < tags.len() && tag_matches(#[trigger] e.tags[i], #[trigger] tags[j]))
    &&& (folders.len() == 0 || exists|j: int| 0 <= j < folders.len() && under_folder_spec(e.path, #[trigger] folders[j]))
}

/// The links of the entries, in order.
pub open spec fn entry_links(es: Seq<IndexEntryView>) -> Seq<IndexLinkView>
    decreases es.len(),
{
    if es.len() == 0 {
        Seq::empty()
    } else {
        entry_links(es.drop_last()) + es.last().links
    }
}

/// No two entries have the same path.
pub open spec fn distinct_entry_paths(es: Seq<IndexEntryView>) -> bool {
    forall|i: int, j: int| 0 <= i < j < es.len() ==> (#[trigger] es[i]).path != (#[trigger] es[j]).path
}

/// The results are in order of their paths' texts.
pub open spec fn sorted_by_path(ns: Seq<(PathKey, Seq<crate::index::SectionResultView>)>) -> bool {
    forall|i: int, j: int| 0 <= i < j < ns.len() ==> !lex_lt((#[trigger] ns[j]).0.1, (#[trigger] ns[i]).0.1)
}

/// How many of the first `limit` results fit in the token budget: results are
/// taken in order while their token counts, added up, stay within `token_limit`.
pub open spec fn within_budget(counts: Seq<int>, limit: int, token_limit: Option<int>) -> int {
    let m = if limit < counts.len() {
        limit
    } else {
        counts.len() as int
    };
    match token_limit {
        None => m,
        Some(t) => budget_prefix(counts, m, t, 0, 0),
    }
}

/// From position `i` on, with `used` tokens taken: how many results fit.
pub open spec fn budget_prefix(counts: Seq<int>, m: int, t: int, i: int, used: int) -> int
    decreases m - i,
{
    if i >= m || i < 0 {
        m
    } else if used + counts[i] > t {
        i
    } else {
        budget_prefix(counts, m, t, i + 1, used + counts[i])
    }
}

/// Where the results of a search or a listing stop: see `within_budget`.
pub fn apply_token_limit(counts: &Vec<usize>, limit: usize, token_limit: Option<usize>) -> (k: usize)
    ensures
        k as int == within_budget(counts@.map_values(|c: usize| c as int), limit as int, match token_limit {
            Some(t) => Some(t as int),
            None => None,
        }),
{
    let ghost cs = counts@.map_values(|c: usize| c as int);
    let m = if limit < counts.len() {
        limit
    } else {
        counts.len()
    };
    match token_limit {
        None => m,
        Some(t) => {
            let mut used: usize = 0;
            let mut i: usize = 0;
            while i < m
                invariant
                    i <= m <= counts.len(),
                    m == (if limit < counts.len() {
                        limit
                    } else {
                        counts.len()
                    }),
                    token_limit == Some(t),
                    used <= t,
                    cs == counts@.map_values(|c: usize| c as int),
                    budget_prefix(cs, m as int, t as int, 0, 0) == budget_prefix(cs, m as int, t as int, i as int, used as int),
                decreases m - i,
            {
                assert(cs[i as int] == counts@[i as int] as int);
                if counts[i] > t - used {
                    return i;
                }
                used = used + counts[i];
                i = i + 1;
            }
            m
        },
    }
}

/// Whether `t` matches the filter tag `q` (see `tag_matches`).
fn tag_matches_exec(t: &String, q: &String) -> (b: bool)
    ensures
        b == tag_matches(t@, q@),
{
    if *t == *q {
        return true;
    }
    let tv = crate::text::chars_of(t.as_str());
    let qv = crate::text::chars_of(q.as_str());
    let n = qv.len();
    tv.len() > n && crate::scan::match_at_exec(&tv, 0, &qv) && tv[n] == '/'
}

/// The section entries of the in-memory index, each path once, and the number of indexed notes.
pub struct SectionStore {
    entries: Vec<IndexEntry>,
    note_count: usize,
}

impl SectionStore {
    #[verifier::type_invariant]
    closed spec fn inv(self) -> bool {
        distinct_entry_paths(entry_views(self.entries@))
    }

    /// The entries, in the order they were added.
    pub closed spec fn entries_view(self) -> Seq<IndexEntryView> {
        entry_views(self.entries@)
    }

    pub closed spec fn notes(self) -> int {
        self.note_count as int
    }

    /// An empty store.
    pub fn new() -> (r: SectionStore)
        ensures
            r.entries_view() == Seq::<IndexEntryView>::empty(),
            r.notes() == 0,
    {
        let r = SectionStore { entries: Vec::new(), note_count: 0 };
        assert(entry_views(r.entries@) =~= Seq::<IndexEntryView>::empty());
        r
    }

    /// The number of section entries.
    pub fn count(&self) -> (c: usize)
        ensures
            c == self.entries_view().len(),
    {
        self.entries.len()
    }

    /// The number of indexed notes.
    pub fn note_count(&self) -> (c: usize)
        ensures
            c == self.notes(),
    {
        self.note_count
    }

    /// Forgets every entry and note.
    pub fn clear(&mut self)
        ensures
            final(self).entries_view() == Seq::<IndexEntryView>::empty(),
            final(self).notes() == 0,
    {
        let empty = SectionStore::new();
        *self = empty;
    }

    /// The entries of the note `path`, in order; `NotFound` when it has none.
    pub fn get(&self, path: &VaultPath) -> (r: Result<Vec<IndexEntry>, IndexError>)
        ensures
            match r {
                Ok(es) => entry_views(es@) == filter_entries(self.entries_view(), |e: IndexEntryView| of_note(e, path@))
                    && es@.len() > 0,
                Err(e) => filter_entries(self.entries_view(), |e: IndexEntryView| of_note(e, path@)).len() == 0
                    && (e matches IndexError::NotFound(p) && p@ == path@),
            },
    {
        let ghost evs = self.entries_view();
        let mut out: Vec<IndexEntry> = Vec::new();
        let mut k: usize = 0;
        while k < self.entries.len()
            invariant
                k <= self.entries@.len(),
                evs == entry_views(self.entries@),
                entry_views(out@) == filter_entries(evs.take(k as int), |e: IndexEntryView| of_note(e, path@)),
            decreases self.entries.len() - k,
        {
            assert(evs.take(k + 1).drop_last() =~= evs.take(k as int));
            let e = &self.entries[k];
            assert(evs[k as int] == e@);
            let belongs = match e.path.note_path() {
                Some(np) => np.same_as(path),
                None => false,
            };
            if belongs {
                let ghost before = entry_views(out@);
                out.push(e.clone());
                assert(entry_views(out@) =~= before.push(e@));
            }
            k = k + 1;
        }
        assert(evs.take(k as int) =~= evs);
        if out.len() == 0 {
            Err(IndexError::NotFound(path.clone()))
        } else {
            Ok(out)
        }
    }

    /// The links of the note `path`'s entries, in order.
    pub fn forward_links(&self, path: &VaultPath) -> (r: Vec<IndexLink>)
        ensures
            index_link_views(r@) == entry_links(
                filter_entries(self.entries_view(), |e: IndexEntryView| of_note(e, path@)),
            ),
    {
        let ghost evs = self.entries_view();
        let mut out: Vec<IndexLink> = Vec::new();
        let mut k: usize = 0;
        while k < self.entries.len()
            invariant
                k <= self.entries@.len(),
                evs == entry_views(self.entries@),
                index_link_views(out@) == entry_links(
                    filter_entries(evs.take(k as int), |e: IndexEntryView| of_note(e, path@)),
                ),
            decreases self.entries.len() - k,
        {
            assert(evs.take(k + 1).drop_last() =~= evs.take(k as int));
            let e = &self.entries[k];
            assert(evs[k as int] == e@);
            let belongs = match e.path.note_path() {
                Some(np) => np.same_as(path),
                None => false,
            };
            if belongs {
                let ghost before = index_link_views(out@);
                let more = clone_links(&e.links);
                let mut j: usize = 0;
                while j < more.len()
                    invariant
                        j <= more.len(),
                        index_link_views(out@) == before + index_link_views(more@).take(j as int),
                    decreases more.len() - j,
                {
                    let ghost mid = index_link_views(out@);
                    let c = more[j].clone();
                    out.push(c);
                    assert(index_link_views(out@) =~= mid.push(more@[j as int]@));
                    assert(index_link_views(more@).take(j + 1) =~= index_link_views(more@).take(j as int).push(
                        more@[j as int]@,
                    ));
                    j = j + 1;
                }
                assert(index_link_views(more@).take(j as int) =~= index_link_views(more@));
                assert(filter_entries(evs.take(k + 1), |e: IndexEntryView| of_note(e, path@)) == filter_entries(
                    evs.take(k as int),
                    |e: IndexEntryView| of_note(e, path@),
                ).push(e@));
                let ghost f = filter_entries(evs.take(k as int), |e: IndexEntryView| of_note(e, path@));
                assert(f.push(e@).drop_last() =~= f);
            } else {
                assert(filter_entries(evs.take(k + 1), |e: IndexEntryView| of_note(e, path@)) == filter_entries(
                    evs.take(k as int),
                    |e: IndexEntryView| of_note(e, path@),
                ));
            }
            k = k + 1;
        }
        assert(evs.take(k as int) =~= evs);
        out
    }
}

/// Whether `a`'s path text comes before `b`'s.
fn path_lt(a: &VaultPath, b: &VaultPath) -> (r: bool)
    ensures
        r == lex_lt(a@.1, b@.1),
{
    let av = crate::text::chars_of(a.as_str());
    let bv = crate::text::chars_of(b.as_str());
    lex_lt_exec(&av, &bv)
}

/// The results ordered by path text.
pub fn sort_by_path(v: Vec<NoteResult>) -> (r: Vec<NoteResult>)
    ensures
        sorted_by_path(crate::index::note_result_views(r@)),
        crate::index::note_result_views(r@).to_multiset() == crate::index::note_result_views(v@).to_multiset(),
{
    broadcast use vstd::seq_lib::group_to_multiset_ensures;

    let ghost orig = crate::index::note_result_views(v@);
    let mut input = v;
    let mut out: Vec<NoteResult> = Vec::new();
    assert(crate::index::note_result_views(out@) =~= Seq::empty());
    while input.len() > 0
        invariant
            sorted_by_path(crate::index::note_result_views(out@)),
            crate::index::note_result_views(out@).to_multiset().add(crate::index::note_result_views(input@).to_multiset())
                == orig.to_multiset(),
        decreases input.len(),
    {
        let ghost in_v = crate::index::note_result_views(input@);
        let ghost out_v = crate::index::note_result_views(out@);
        let item = input.pop().unwrap();
        assert(crate::index::note_result_views(input@) =~= in_v.drop_last());
        assert(in_v =~= in_v.drop_last().push(item@));
        let mut p: usize = 0;
        while p < out.len() && !path_lt(&item.path, &out[p].path)
            invariant
                p <= out.len(),
                out_v == crate::index::note_result_views(out@),
                forall|j: int| 0 <= j < p ==> !lex_lt(item@.0.1, (#[trigger] out_v[j]).0.1),
            decreases out.len() - p,
        {
            assert(out_v[p as int] == out@[p as int]@);
            p = p + 1;
        }
        proof {
            if p < out.len() {
                assert(out_v[p as int] == out@[p as int]@);
                assert(lex_lt(item@.0.1, out_v[p as int].0.1));
            }
        }
        let ghost iv = item@;
        out.insert(p, item);
        let ghost new_v = crate::index::note_result_views(out@);
        assert(new_v =~= out_v.insert(p as int, iv));
        assert(sorted_by_path(new_v)) by {
            assert forall|a: int, b: int| 0 <= a < b < new_v.len() implies !lex_lt(
                (#[trigger] new_v[b]).0.1,
                (#[trigger] new_v[a]).0.1,
            ) by {
                if b < p {
                } else if b == p {
                    assert(new_v[a] == out_v[a]);
                    assert(!lex_lt(iv.0.1, out_v[a].0.1));
                } else if a < p {
                    assert(new_v[b] == out_v[b - 1]);
                    assert(!lex_lt(out_v[b - 1].0.1, out_v[a].0.1));
                } else if a == p {
                    assert(new_v[b] == out_v[b - 1]);
                    if p < out_v.len() {
                        assert(lex_lt(iv.0.1, out_v[p as int].0.1));
                        if b - 1 > p {
                            assert(!lex_lt(out_v[b - 1].0.1, out_v[p as int].0.1));
                            crate::order::lemma_lex_total(out_v[b - 1].0.1, out_v[p as int].0.1);
                            if out_v[b - 1].0.1 != out_v[p as int].0.1 {
                                crate::order::lemma_lex_transitive(iv.0.1, out_v[p as int].0.1, out_v[b - 1].0.1);
                            }
                        }
                        crate::order::lemma_lex_asymmetric(iv.0.1, out_v[b - 1].0.1);
                    }
                } else {
                    assert(new_v[a] == out_v[a - 1]);
                    assert(new_v[b] == out_v[b - 1]);
                }
            }
        }
        proof {
            vstd::seq_lib::to_multiset_insert(out_v, p as int, iv);
            vstd::seq_lib::to_multiset_build(in_v.drop_last(), iv);
        }
        assert(new_v.to_multiset() == out_v.to_multiset().insert(iv));
        assert(in_v.to_multiset() == in_v.drop_last().to_multiset().insert(iv));
        assert(new_v.to_multiset().add(in_v.drop_last().to_multiset()) =~= out_v.to_multiset().add(
            in_v.to_multiset(),
        ));
    }
    assert(crate::index::note_result_views(input@) =~= Seq::empty());
    assert(crate::index::note_result_views(out@).to_multiset().add(Seq::empty().to_multiset()) =~= crate::index::note_result_views(out@).to_multiset());
    out
}

proof fn lemma_filter_distinct(es: Seq<IndexEntryView>, keep: spec_fn(IndexEntryView) -> bool)
    requires
        distinct_entry_paths(es),
    ensures
        distinct_entry_paths(filter_entries(es, keep)),
        forall|i: int| 0 <= i < filter_entries(es, keep).len() ==> es.contains(#[trigger] filter_entries(es, keep)[i]),
    decreases es.len(),
{
    if es.len() > 0 {
        let init = es.drop_last();
        assert(distinct_entry_paths(init)) by {
            assert forall|i: int, j: int| 0 <= i < j < init.len() implies (#[trigger] init[i]).path != (
            #[trigger] init[j]).path by {
                assert(init[i] == es[i] && init[j] == es[j]);
            }
        }
        lemma_filter_distinct(init, keep);
        let fi = filter_entries(init, keep);
        assert forall|i: int| 0 <= i < fi.len() implies es.contains(#[trigger] fi[i]) by {
            let j = choose|j: int| 0 <= j < init.len() && init[j] == fi[i];
            assert(es[j] == init[j]);
        }
        if keep(es.last()) {
            let f = fi.push(es.last());
            assert forall|i: int, j: int| 0 <= i < j < f.len() implies (#[trigger] f[i]).path != (#[trigger] f[j]).path by {
                if j == f.len() - 1 {
                    let q = choose|q: int| 0 <= q < init.len() && init[q] == fi[i];
                    assert(es[q] == init[q]);
                    assert(es[es.len() - 1] == es.last());
                } else {
                    assert(f[i] == fi[i] && f[j] == fi[j]);
                }
            }
            assert forall|i: int| 0 <= i < f.len() implies es.contains(#[trigger] f[i]) by {
                if i == f.len() - 1 {
                    assert(es[es.len() - 1] == es.last());
                } else {
                    assert(f[i] == fi[i]);
                }
            }
        }
    }
}

pub open spec fn folder_view(folder: Option<&VaultPath>) -> Option<PathKey> {
    match folder {
        Some(f) => Some(f@),
        None => None,
    }
}

/// The entries of `src` that belong in a listing of `folder`, in order.
fn select_listed(src: &Vec<IndexEntry>, folder: Option<&VaultPath>, recursive: bool) -> (r: Vec<IndexEntry>)
    ensures
        entry_views(r@) == filter_entries(
            entry_views(src@),
            |e: IndexEntryView| listed(e, folder_view(folder), recursive),
        ),
{
    let ghost evs = entry_views(src@);
    let mut out: Vec<IndexEntry> = Vec::new();
    let mut k: usize = 0;
    while k < src.len()
        invariant
            k <= src@.len(),
            evs == entry_views(src@),
            entry_views(out@) == filter_entries(
                evs.take(k as int),
                |e: IndexEntryView| listed(e, folder_view(folder), recursive),
            ),
        decreases src.len() - k,
    {
        assert(evs.take(k + 1).drop_last() =~= evs.take(k as int));
        let e = &src[k];
        assert(evs[k as int] == e@);
        let keep = match folder {
            None => true,
            Some(f) => if recursive {
                e.path.is_under_folder(f)
            } else {
                match e.path.note_path() {
                    Some(np) => np.is_in_folder(f),
                    None => false,
                }
            },
        };
        assert(keep == listed(e@, folder_view(folder), recursive));
        if keep {
            let ghost before = entry_views(out@);
            out.push(e.clone());
            assert(entry_views(out@) =~= before.push(e@));
        }
        k = k + 1;
    }
    assert(evs.take(k as int) =~= evs);
    out
}

fn is_wiki_to_exec(l: &IndexLink, target: &String) -> (b: bool)
    ensures
        b == is_wiki_to(l@, target@),
{
    match l {
        IndexLink::Wiki { target: t, .. } => *t == *target,
        _ => false,
    }
}

fn links_to_exec(e: &IndexEntry, target: &String) -> (b: bool)
    ensures
        b == links_to(e@, target@),
{
    let mut j: usize = 0;
    while j < e.links.len()
        invariant
            j <= e.links@.len(),
            forall|q: int| 0 <= q < j ==> !is_wiki_to(#[trigger] e@.links[q], target@),
        decreases e.links.len() - j,
    {
        if is_wiki_to_exec(&e.links[j], target) {
            assert(is_wiki_to(e@.links[j as int], target@));
            return true;
        }
        j = j + 1;
    }
    false
}

impl SectionStore {
    /// The notes listed for `folder` (every note when there is none): with
    /// `recursive` the notes under the folder, otherwise those directly in it;
    /// ordered by path.
    pub fn list(&self, folder: Option<&VaultPath>, recursive: bool) -> (r: Vec<NoteResult>)
        ensures
            sorted_by_path(crate::index::note_result_views(r@)),
            crate::index::note_result_views(r@).to_multiset() == group_entries(
                filter_entries(
                    self.entries_view(),
                    |e: IndexEntryView| listed(e, folder_view(folder), recursive),
                ),
            ).to_multiset(),
    {
        let selected = select_listed(&self.entries, folder, recursive);
        let notes = NoteResult::from_entries(&selected);
        sort_by_path(notes)
    }

    /// The notes with a section that holds a wikilink to `target`, ordered by path.
    pub fn backlinks(&self, target: &str) -> (r: Vec<NoteResult>)
        ensures
            sorted_by_path(crate::index::note_result_views(r@)),
            crate::index::note_result_views(r@).to_multiset() == group_entries(
                filter_entries(self.entries_view(), |e: IndexEntryView| links_to(e, target@)),
            ).to_multiset(),
    {
        let t = target.to_string();
        let ghost evs = self.entries_view();
        let mut out: Vec<IndexEntry> = Vec::new();
        let mut k: usize = 0;
        while k < self.entries.len()
            invariant
                k <= self.entries@.len(),
                evs == entry_views(self.entries@),
                t@ == target@,
                entry_views(out@) == filter_entries(evs.take(k as int), |e: IndexEntryView| links_to(e, target@)),
            decreases self.entries.len() - k,
        {
            assert(evs.take(k + 1).drop_last() =~= evs.take(k as int));
            let e = &self.entries[k];
            assert(evs[k as int] == e@);
            if links_to_exec(e, &t) {
                let ghost before = entry_views(out@);
                out.push(e.clone());
                assert(entry_views(out@) =~= before.push(e@));
            }
            k = k + 1;
        }
        assert(evs.take(k as int) =~= evs);
        let notes = NoteResult::from_entries(&out);
        sort_by_path(notes)
    }

    /// Removes the entries of the note `path`; returns their paths, in order. The
    /// note count drops by one (not below zero) when there were any.
    pub fn remove_note(&mut self, path: &VaultPath) -> (r: Vec<VaultPath>)
        ensures
            final(self).entries_view() == filter_entries(old(self).entries_view(), |e: IndexEntryView| !of_note(e, path@)),
            r@.map_values(|p: VaultPath| p@) == filter_entries(
                old(self).entries_view(),
                |e: IndexEntryView| of_note(e, path@),
            ).map_values(|e: IndexEntryView| e.path),
            final(self).notes() == if r@.len() > 0 && old(self).notes() > 0 {
                old(self).notes() - 1
            } else {
                old(self).notes()
            },
    {
        proof {
            use_type_invariant(&*self);
        }
        let ghost evs = self.entries_view();
        let mut kept: Vec<IndexEntry> = Vec::new();
        let mut removed: Vec<VaultPath> = Vec::new();
        let mut k: usize = 0;
        while k < self.entries.len()
            invariant
                k <= self.entries@.len(),
                evs == entry_views(self.entries@),
                entry_views(kept@) == filter_entries(evs.take(k as int), |e: IndexEntryView| !of_note(e, path@)),
                removed@.map_values(|p: VaultPath| p@) == filter_entries(
                    evs.take(k as int),
                    |e: IndexEntryView| of_note(e, path@),
                ).map_values(|e: IndexEntryView| e.path),
            decreases self.entries.len() - k,
        {
            assert(evs.take(k + 1).drop_last() =~= evs.take(k as int));
            let e = &self.entries[k];
            assert(evs[k as int] == e@);
            let belongs = match e.path.note_path() {
                Some(np) => np.same_as(path),
                None => false,
            };
            if belongs {
                let ghost before = removed@.map_values(|p: VaultPath| p@);
                let ghost fr = filter_entries(evs.take(k as int), |e: IndexEntryView| of_note(e, path@));
                removed.push(e.path.clone());
                assert(removed@.map_values(|p: VaultPath| p@) =~= before.push(e@.path));
                assert(fr.push(e@).map_values(|e: IndexEntryView| e.path) =~= fr.map_values(|e: IndexEntryView| e.path).push(e@.path));
            } else {
                let ghost before = entry_views(kept@);
                kept.push(e.clone());
                assert(entry_views(kept@) =~= before.push(e@));
            }
            k = k + 1;
        }
        assert(evs.take(k as int) =~= evs);
        proof {
            lemma_filter_distinct(evs, |e: IndexEntryView| !of_note(e, path@));
        }
        let count = if removed.len() > 0 && self.note_count > 0 {
            self.note_count - 1
        } else {
            self.note_count
        };
        *self = SectionStore { entries: kept, note_count: count };
        removed
    }
}

// ---------------------------------------------------------------------------
// Indexing a note
// ---------------------------------------------------------------------------

/// The texts joined with `/`.
pub open spec fn join_slash(parts: Seq<Seq<char>>) -> Seq<char>
    decreases parts.len(),
{
    if parts.len() == 0 {
        Seq::empty()
    } else if parts.len() == 1 {
        parts[0]
    } else {
        join_slash(parts.drop_last()) + seq!['/'] + parts.last()
    }
}

/// The path of the section with heading path `hp` in the note `note_text`:
/// `note#h1/h2/…`, when that text is a vault path.
pub open spec fn section_key(note_text: Seq<char>, hp: Seq<Seq<char>>) -> Option<PathKey> {
    match vault_path_spec(note_text + seq!['#'] + join_slash(hp)) {
        Ok(k) => Some(k),
        Err(_) => None,
    }
}

/// The entry of the section `s` at `key`: the note's frontmatter tags, then the
/// section's tag names (without `#`), its links, and its token count.
pub open spec fn section_entry(key: PathKey, fm_tags: Seq<Seq<char>>, s: SectionView, count: int) -> IndexEntryView {
    IndexEntryView {
        path: key,
        tags: fm_tags + s.tags.map_values(|t: Seq<char>| t.drop_first()),
        links: s.links.map_values(|l: LinkView| index_link_of(l)),
        token_count: count,
    }
}

/// The position of the entry at `p`, or `-1`.
pub open spec fn path_index(es: Seq<IndexEntryView>, p: PathKey) -> int
    decreases es.len(),
{
    if es.len() == 0 {
        -1
    } else if path_index(es.drop_last(), p) >= 0 {
        path_index(es.drop_last(), p)
    } else if es.last().path == p {
        es.len() - 1
    } else {
        -1
    }
}

/// The entries with `e` in place of the entry at its path, or added at the end.
pub open spec fn upsert(es: Seq<IndexEntryView>, e: IndexEntryView) -> Seq<IndexEntryView> {
    let i = path_index(es, e.path);
    if i >= 0 {
        es.update(i, e)
    } else {
        es.push(e)
    }
}

/// The entries after indexing the sections `ss` of the note `note_text`.
pub open spec fn index_sections(
    es: Seq<IndexEntryView>,
    note_text: Seq<char>,
    fm_tags: Seq<Seq<char>>,
    ss: Seq<SectionView>,
    counts: Seq<int>,
) -> Seq<IndexEntryView>
    decreases ss.len(),
{
    if ss.len() == 0 {
        es
    } else {
        let prev = index_sections(es, note_text, fm_tags, ss.drop_last(), counts);
        match section_key(note_text, ss.last().heading_path) {
            Some(key) => upsert(prev, section_entry(key, fm_tags, ss.last(), counts[ss.len() - 1])),
            None => prev,
        }
    }
}

proof fn lemma_path_index(es: Seq<IndexEntryView>, p: PathKey)
    ensures
        -1 <= path_index(es, p) < es.len(),
        path_index(es, p) >= 0 ==> es[path_index(es, p)].path == p,
        path_index(es, p) < 0 ==> forall|j: int| 0 <= j < es.len() ==> (#[trigger] es[j]).path != p,
    decreases es.len(),
{
    if es.len() > 0 {
        let init = es.drop_last();
        lemma_path_index(init, p);
        assert forall|j: int| 0 <= j < es.len() - 1 implies #[trigger] init[j] == es[j] by {}
        if path_index(init, p) < 0 && es.last().path != p {
            assert forall|j: int| 0 <= j < es.len() implies (#[trigger] es[j]).path != p by {
                if j < es.len() - 1 {
                    assert(init[j] == es[j]);
                }
            }
        }
    }
}

/// The texts of `parts` joined with `/`.
pub fn join_slash_exec(parts: &Vec<String>) -> (r: String)
    ensures
        r@ == join_slash(texts(parts@)),
{
    let ghost ts = texts(parts@);
    let mut r = String::new();
    let mut k: usize = 0;
    while k < parts.len()
        invariant
            k <= parts.len(),
            ts == texts(parts@),
            r@ == join_slash(ts.take(k as int)),
        decreases parts.len() - k,
    {
        assert(ts.take(k + 1).drop_last() =~= ts.take(k as int));
        if k > 0 {
            r.push('/');
        } else {
            assert(ts.take(1) =~= seq![ts[0]]);
        }
        r.append(parts[k].as_str());
        assert(r@ =~= join_slash(ts.take(k + 1)));
        k = k + 1;
    }
    assert(ts.take(k as int) =~= ts);
    r
}

/// The path `note#h1/h2/…` of the section with heading path `heading_path`, when it is a vault path.
pub fn make_section_path(note_path: &VaultPath, heading_path: &Vec<String>) -> (r: Option<VaultPath>)
    ensures
        match r {
            Some(p) => section_key(note_path@.1, texts(heading_path@)) == Some(p@),
            None => section_key(note_path@.1, texts(heading_path@)) is None,
        },
        ({
            let hs = texts(heading_path@);
            vault_path_spec(note_path@.1) == Ok::<_, VaultPathFault>((VaultPathKind::Note, note_path@.1)) && (forall|k: int|
                0 <= k < hs.len() ==> path_heading(#[trigger] hs[k])) && (hs.len() > 0 ==> hs[0][0] != '^')
        }) ==> (r matches Some(p) && p@ == (VaultPathKind::Section, note_path@.1 + seq!['#'] + join_slash(
            texts(heading_path@),
        )) && note_part(p@.1) == note_path@.1 && (heading_path@.len() > 0 ==> split_on(fragment(p@.1), '/')
            == texts(heading_path@)) && parent_spec(p@) == Some((VaultPathKind::Note, note_path@.1))),
{
    proof {
        let hs = texts(heading_path@);
        if vault_path_spec(note_path@.1) == Ok::<_, VaultPathFault>((VaultPathKind::Note, note_path@.1)) && (forall|k: int|
            0 <= k < hs.len() ==> path_heading(#[trigger] hs[k])) && (hs.len() > 0 ==> hs[0][0] != '^') {
            law_section_path_reads_back(note_path@.1, hs);
        }
    }
    let mut text = note_path.as_str().to_string();
    text.push('#');
    let tail = join_slash_exec(heading_path);
    text.append(tail.as_str());
    assert(text@ =~= note_path@.1 + seq!['#'] + join_slash(texts(heading_path@)));
    match VaultPath::new(text.as_str()) {
        Ok(p) => Some(p),
        Err(_) => None,
    }
}

/// The entry of `section` at `key` (see `section_entry`).
fn section_entry_exec(key: VaultPath, fm_tags: &Vec<String>, section: &Section, count: usize) -> (r: IndexEntry)
    ensures
        r@ == section_entry(key@, texts(fm_tags@), section@, count as int),
{
    let mut tags = crate::index::clone_texts(fm_tags);
    let ghost names = section@.tags.map_values(|t: Seq<char>| t.drop_first());
    let mut j: usize = 0;
    while j < section.tags.len()
        invariant
            j <= section.tags@.len(),
            names == section@.tags.map_values(|t: Seq<char>| t.drop_first()),
            texts(tags@) == texts(fm_tags@) + names.take(j as int),
        decreases section.tags.len() - j,
    {
        let ghost before = texts(tags@);
        let name = section.tags[j].name().to_string();
        assert(name@ == names[j as int]);
        tags.push(name);
        assert(texts(tags@) =~= before.push(names[j as int]));
        assert(texts(fm_tags@) + names.take(j + 1) =~= (texts(fm_tags@) + names.take(j as int)).push(names[j as int]));
        j = j + 1;
    }
    assert(names.take(j as int) =~= names);
    let ghost lvs = section@.links.map_values(|l: LinkView| index_link_of(l));
    let mut links: Vec<IndexLink> = Vec::new();
    let mut q: usize = 0;
    while q < section.links.len()
        invariant
            q <= section.links@.len(),
            lvs == section@.links.map_values(|l: LinkView| index_link_of(l)),
            index_link_views(links@) == lvs.take(q as int),
        decreases section.links.len() - q,
    {
        let ghost before = index_link_views(links@);
        let l = IndexLink::from(&section.links[q]);
        assert(l@ == lvs[q as int]);
        links.push(l);
        assert(index_link_views(links@) =~= before.push(lvs[q as int]));
        assert(lvs.take(q + 1) =~= lvs.take(q as int).push(lvs[q as int]));
        q = q + 1;
    }
    assert(lvs.take(q as int) =~= lvs);
    IndexEntry { path: key, tags, links, token_count: count }
}

/// Puts `e` in place of the entry at its path, or adds it at the end.
fn upsert_exec(es: &mut Vec<IndexEntry>, e: IndexEntry)
    requires
        distinct_entry_paths(entry_views(old(es)@)),
    ensures
        entry_views(final(es)@) == upsert(entry_views(old(es)@), e@),
        distinct_entry_paths(entry_views(final(es)@)),
{
    let ghost old_v = entry_views(es@);
    proof {
        lemma_path_index(old_v, e@.path);
    }
    let mut i: usize = 0;
    while i < es.len() && !es[i].path.same_as(&e.path)
        invariant
            i <= es@.len(),
            old_v == entry_views(es@),
            forall|j: int| 0 <= j < i ==> (#[trigger] old_v[j]).path != e@.path,
        decreases es.len() - i,
    {
        assert(old_v[i as int] == es@[i as int]@);
        i = i + 1;
    }
    let ghost ev = e@;
    if i < es.len() {
        assert(old_v[i as int] == es@[i as int]@);
        assert(path_index(old_v, ev.path) == i) by {
            let pi = path_index(old_v, ev.path);
            if pi < 0 {
                assert(old_v[i as int].path == ev.path);
            } else if pi < i {
                assert(old_v[pi].path == ev.path);
            } else if pi > i {
                assert(old_v[pi].path == ev.path);
                assert(old_v[i as int].path == ev.path);
            }
        }
        es.set(i, e);
        assert(entry_views(es@) =~= old_v.update(i as int, ev));
    } else {
        assert(path_index(old_v, ev.path) < 0) by {
            let pi = path_index(old_v, ev.path);
            if pi >= 0 {
                assert(old_v[pi].path == ev.path);
            }
        }
        es.push(e);
        assert(entry_views(es@) =~= old_v.push(ev));
    }
    let ghost nv = entry_views(es@);
    assert(distinct_entry_paths(nv)) by {
        assert forall|a: int, b: int| 0 <= a < b < nv.len() implies (#[trigger] nv[a]).path != (#[trigger] nv[b]).path by {
            if a != i && b != i {
                assert(nv[a] == old_v[a] && nv[b] == old_v[b]);
            } else if a == i {
                if b < old_v.len() {
                    assert(nv[b] == old_v[b]);
                    assert(old_v[b].path != old_v[i as int].path);
                }
            } else {
                assert(nv[a] == old_v[a]);
            }
        }
    }
}

impl SectionStore {
    /// Indexes the sections of `note` at `note_path`: each section whose path
    /// `note#h1/h2/…` is a vault path gets an entry (replacing one at that path),
    /// with the note's frontmatter tags and the section's tag names, its links,
    /// and the token count given for it. The note count grows by one when the
    /// note had no entry before.
    pub fn index_note(&mut self, note: &Note, note_path: &VaultPath, token_counts: &Vec<usize>)
        requires
            token_counts@.len() == note.sections@.len(),
            old(self).notes() < usize::MAX,
        ensures
            final(self).entries_view() == index_sections(
                old(self).entries_view(),
                note_path@.1,
                fm_tags(note.frontmatter),
                section_views(note.sections@),
                token_counts@.map_values(|c: usize| c as int),
            ),
            final(self).notes() == old(self).notes() + if filter_entries(
                old(self).entries_view(),
                |e: IndexEntryView| of_note(e, note_path@),
            ).len() == 0 {
                1int
            } else {
                0int
            },
    {
        proof {
            use_type_invariant(&*self);
        }
        let is_new = match self.get(note_path) {
            Ok(_) => false,
            Err(_) => true,
        };
        let fm_tag_list: Vec<String> = match &note.frontmatter {
            Some(fm) => crate::index::clone_texts(&fm.tags),
            None => Vec::new(),
        };
        assert(texts(fm_tag_list@) == fm_tags(note.frontmatter)) by {
            if note.frontmatter is None {
                assert(texts(fm_tag_list@) =~= Seq::<Seq<char>>::empty());
            }
        }
        let ghost svs = section_views(note.sections@);
        let ghost cs = token_counts@.map_values(|c: usize| c as int);
        let ghost start = self.entries_view();
        let mut es: Vec<IndexEntry> = Vec::new();
        std::mem::swap(&mut es, &mut self.entries);
        let mut k: usize = 0;
        while k < note.sections.len()
            invariant
                k <= note.sections@.len(),
                token_counts@.len() == note.sections@.len(),
                svs == section_views(note.sections@),
                cs == token_counts@.map_values(|c: usize| c as int),
                texts(fm_tag_list@) == fm_tags(note.frontmatter),
                distinct_entry_paths(entry_views(es@)),
                entry_views(es@) == index_sections(start, note_path@.1, fm_tags(note.frontmatter), svs.take(k as int), cs),
            decreases note.sections.len() - k,
        {
            assert(svs.take(k + 1).drop_last() =~= svs.take(k as int));
            let section = &note.sections[k];
            assert(svs.take(k + 1).last() == section@);
            assert(cs[k as int] == token_counts@[k as int] as int);
            match make_section_path(note_path, &section.heading_path) {
                Some(p) => {
                    let entry = section_entry_exec(p, &fm_tag_list, section, token_counts[k]);
                    upsert_exec(&mut es, entry);
                },
                None => {},
            }
            k = k + 1;
        }
        assert(svs.take(k as int) =~= svs);
        let count = if is_new {
            self.note_count + 1
        } else {
            self.note_count
        };
        *self = SectionStore { entries: es, note_count: count };
    }
}

pub open spec fn path_views(ps: Seq<VaultPath>) -> Seq<PathKey> {
    ps.map_values(|p: VaultPath| p@)
}

/// The entries are in order of their paths' texts.
pub open spec fn entries_sorted(es: Seq<IndexEntryView>) -> bool {
    forall|i: int, j: int| 0 <= i < j < es.len() ==> !lex_lt((#[trigger] es[j]).path.1, (#[trigger] es[i]).path.1)
}

/// The entries ordered by path text.
pub fn sort_entries_by_path(v: Vec<IndexEntry>) -> (r: Vec<IndexEntry>)
    ensures
        entries_sorted(entry_views(r@)),
        entry_views(r@).to_multiset() == entry_views(v@).to_multiset(),
{
    broadcast use vstd::seq_lib::group_to_multiset_ensures;

    let ghost orig = entry_views(v@);
    let mut input = v;
    let mut out: Vec<IndexEntry> = Vec::new();
    assert(entry_views(out@) =~= Seq::empty());
    while input.len() > 0
        invariant
            entries_sorted(entry_views(out@)),
            entry_views(out@).to_multiset().add(entry_views(input@).to_multiset())
                == orig.to_multiset(),
        decreases input.len(),
    {
        let ghost in_v = entry_views(input@);
        let ghost out_v = entry_views(out@);
        let item = input.pop().unwrap();
        assert(entry_views(input@) =~= in_v.drop_last());
        assert(in_v =~= in_v.drop_last().push(item@));
        let mut p: usize = 0;
        while p < out.len() && !path_lt(&item.path, &out[p].path)
            invariant
                p <= out.len(),
                out_v == entry_views(out@),
                forall|j: int| 0 <= j < p ==> !lex_lt(item@.path.1, (#[trigger] out_v[j]).path.1),
            decreases out.len() - p,
        {
            assert(out_v[p as int] == out@[p as int]@);
            p = p + 1;
        }
        proof {
            if p < out.len() {
                assert(out_v[p as int] == out@[p as int]@);
                assert(lex_lt(item@.path.1, out_v[p as int].path.1));
            }
        }
        let ghost iv = item@;
        out.insert(p, item);
        let ghost new_v = entry_views(out@);
        assert(new_v =~= out_v.insert(p as int, iv));
        assert(entries_sorted(new_v)) by {
            assert forall|a: int, b: int| 0 <= a < b < new_v.len() implies !lex_lt(
                (#[trigger] new_v[b]).path.1,
                (#[trigger] new_v[a]).path.1,
            ) by {
                if b < p {
                } else if b == p {
                    assert(new_v[a] == out_v[a]);
                    assert(!lex_lt(iv.path.1, out_v[a].path.1));
                } else if a < p {
                    assert(new_v[b] == out_v[b - 1]);
                    assert(!lex_lt(out_v[b - 1].path.1, out_v[a].path.1));
                } else if a == p {
                    assert(new_v[b] == out_v[b - 1]);
                    if p < out_v.len() {
                        assert(lex_lt(iv.path.1, out_v[p as int].path.1));
                        if b - 1 > p {
                            assert(!lex_lt(out_v[b - 1].path.1, out_v[p as int].path.1));
                            crate::order::lemma_lex_total(out_v[b - 1].path.1, out_v[p as int].path.1);
                            if out_v[b - 1].path.1 != out_v[p as int].path.1 {
                                crate::order::lemma_lex_transitive(iv.path.1, out_v[p as int].path.1, out_v[b - 1].path.1);
                            }
                        }
                        crate::order::lemma_lex_asymmetric(iv.path.1, out_v[b - 1].path.1);
                    }
                } else {
                    assert(new_v[a] == out_v[a - 1]);
                    assert(new_v[b] == out_v[b - 1]);
                }
            }
        }
        proof {
            vstd::seq_lib::to_multiset_insert(out_v, p as int, iv);
            vstd::seq_lib::to_multiset_build(in_v.drop_last(), iv);
        }
        assert(new_v.to_multiset() == out_v.to_multiset().insert(iv));
        assert(in_v.to_multiset() == in_v.drop_last().to_multiset().insert(iv));
        assert(new_v.to_multiset().add(in_v.drop_last().to_multiset()) =~= out_v.to_multiset().add(
            in_v.to_multiset(),
        ));
    }
    assert(entry_views(input@) =~= Seq::empty());
    assert(entry_views(out@).to_multiset().add(Seq::empty().to_multiset()) =~= entry_views(out@).to_multiset());
    out
}


impl SectionStore {
    /// The entries that pass the hard filters of a search (see `passes_filters`), in order.
    pub fn filtered(&self, tags: &Vec<String>, folders: &Vec<VaultPath>) -> (r: Vec<IndexEntry>)
        ensures
            entry_views(r@) == filter_entries(
                self.entries_view(),
                |e: IndexEntryView| passes_filters(e, texts(tags@), path_views(folders@)),
            ),
    {
        let ghost evs = self.entries_view();
        let ghost tv = texts(tags@);
        let ghost fv = path_views(folders@);
        let mut out: Vec<IndexEntry> = Vec::new();
        let mut k: usize = 0;
        while k < self.entries.len()
            invariant
                k <= self.entries@.len(),
                evs == entry_views(self.entries@),
                tv == texts(tags@),
                fv == path_views(folders@),
                entry_views(out@) == filter_entries(
                    evs.take(k as int),
                    |e: IndexEntryView| passes_filters(e, texts(tags@), path_views(folders@)),
                ),
            decreases self.entries.len() - k,
        {
            assert(evs.take(k + 1).drop_last() =~= evs.take(k as int));
            let e = &self.entries[k];
            assert(evs[k as int] == e@);
            let ok_tags = tags.len() == 0 || has_matching_tag(e, tags);
            let ok_folders = folders.len() == 0 || under_some_folder(e, folders);
            assert((ok_tags && ok_folders) == passes_filters(e@, tv, fv));
            if ok_tags && ok_folders {
                let ghost before = entry_views(out@);
                out.push(e.clone());
                assert(entry_views(out@) =~= before.push(e@));
            }
            k = k + 1;
        }
        assert(evs.take(k as int) =~= evs);
        out
    }

    /// A search without query text: the entries that pass the hard filters, in
    /// path order, as many as `limit` and the token budget allow, grouped by
    /// note and ordered by note path. Without any filter there is no result.
    pub fn browse(&self, tags: &Vec<String>, folders: &Vec<VaultPath>, limit: usize, token_limit: Option<usize>) -> (r: Vec<NoteResult>)
        ensures
            tags@.len() == 0 && folders@.len() == 0 ==> r@.len() == 0,
            !(tags@.len() == 0 && folders@.len() == 0) ==> browsed(
                filter_entries(
                    self.entries_view(),
                    |e: IndexEntryView| passes_filters(e, texts(tags@), path_views(folders@)),
                ),
                limit as int,
                opt_int(token_limit),
                crate::index::note_result_views(r@),
            ),
    {
        if tags.len() == 0 && folders.len() == 0 {
            return Vec::new();
        }
        self.browse_selected(tags, folders, limit, token_limit)
    }

    /// Every indexed note, as a search without query text and without filters
    /// would give it: all entries in path order, as many as `limit` and the
    /// token budget allow, grouped by note and ordered by note path.
    pub fn list_notes(&self, limit: usize, token_limit: Option<usize>) -> (r: Vec<NoteResult>)
        ensures
            browsed(self.entries_view(), limit as int, opt_int(token_limit), crate::index::note_result_views(r@)),
    {
        let tags: Vec<String> = Vec::new();
        let folders: Vec<VaultPath> = Vec::new();
        let r = self.browse_selected(&tags, &folders, limit, token_limit);
        proof {
            lemma_filter_all(self.entries_view(), texts(tags@), path_views(folders@));
        }
        r
    }

    fn browse_selected(&self, tags: &Vec<String>, folders: &Vec<VaultPath>, limit: usize, token_limit: Option<usize>) -> (r: Vec<NoteResult>)
        ensures
            browsed(
                filter_entries(
                    self.entries_view(),
                    |e: IndexEntryView| passes_filters(e, texts(tags@), path_views(folders@)),
                ),
                limit as int,
                opt_int(token_limit),
                crate::index::note_result_views(r@),
            ),
    {
        let selected = self.filtered(tags, folders);
        let ordered = sort_entries_by_path(selected);
        let mut counts: Vec<usize> = Vec::new();
        let mut k: usize = 0;
        while k < ordered.len()
            invariant
                k <= ordered@.len(),
                counts@.map_values(|c: usize| c as int) == entry_views(ordered@).map_values(|e: IndexEntryView| e.token_count).take(k as int),
            decreases ordered.len() - k,
        {
            let ghost before = counts@.map_values(|c: usize| c as int);
            counts.push(ordered[k].token_count);
            assert(counts@.map_values(|c: usize| c as int) =~= before.push(ordered@[k as int].token_count as int));
            assert(entry_views(ordered@).map_values(|e: IndexEntryView| e.token_count).take(k + 1) =~= entry_views(ordered@).map_values(|e: IndexEntryView| e.token_count).take(k as int).push(ordered@[k as int].token_count as int));
            k = k + 1;
        }
        assert(entry_views(ordered@).map_values(|e: IndexEntryView| e.token_count).take(k as int) =~= entry_views(ordered@).map_values(|e: IndexEntryView| e.token_count));
        let cut = apply_token_limit(&counts, limit, token_limit);
        let mut kept: Vec<IndexEntry> = Vec::new();
        let mut q: usize = 0;
        proof {
            assert(cut <= ordered@.len()) by {
                lemma_budget_bound(entry_views(ordered@).map_values(|e: IndexEntryView| e.token_count), limit as int, match token_limit {
                    Some(t) => Some(t as int),
                    None => None,
                });
            }
        }
        while q < cut
            invariant
                q <= cut <= ordered@.len(),
                entry_views(kept@) == entry_views(ordered@).take(q as int),
            decreases cut - q,
        {
            let ghost before = entry_views(kept@);
            let c = ordered[q].clone();
            assert(c@ == ordered@[q as int]@);
            kept.push(c);
            assert(entry_views(kept@) =~= before.push(ordered@[q as int]@));
            assert(entry_views(ordered@).take(q + 1) =~= entry_views(ordered@).take(q as int).push(ordered@[q as int]@));
            q = q + 1;
        }
        let notes = NoteResult::from_entries(&kept);
        let r = sort_by_path(notes);
        assert(entry_views(ordered@).take(cut as int) == entry_views(kept@));
        r
    }
}

/// An optional count as an optional integer.
pub open spec fn opt_int(o: Option<usize>) -> Option<int> {
    match o {
        Some(t) => Some(t as int),
        None => None,
    }
}

/// `r` is what browsing the entries `selected` gives: sorted by note path, and
/// (in some order) the grouping by note of the first entries of `selected` in
/// path order, as many as `limit` and the token budget allow.
pub open spec fn browsed(
    selected: Seq<IndexEntryView>,
    limit: int,
    token_limit: Option<int>,
    r: Seq<(PathKey, Seq<SectionResultView>)>,
) -> bool {
    &&& sorted_by_path(r)
    &&& exists|s: Seq<IndexEntryView>|
        {
            &&& entries_sorted(s)
            &&& s.to_multiset() == selected.to_multiset()
            &&& r.to_multiset() == group_entries(
                s.take(within_budget(s.map_values(|e: IndexEntryView| e.token_count), limit, token_limit)),
            ).to_multiset()
        }
}

/// Without tags or folders every entry passes the filters.
proof fn lemma_filter_all(es: Seq<IndexEntryView>, tags: Seq<Seq<char>>, folders: Seq<PathKey>)
    requires
        tags.len() == 0,
        folders.len() == 0,
    ensures
        filter_entries(es, |e: IndexEntryView| passes_filters(e, tags, folders)) == es,
    decreases es.len(),
{
    if es.len() > 0 {
        lemma_filter_all(es.drop_last(), tags, folders);
        assert(es.drop_last().push(es.last()) =~= es);
    }
}

proof fn lemma_budget_bound(counts: Seq<int>, limit: int, token_limit: Option<int>)
    ensures
        0 <= limit ==> within_budget(counts, limit, token_limit) <= counts.len(),
{
    let m = if limit < counts.len() {
        limit
    } else {
        counts.len() as int
    };
    match token_limit {
        None => {},
        Some(t) => {
            if 0 <= limit {
                lemma_budget_prefix_bound(counts, m, t, 0, 0);
            }
        },
    }
}

proof fn lemma_budget_prefix_bound(counts: Seq<int>, m: int, t: int, i: int, used: int)
    requires
        0 <= i,
        0 <= m,
    ensures
        budget_prefix(counts, m, t, i, used) <= m,
    decreases m - i,
{
    if i < m && used + counts[i] <= t {
        lemma_budget_prefix_bound(counts, m, t, i + 1, used + counts[i]);
    }
}

/// Whether some tag of `e` matches one of `tags`.
fn has_matching_tag(e: &IndexEntry, tags: &Vec<String>) -> (b: bool)
    ensures
        b == exists|i: int, j: int|
            0 <= i < e@.tags.len() && 0 <= j < texts(tags@).len() && tag_matches(
                #[trigger] e@.tags[i],
                #[trigger] texts(tags@)[j],
            ),
{
    let ghost et = e@.tags;
    let ghost tv = texts(tags@);
    let mut i: usize = 0;
    while i < e.tags.len()
        invariant
            i <= e.tags@.len(),
            et == e@.tags,
            tv == texts(tags@),
            forall|a: int, b: int| 0 <= a < i && 0 <= b < tv.len() ==> !tag_matches(#[trigger] et[a], #[trigger] tv[b]),
        decreases e.tags.len() - i,
    {
        let mut j: usize = 0;
        while j < tags.len()
            invariant
                i < e.tags@.len(),
                j <= tags@.len(),
                et == e@.tags,
                tv == texts(tags@),
                forall|a: int, b: int| 0 <= a < i && 0 <= b < tv.len() ==> !tag_matches(#[trigger] et[a], #[trigger] tv[b]),
                forall|b: int| 0 <= b < j ==> !tag_matches(et[i as int], #[trigger] tv[b]),
            decreases tags.len() - j,
        {
            assert(et[i as int] == e.tags@[i as int]@);
            assert(tv[j as int] == tags@[j as int]@);
            if tag_matches_exec(&e.tags[i], &tags[j]) {
                assert(tag_matches(et[i as int], tv[j as int]));
                return true;
            }
            j = j + 1;
        }
        i = i + 1;
    }
    false
}

/// Whether `e` lies under one of `folders`.
fn under_some_folder(e: &IndexEntry, folders: &Vec<VaultPath>) -> (b: bool)
    ensures
        b == exists|j: int| 0 <= j < folders@.len() && under_folder_spec(e@.path, #[trigger] path_views(folders@)[j]),
{
    let ghost fv = path_views(folders@);
    let mut j: usize = 0;
    while j < folders.len()
        invariant
            j <= folders@.len(),
            fv == path_views(folders@),
            forall|b: int| 0 <= b < j ==> !under_folder_spec(e@.path, #[trigger] fv[b]),
        decreases folders.len() - j,
    {
        assert(fv[j as int] == folders@[j as int]@);
        if e.path.is_under_folder(&folders[j]) {
            return true;
        }
        j = j + 1;
    }
    false
}

/// The entries after putting in each of `more`, in order.
pub open spec fn upsert_all(es: Seq<IndexEntryView>, more: Seq<IndexEntryView>) -> Seq<IndexEntryView>
    decreases more.len(),
{
    if more.len() == 0 {
        es
    } else {
        upsert(upsert_all(es, more.drop_last()), more.last())
    }
}

impl SectionStore {
    /// A store of saved entries (a later entry for a path replaces an earlier
    /// one) with the saved note count.
    pub fn restore(entries: &Vec<IndexEntry>, note_count: usize) -> (r: SectionStore)
        ensures
            r.entries_view() == upsert_all(Seq::empty(), entry_views(entries@)),
            r.notes() == note_count,
    {
        let ghost evs = entry_views(entries@);
        let mut es: Vec<IndexEntry> = Vec::new();
        let mut i: usize = 0;
        assert(entry_views(es@) =~= upsert_all(Seq::empty(), evs.take(0)));
        while i < entries.len()
            invariant
                i <= entries@.len(),
                evs == entry_views(entries@),
                distinct_entry_paths(entry_views(es@)),
                entry_views(es@) == upsert_all(Seq::empty(), evs.take(i as int)),
            decreases entries.len() - i,
        {
            assert(evs.take(i + 1).drop_last() =~= evs.take(i as int));
            upsert_exec(&mut es, entries[i].clone());
            i = i + 1;
        }
        assert(evs.take(i as int) =~= evs);
        SectionStore { entries: es, note_count }
    }

    /// The entries, in order.
    pub fn entries(&self) -> (r: &Vec<IndexEntry>)
        ensures
            entry_views(r@) == self.entries_view(),
    {
        &self.entries
    }
}


/// A heading that can stand in a section path: not empty, not `..`, and
/// holding no `/` or `\`.
pub open spec fn path_heading(h: Seq<char>) -> bool {
    &&& h.len() > 0
    &&& h != seq!['.', '.']
    &&& forall|i: int| 0 <= i < h.len() ==> h[i] != '/' && h[i] != '\\'
}

/// Joining at least two parts is the first part, `/`, and the rest joined.
proof fn lemma_join_slash_front(hs: Seq<Seq<char>>)
    requires
        hs.len() >= 2,
    ensures
        join_slash(hs) == hs[0] + seq!['/'] + join_slash(hs.drop_first()),
    decreases hs.len(),
{
    if hs.len() > 2 {
        lemma_join_slash_front(hs.drop_last());
        assert(hs.drop_last().drop_first() =~= hs.drop_first().drop_last());
        assert(hs.drop_first().last() == hs.last());
        assert(hs.drop_last()[0] == hs[0]);
        let m = join_slash(hs.drop_first().drop_last());
        assert(join_slash(hs.drop_first()) == m + seq!['/'] + hs.last());
        assert(join_slash(hs.drop_last()) == hs[0] + seq!['/'] + m);
        assert(join_slash(hs) == join_slash(hs.drop_last()) + seq!['/'] + hs.last());
        assert(hs[0] + seq!['/'] + m + seq!['/'] + hs.last() =~= hs[0] + seq!['/'] + (m + seq!['/']
            + hs.last()));
    } else {
        assert(hs.drop_first().len() == 1);
        assert(hs.drop_last().len() == 1);
        assert(hs.drop_first()[0] == hs[1]);
        assert(hs.drop_last()[0] == hs[0]);
        assert(join_slash(hs.drop_first()) == hs[1]);
        assert(join_slash(hs.drop_last()) == hs[0]);
    }
}

/// The characters of joined headings are `/` or characters of a heading:
/// never `\` and never `#` where no heading holds one.
proof fn lemma_join_slash_chars(hs: Seq<Seq<char>>)
    requires
        forall|k: int| 0 <= k < hs.len() ==> path_heading(#[trigger] hs[k]),
    ensures
        forall|i: int| 0 <= i < join_slash(hs).len() ==> join_slash(hs)[i] != '\\',
        hs.len() > 0 ==> join_slash(hs).len() > 0 && join_slash(hs)[0] == hs[0][0],
    decreases hs.len(),
{
    if hs.len() >= 2 {
        lemma_join_slash_chars(hs.drop_last());
        assert(path_heading(hs[hs.len() - 1]));
        assert(path_heading(hs[0]));
        let j = join_slash(hs.drop_last());
        assert(hs.drop_last()[0] == hs[0]);
        assert forall|i: int| 0 <= i < join_slash(hs).len() implies join_slash(hs)[i] != '\\' by {
            if i < j.len() {
                assert(join_slash(hs)[i] == j[i]);
            } else if i > j.len() {
                assert(join_slash(hs)[i] == hs.last()[i - j.len() - 1]);
            }
        }
    } else if hs.len() == 1 {
        assert(path_heading(hs[0]));
    }
}

/// Joined path headings hold no `..` segment.
proof fn lemma_join_slash_no_parent(hs: Seq<Seq<char>>)
    requires
        forall|k: int| 0 <= k < hs.len() ==> path_heading(#[trigger] hs[k]),
    ensures
        !has_parent_segment(join_slash(hs)),
    decreases hs.len(),
{
    let j = join_slash(hs);
    if hs.len() == 1 {
        let h = hs[0];
        assert(path_heading(h));
        if has_parent_segment(j) {
            let i = choose|i: int| #[trigger] parent_segment_at(j, i);
            if i > 0 {
                assert(j[i - 1] == '/');
            }
            if i + 2 < j.len() {
                assert(j[i + 2] == '/');
            }
            assert(h =~= seq!['.', '.']);
        }
    } else if hs.len() >= 2 {
        let a = join_slash(hs.drop_last());
        let h = hs.last();
        assert(path_heading(hs[hs.len() - 1]));
        lemma_join_slash_no_parent(hs.drop_last());
        if has_parent_segment(j) {
            let i = choose|i: int| #[trigger] parent_segment_at(j, i);
            if i + 1 < a.len() {
                if i > 0 {
                    assert(a[i - 1] == j[i - 1]);
                }
                if i + 2 < a.len() {
                    assert(a[i + 2] == j[i + 2]);
                }
                assert(a[i] == j[i] && a[i + 1] == j[i + 1]);
                assert(parent_segment_at(a, i));
            } else if i + 1 == a.len() {
                assert(j[i + 1] == '/');
            } else if i == a.len() {
                assert(j[i] == '/');
            } else if i > a.len() + 1 {
                assert(j[i - 1] == h[i - 1 - a.len() - 1]);
            } else {
                assert(j[i] == h[0] && j[i + 1] == h[1]);
                if i + 2 < j.len() {
                    assert(j[i + 2] == h[2]);
                }
                assert(h =~= seq!['.', '.']);
            }
        }
    }
}

/// Splitting joined path headings on `/` gives the headings back.
proof fn lemma_split_join(hs: Seq<Seq<char>>)
    requires
        hs.len() > 0,
        forall|k: int| 0 <= k < hs.len() ==> path_heading(#[trigger] hs[k]),
    ensures
        split_on(join_slash(hs), '/') == hs,
    decreases hs.len(),
{
    let h = hs[0];
    assert(path_heading(h));
    lemma_first_index_of_is(h, '/', h.len() as int);
    if hs.len() == 1 {
        assert(split_on(h, '/') =~= seq![h]);
        assert(hs =~= seq![h]);
    } else {
        lemma_join_slash_front(hs);
        assert forall|k: int| 0 <= k < hs.drop_first().len() implies path_heading(#[trigger] hs.drop_first()[k]) by {
            assert(hs.drop_first()[k] == hs[k + 1]);
        }
        lemma_split_join(hs.drop_first());
        let rest = join_slash(hs.drop_first());
        let j = h + seq!['/'] + rest;
        assert forall|i: int| 0 <= i < h.len() implies j[i] != '/' by {
            assert(j[i] == h[i]);
        }
        lemma_first_index_of_is(j, '/', h.len() as int);
        assert(j.subrange(0, h.len() as int) =~= h);
        assert(j.subrange(h.len() as int + 1, j.len() as int) =~= rest);
        assert(hs =~= seq![h] + hs.drop_first());
    }
}

/// Joining path headings onto a note gives the path of a section of that note
/// which reads back as itself: its note part is the note, its fragment the
/// joined headings, its headings (when there are any) the headings, and its
/// parent the note. The first heading may not begin with `^`, which would make
/// the path a block.
pub proof fn law_section_path_reads_back(note: Seq<char>, hs: Seq<Seq<char>>)
    requires
        vault_path_spec(note) == Ok::<_, VaultPathFault>((VaultPathKind::Note, note)),
        forall|k: int| 0 <= k < hs.len() ==> path_heading(#[trigger] hs[k]),
        hs.len() > 0 ==> hs[0][0] != '^',
    ensures
        ({
            let t = note + seq!['#'] + join_slash(hs);
            &&& vault_path_spec(t) == Ok::<_, VaultPathFault>((VaultPathKind::Section, t))
            &&& section_key(note, hs) == Some((VaultPathKind::Section, t))
            &&& note_part(t) == note
            &&& fragment(t) == join_slash(hs)
            &&& (hs.len() > 0 ==> split_on(fragment(t), '/') == hs)
            &&& parent_spec((VaultPathKind::Section, t)) == Some((VaultPathKind::Note, note))
        }),
{
    let j = join_slash(hs);
    let t = note + seq!['#'] + j;
    let n = normalize_separators(note);
    // What the note's validity says of its text.
    lemma_normalize_is_normalized(note);
    assert(n == note);
    assert(!has_char(note, '#'));
    assert(!has_parent_segment(note));
    lemma_join_slash_chars(hs);
    lemma_join_slash_no_parent(hs);
    // The note ends with `.md`.
    lemma_note_text_ends_md(note);
    // The text is its own normal form.
    assert(is_normalized(t)) by {
        assert forall|i: int| 0 <= i < t.len() implies t[i] != '\\' by {
            if i < note.len() {
                assert(t[i] == note[i]);
            } else if i > note.len() {
                assert(t[i] == j[i - note.len() - 1]);
            }
        }
        assert(t[0] == note[0]);
    }
    lemma_normalized_fixpoint(t);
    // No `..` segment.
    if has_parent_segment(t) {
        let i = choose|i: int| #[trigger] parent_segment_at(t, i);
        if i + 1 < note.len() {
            if i > 0 {
                assert(note[i - 1] == t[i - 1]);
            }
            if i + 2 < note.len() {
                assert(note[i + 2] == t[i + 2]);
            } else {
                assert(t[i + 2] == '#');
            }
            assert(note[i] == t[i] && note[i + 1] == t[i + 1]);
            assert(parent_segment_at(note, i));
        } else if i + 1 == note.len() {
            assert(t[i + 1] == '#');
        } else if i == note.len() {
            assert(t[i] == '#');
        } else if i == note.len() + 1 {
            assert(t[i - 1] == '#');
        } else {
            let k = i - note.len() - 1;
            assert(j[k - 1] == t[i - 1]);
            assert(j[k] == t[i] && j[k + 1] == t[i + 1]);
            if i + 2 < t.len() {
                assert(j[k + 2] == t[i + 2]);
            }
            assert(parent_segment_at(j, k));
        }
    }
    // The first `#` is the one after the note.
    assert forall|i: int| 0 <= i < note.len() implies t[i] != '#' by {
        assert(t[i] == note[i]);
    }
    lemma_first_index_of_is(t, '#', note.len() as int);
    assert(t[note.len() as int] == '#');
    assert(has_char(t, '#'));
    assert(note_part(t) =~= note);
    assert(fragment(t) =~= j);
    if hs.len() > 0 {
        lemma_split_join(hs);
        assert(fragment(t)[0] == hs[0][0]);
    }
}

/// A note's text ends with `.md`.
proof fn lemma_note_text_ends_md(note: Seq<char>)
    requires
        vault_path_spec(note) == Ok::<_, VaultPathFault>((VaultPathKind::Note, note)),
    ensures
        ends_with(note, md_suffix()),
        note.len() > 0,
{
    lemma_normalize_is_normalized(note);
    let p = trim_end_char(note, '/');
    assert(p == note);
    let k = last_index_of(p, '/');
    lemma_last_index_of_bounds(p, '/');
    let name = p.subrange(k + 1, p.len() as int);
    let d = last_index_of(name, '.');
    lemma_last_index_of_bounds(name, '.');
    reveal_strlit("md");
    assert(file_extension(note) == Some(seq!['m', 'd']));
    assert(name.subrange(d + 1, name.len() as int) =~= seq!['m', 'd']);
    assert(name.len() == d + 3);
    assert(name[d] == '.');
    assert(note.subrange(note.len() - 3, note.len() as int) =~= md_suffix()) by {
        assert(note[note.len() - 3] == name[d]);
        assert(note[note.len() - 2] == name.subrange(d + 1, name.len() as int)[0]);
        assert(note[note.len() - 1] == name.subrange(d + 1, name.len() as int)[1]);
    }
}


/// What `filter_entries` keeps satisfies `keep` and is one of the entries.
proof fn lemma_filter_entries_member(es: Seq<IndexEntryView>, keep: spec_fn(IndexEntryView) -> bool, x: IndexEntryView)
    requires
        filter_entries(es, keep).contains(x),
    ensures
        keep(x),
        es.contains(x),
    decreases es.len(),
{
    if es.len() > 0 {
        let f = filter_entries(es.drop_last(), keep);
        if keep(es.last()) && x == es.last() {
            assert(es[es.len() - 1] == x);
        } else {
            if keep(es.last()) {
                let i = choose|i: int| 0 <= i < f.push(es.last()).len() && f.push(es.last())[i] == x;
                assert(f[i] == x);
            }
            assert(f.contains(x));
            lemma_filter_entries_member(es.drop_last(), keep, x);
            let i = choose|i: int| 0 <= i < es.drop_last().len() && es.drop_last()[i] == x;
            assert(es[i] == x);
        }
    }
}

/// The section `sec` of the note `key` is that of an indexed entry of that
/// note which passes the tag and folder filters.
pub open spec fn section_passes(
    entries: Seq<IndexEntryView>,
    tags: Seq<Seq<char>>,
    folders: Seq<PathKey>,
    key: PathKey,
    sec: SectionResultView,
) -> bool {
    exists|e: IndexEntryView|
        #![trigger entries.contains(e)]
        {
            &&& entries.contains(e)
            &&& passes_filters(e, tags, folders)
            &&& key == note_key(e.path)
            &&& sec.tags == e.tags
            &&& sec.heading_path == path_headings(e.path)
        }
}

/// The notes a browse gives (the grouping of a prefix of the entries that pass
/// the filters, in any order): each has at least one section, and each section
/// is that of an indexed entry of that note which passes the tag and folder
/// filters, with its tags and heading path.
pub proof fn law_browse_groups(
    entries: Seq<IndexEntryView>,
    tags: Seq<Seq<char>>,
    folders: Seq<PathKey>,
    s: Seq<IndexEntryView>,
    n: int,
    r: Seq<(PathKey, Seq<SectionResultView>)>,
)
    requires
        s.to_multiset() == filter_entries(entries, |e: IndexEntryView| passes_filters(e, tags, folders)).to_multiset(),
        0 <= n <= s.len(),
        r.to_multiset() == group_entries(s.take(n)).to_multiset(),
    ensures
        forall|i: int| 0 <= i < r.len() ==> (#[trigger] r[i]).1.len() > 0,
        forall|i: int, j: int|
            0 <= i < r.len() && 0 <= j < r[i].1.len() ==> section_passes(entries, tags, folders, r[i].0, #[trigger] r[i].1[j]),
{
    broadcast use vstd::seq_lib::group_to_multiset_ensures;
    let keep = |e: IndexEntryView| passes_filters(e, tags, folders);
    let f = filter_entries(entries, keep);
    let es = s.take(n);
    let g = group_entries(es);
    lemma_group_entries_sections(es);
    assert forall|i: int| 0 <= i < r.len() implies (#[trigger] r[i]).1.len() > 0 && forall|j: int|
        0 <= j < r[i].1.len() ==> section_passes(entries, tags, folders, r[i].0, #[trigger] r[i].1[j]) by {
        assert(r.contains(r[i]));
        assert(r.to_multiset().count(r[i]) > 0);
        assert(g.contains(r[i]));
        let gi = choose|gi: int| 0 <= gi < g.len() && g[gi] == r[i];
        assert(g[gi].1.len() > 0);
        assert forall|j: int| 0 <= j < r[i].1.len() implies section_passes(entries, tags, folders, r[i].0, #[trigger] r[i].1[j]) by {
            let k = g[gi].1[j].entry;
            assert(0 <= k < es.len());
            let e = es[k];
            assert(e == s[k]);
            assert(s.contains(e));
            assert(s.to_multiset().count(e) > 0);
            assert(f.contains(e));
            lemma_filter_entries_member(entries, keep, e);
            assert(g[gi].1[j] == section_result_of(e, k));
            assert(entries.contains(e));
        }
    }
}

/// The number of sections of all the note results.
pub open spec fn section_count(r: Seq<(PathKey, Seq<SectionResultView>)>) -> int
    decreases r.len(),
{
    if r.len() == 0 {
        0
    } else {
        section_count(r.drop_last()) + r.last().1.len()
    }
}

proof fn lemma_section_count_update(r: Seq<(PathKey, Seq<SectionResultView>)>, i: int, x: (PathKey, Seq<SectionResultView>))
    requires
        0 <= i < r.len(),
    ensures
        section_count(r.update(i, x)) == section_count(r) - r[i].1.len() + x.1.len(),
    decreases r.len(),
{
    if i < r.len() - 1 {
        lemma_section_count_update(r.drop_last(), i, x);
        assert(r.update(i, x).drop_last() =~= r.drop_last().update(i, x));
    } else {
        assert(r.update(i, x).drop_last() =~= r.drop_last());
    }
}

proof fn lemma_section_count_remove(r: Seq<(PathKey, Seq<SectionResultView>)>, i: int)
    requires
        0 <= i < r.len(),
    ensures
        section_count(r.remove(i)) == section_count(r) - r[i].1.len(),
    decreases r.len(),
{
    if i < r.len() - 1 {
        lemma_section_count_remove(r.drop_last(), i);
        assert(r.remove(i).drop_last() =~= r.drop_last().remove(i));
        assert(r.remove(i).last() == r.last());
    } else {
        assert(r.remove(i) =~= r.drop_last());
    }
}

/// Note results with the same multiset hold as many sections.
proof fn lemma_section_count_perm(a: Seq<(PathKey, Seq<SectionResultView>)>, b: Seq<(PathKey, Seq<SectionResultView>)>)
    requires
        a.to_multiset() == b.to_multiset(),
    ensures
        section_count(a) == section_count(b),
    decreases a.len(),
{
    broadcast use vstd::seq_lib::group_to_multiset_ensures;
    if a.len() == 0 {
        assert(b.to_multiset().len() == 0);
    } else {
        let x = a.last();
        let init = a.drop_last();
        assert(init.push(x) =~= a);
        assert(a.to_multiset() =~= init.to_multiset().insert(x));
        assert(a.contains(x)) by {
            assert(a[a.len() - 1] == x);
        }
        assert(b.to_multiset().count(x) > 0);
        assert(b.contains(x));
        let k = choose|k: int| 0 <= k < b.len() && b[k] == x;
        assert(b.remove(k).to_multiset() =~= b.to_multiset().remove(x));
        assert(init.to_multiset() =~= a.to_multiset().remove(x));
        lemma_section_count_perm(init, b.remove(k));
        lemma_section_count_remove(b, k);
    }
}

/// Grouping entries keeps every one of them as a section.
proof fn lemma_group_count(es: Seq<IndexEntryView>)
    ensures
        section_count(group_entries(es)) == es.len(),
    decreases es.len(),
{
    if es.len() > 0 {
        let prev = group_entries(es.drop_last());
        lemma_group_count(es.drop_last());
        let key = note_key(es.last().path);
        let sec = section_result_of(es.last(), es.len() - 1);
        let i = key_index(prev, key);
        lemma_key_index_bounds(prev, key);
        if i >= 0 {
            lemma_section_count_update(prev, i, (key, prev[i].1.push(sec)));
        } else {
            assert(prev.push((key, seq![sec])).drop_last() =~= prev);
        }
    }
}

/// The budget takes at most `limit` results.
proof fn lemma_budget_at_most(counts: Seq<int>, m: int, t: int, i: int, used: int)
    ensures
        i <= m ==> budget_prefix(counts, m, t, i, used) <= m,
    decreases m - i,
{
    if !(i >= m || i < 0) && !(used + counts[i] > t) {
        lemma_budget_at_most(counts, m, t, i + 1, used + counts[i]);
    }
}

/// The sections a browse gives are exactly the budgeted entries, so there are
/// at most `limit` of them.
pub proof fn law_browse_count(
    counts: Seq<int>,
    limit: int,
    token_limit: Option<int>,
    es: Seq<IndexEntryView>,
    r: Seq<(PathKey, Seq<SectionResultView>)>,
)
    requires
        0 <= limit,
        es.len() == within_budget(counts, limit, token_limit),
        r.to_multiset() == group_entries(es).to_multiset(),
    ensures
        section_count(r) == es.len(),
        section_count(r) <= limit,
{
    lemma_group_count(es);
    lemma_section_count_perm(r, group_entries(es));
    let m = if limit < counts.len() { limit } else { counts.len() as int };
    if let Some(t) = token_limit {
        lemma_budget_at_most(counts, m, t, 0, 0);
    }
}


/// A filter tag matches itself and every tag below it (`q/x`, `x` not empty),
/// and nothing else; so an entry with a tag below one of the filter tags passes
/// a search with those tags and no folders.
pub proof fn law_tag_filter_hierarchy(
    q: Seq<char>,
    x: Seq<char>,
    e: IndexEntryView,
    i: int,
    tags: Seq<Seq<char>>,
    j: int,
)
    requires
        x.len() > 0,
    ensures
        tag_matches(q + seq!['/'] + x, q),
        tag_matches(q, q),
        0 <= i < e.tags.len() && e.tags[i] == q + seq!['/'] + x && 0 <= j < tags.len() && tags[j] == q
            ==> passes_filters(e, tags, Seq::empty()),
        forall|t: Seq<char>|
            #[trigger] tag_matches(t, q) ==> t == q || (t.len() > q.len() && t.subrange(0, q.len() as int) == q
                && t[q.len() as int] == '/'),
{
    let t = q + seq!['/'] + x;
    assert(t.subrange(0, q.len() as int) =~= q);
    assert(t[q.len() as int] == '/');
    if 0 <= i < e.tags.len() && e.tags[i] == t && 0 <= j < tags.len() && tags[j] == q {
        assert(tag_matches(e.tags[i], tags[j]));
    }
}

} // verus!
