//! The term statistics behind full-text ranking: for each indexed section its
//! term frequencies and length, the number of sections and their total length,
//! and for a term the sections that hold it.
use vstd::prelude::*;

use crate::order::texts;
use crate::revisions::PathKey;
use crate::section_store::{make_section_path, section_key};
use crate::sections::{section_views, Section, SectionView};
use crate::tokenizer::{tokens_of, NaiveTokenizer, Tokenizer};
use crate::vault_path::VaultPath;
use crate::words::words_of;

verus! {

/// The term frequencies and the length (in tokens) of an indexed section.
#[derive(Debug)]
pub struct DocumentData {
    /// Each distinct term with the number of times it occurs.
    pub term_freqs: Vec<(String, u32)>,
    pub doc_length: u32,
}

pub open spec fn freq_keys(fs: Seq<(String, u32)>) -> Seq<Seq<char>> {
    fs.map_values(|e: (String, u32)| e.0@)
}

/// The frequencies are those of the tokens `ts`: each distinct token once,
/// with its number of occurrences.
pub open spec fn freqs_of(fs: Seq<(String, u32)>, ts: Seq<Seq<char>>) -> bool {
    &&& freq_keys(fs).no_duplicates()
    &&& forall|i: int| 0 <= i < fs.len() ==> (#[trigger] fs[i]).1 == ts.to_multiset().count(fs[i].0@) && fs[i].1 > 0
    &&& forall|t: Seq<char>| #[trigger] ts.to_multiset().count(t) > 0 ==> freq_keys(fs).contains(t)
}

/// The term frequencies of `tokens`, in order of first occurrence.
pub fn term_frequencies(tokens: &Vec<String>) -> (r: Vec<(String, u32)>)
    requires
        tokens@.len() <= u32::MAX,
    ensures
        freqs_of(r@, texts(tokens@)),
{
    broadcast use vstd::seq_lib::group_to_multiset_ensures;
    broadcast use vstd::multiset::group_multiset_axioms;

    let ghost ts = texts(tokens@);
    let mut out: Vec<(String, u32)> = Vec::new();
    let mut i: usize = 0;
    proof {
        assert(ts.take(0) =~= Seq::<Seq<char>>::empty());
    }
    while i < tokens.len()
        invariant
            i <= tokens@.len() <= u32::MAX,
            ts == texts(tokens@),
            freqs_of(out@, ts.take(i as int)),
        decreases tokens.len() - i,
    {
        let ghost before = out@;
        let ghost seen = ts.take(i as int);
        let t = &tokens[i];
        assert(ts.take(i + 1) =~= seen.push(t@));
        proof {
            vstd::seq_lib::to_multiset_build(seen, t@);
            vstd::seq_lib::to_multiset_len(seen);
            vstd::multiset::axiom_count_le_len(seen.to_multiset(), t@);
        }
        let found_at = find_term(&out, t);
        let found = found_at.is_some();
        let j: usize = match found_at {
            Some(j) => j,
            None => 0,
        };
        if found {
            let c = out[j].1;
            assert(c == seen.to_multiset().count(t@));
            out.set(j, (t.clone(), c + 1));
            proof {
                assert(freq_keys(out@) =~= freq_keys(before));
                assert forall|q: int| 0 <= q < out@.len() implies (#[trigger] out@[q]).1 == ts.take(i + 1).to_multiset().count(
                    out@[q].0@,
                ) && out@[q].1 > 0 by {
                    if q != j {
                        assert(out@[q] == before[q]);
                        assert(freq_keys(before)[q] != freq_keys(before)[j as int]);
                    }
                }
                assert forall|x: Seq<char>| #[trigger] ts.take(i + 1).to_multiset().count(x) > 0 implies freq_keys(
                    out@,
                ).contains(x) by {
                    if x != t@ {
                        assert(seen.to_multiset().count(x) > 0);
                    } else {
                        assert(freq_keys(out@)[j as int] == x);
                    }
                }
            }
        } else {
            proof {
                assert(seen.to_multiset().count(t@) == 0);
            }
            out.push((t.clone(), 1));
            proof {
                assert(freq_keys(out@) =~= freq_keys(before).push(t@));
                crate::core_logic::lemma_push_contains(freq_keys(before), t@, t@);
                assert forall|q: int| 0 <= q < out@.len() implies (#[trigger] out@[q]).1 == ts.take(i + 1).to_multiset().count(
                    out@[q].0@,
                ) && out@[q].1 > 0 by {
                    if q < before.len() {
                        assert(out@[q] == before[q]);
                        assert(freq_keys(before)[q] == before[q].0@);
                        assert(before[q].0@ != t@);
                    }
                }
                assert forall|x: Seq<char>| #[trigger] ts.take(i + 1).to_multiset().count(x) > 0 implies freq_keys(
                    out@,
                ).contains(x) by {
                    crate::core_logic::lemma_push_contains(freq_keys(before), t@, x);
                    if x != t@ {
                        assert(seen.to_multiset().count(x) > 0);
                    }
                }
                assert(freq_keys(out@).no_duplicates()) by {
                    assert forall|a: int, b: int| 0 <= a < b < out@.len() implies freq_keys(out@)[a] != freq_keys(out@)[b] by {
                        if b == before.len() {
                            assert(freq_keys(out@)[a] == freq_keys(before)[a]);
                            assert(before[a].0@ != t@);
                        }
                    }
                }
            }
        }
        i = i + 1;
    }
    assert(ts.take(i as int) =~= ts);
    out
}

/// The position of the term `t` in `fs`, if it is there.
fn find_term(fs: &Vec<(String, u32)>, t: &String) -> (r: Option<usize>)
    ensures
        match r {
            Some(j) => j < fs@.len() && fs@[j as int].0@ == t@,
            None => !freq_keys(fs@).contains(t@),
        },
{
    let mut j: usize = 0;
    while j < fs.len()
        invariant
            j <= fs@.len(),
            forall|q: int| 0 <= q < j ==> (#[trigger] fs@[q]).0@ != t@,
        decreases fs.len() - j,
    {
        if fs[j].0 == *t {
            return Some(j);
        }
        j = j + 1;
    }
    proof {
        if freq_keys(fs@).contains(t@) {
            let q = choose|q: int| 0 <= q < freq_keys(fs@).len() && freq_keys(fs@)[q] == t@;
            assert(fs@[q].0@ == t@);
        }
    }
    None
}

/// The position of the section at `path` in `ds`, if it is there.
fn find_doc(ds: &Vec<(VaultPath, DocumentData)>, path: &VaultPath) -> (r: Option<usize>)
    ensures
        match r {
            Some(i) => i < ds@.len() && ds@[i as int].0@ == path@,
            None => !doc_keys(ds@).contains(path@),
        },
{
    let mut i: usize = 0;
    while i < ds.len()
        invariant
            i <= ds@.len(),
            forall|j: int| 0 <= j < i ==> (#[trigger] ds@[j]).0@ != path@,
        decreases ds.len() - i,
    {
        if ds[i].0.same_as(path) {
            return Some(i);
        }
        i = i + 1;
    }
    proof {
        if doc_keys(ds@).contains(path@) {
            let q = choose|q: int| 0 <= q < doc_keys(ds@).len() && doc_keys(ds@)[q] == path@;
            assert(ds@[q].0@ == path@);
        }
    }
    None
}

/// The term statistics of the indexed sections.
pub struct TermStore {
    docs: Vec<(VaultPath, DocumentData)>,
    total_doc_length: u64,
}

pub open spec fn posting_keys(ps: Seq<(VaultPath, u32)>) -> Seq<PathKey> {
    ps.map_values(|p: (VaultPath, u32)| p.0@)
}

pub open spec fn doc_keys(ds: Seq<(VaultPath, DocumentData)>) -> Seq<PathKey> {
    ds.map_values(|d: (VaultPath, DocumentData)| d.0@)
}

/// The lengths of the documents added up.
pub open spec fn lengths(ds: Seq<(VaultPath, DocumentData)>) -> int
    decreases ds.len(),
{
    if ds.len() == 0 {
        0
    } else {
        lengths(ds.drop_last()) + ds.last().1.doc_length
    }
}

/// A position of the term `t` among the frequencies.
pub open spec fn freq_position(fs: Seq<(String, u32)>, t: Seq<char>) -> int {
    choose|i: int| 0 <= i < fs.len() && fs[i].0@ == t
}

/// Term frequencies and lengths as plain values: each term's count, and the length.
pub open spec fn doc_view(d: DocumentData) -> (Map<Seq<char>, nat>, nat) {
    (
        Map::new(
            |t: Seq<char>| freq_keys(d.term_freqs@).contains(t),
            |t: Seq<char>| d.term_freqs@[freq_position(d.term_freqs@, t)].1 as nat,
        ),
        d.doc_length as nat,
    )
}

/// The statistics of `tokens`: each token's number of occurrences, and their number.
pub open spec fn tokens_view(ts: Seq<Seq<char>>) -> (Map<Seq<char>, nat>, nat) {
    (Map::new(|t: Seq<char>| ts.to_multiset().count(t) > 0, |t: Seq<char>| ts.to_multiset().count(t)), ts.len())
}

pub open spec fn docs_map(ds: Seq<(VaultPath, DocumentData)>) -> Map<PathKey, (Map<Seq<char>, nat>, nat)>
    decreases ds.len(),
{
    if ds.len() == 0 {
        Map::empty()
    } else {
        docs_map(ds.drop_last()).insert(ds.last().0@, doc_view(ds.last().1))
    }
}

impl View for TermStore {
    type V = Map<PathKey, (Map<Seq<char>, nat>, nat)>;

    closed spec fn view(&self) -> Map<PathKey, (Map<Seq<char>, nat>, nat)> {
        docs_map(self.docs@)
    }
}

impl TermStore {
    #[verifier::type_invariant]
    closed spec fn wf(self) -> bool {
        &&& doc_keys(self.docs@).no_duplicates()
        &&& forall|i: int| 0 <= i < self.docs@.len() ==> freq_keys((#[trigger] self.docs@[i]).1.term_freqs@).no_duplicates()
        &&& self.total_doc_length == lengths(self.docs@)
    }

    /// The total length of the indexed sections.
    pub closed spec fn total(self) -> int {
        lengths(self.docs@)
    }

    pub fn new() -> (r: TermStore)
        ensures
            r@ == Map::<PathKey, (Map<Seq<char>, nat>, nat)>::empty(),
            r.total() == 0,
    {
        let r = TermStore { docs: Vec::new(), total_doc_length: 0 };
        assert(doc_keys(r.docs@) =~= Seq::<PathKey>::empty());
        r
    }

    /// The number of indexed sections.
    pub fn doc_count(&self) -> (c: usize)
        ensures
            c == self@.len(),
    {
        proof {
            use_type_invariant(self);
            lemma_docs_map_len(self.docs@);
        }
        self.docs.len()
    }

    /// The total length of the indexed sections.
    pub fn total_doc_length(&self) -> (t: u64)
        ensures
            t == self.total(),
    {
        proof {
            use_type_invariant(self);
        }
        self.total_doc_length
    }

    /// Adds the section at `path` with the tokens `tokens`, replacing what was
    /// there; gives the number of tokens.
    pub fn add_document(&mut self, path: VaultPath, tokens: &Vec<String>) -> (n: usize)
        requires
            tokens@.len() <= u32::MAX,
            old(self).total() + tokens@.len() <= u64::MAX,
        ensures
            n == tokens@.len(),
            final(self)@ == old(self)@.insert(path@, tokens_view(texts(tokens@))),
            final(self).total() == old(self).total() - (if old(self)@.contains_key(path@) {
                old(self)@[path@].1 as int
            } else {
                0
            }) + tokens@.len(),
    {
        proof {
            use_type_invariant(&*self);
        }
        self.remove_document(&path);
        let term_freqs = term_frequencies(tokens);
        let n = tokens.len();
        let data = DocumentData { term_freqs, doc_length: n as u32 };
        proof {
            use_type_invariant(&*self);
            lemma_doc_view_of_tokens(data, texts(tokens@));
            lemma_docs_map_keys(self.docs@);
            assert(!self@.contains_key(path@));
            assert(!docs_map(self.docs@).contains_key(path@));
            assert(!doc_keys(self.docs@).contains(path@));
        }
        let ghost before = self.docs@;
        let total = self.total_doc_length + n as u64;
        let mut tmp = TermStore::new();
        std::mem::swap(&mut tmp, self);
        let TermStore { mut docs, total_doc_length: _ } = tmp;
        assert(docs@ == before);
        docs.push((path, data));
        proof {
            assert(docs@.drop_last() == before);
            assert(doc_keys(docs@) =~= doc_keys(before).push(docs@.last().0@));
            assert(!doc_keys(before).contains(docs@.last().0@));
            assert(doc_keys(docs@).no_duplicates()) by {
                assert forall|a: int, b: int| 0 <= a < b < docs@.len() implies doc_keys(docs@)[a] != doc_keys(docs@)[b] by {
                    if b == before.len() {
                        assert(doc_keys(before)[a] == doc_keys(docs@)[a]);
                    } else {
                        assert(doc_keys(docs@)[a] == doc_keys(before)[a]);
                        assert(doc_keys(docs@)[b] == doc_keys(before)[b]);
                    }
                }
            }
        }
        *self = TermStore { docs, total_doc_length: total };
        n
    }

    /// Removes the section at `path`, if it is indexed.
    pub fn remove_document(&mut self, path: &VaultPath)
        ensures
            final(self)@ == old(self)@.remove(path@),
            final(self).total() == old(self).total() - (if old(self)@.contains_key(path@) {
                old(self)@[path@].1 as int
            } else {
                0
            }),
    {
        proof {
            use_type_invariant(&*self);
            lemma_docs_map_keys(self.docs@);
        }
        let i = match find_doc(&self.docs, path) {
            None => {
                proof {
                    assert(self@ =~= self@.remove(path@));
                }
                return;
            },
            Some(i) => i,
        };
        let ghost before = self.docs@;
        let mut tmp = TermStore::new();
        std::mem::swap(&mut tmp, self);
        let TermStore { mut docs, total_doc_length } = tmp;
        assert(docs@ == before);
        let removed = docs.remove(i);
        proof {
            lemma_remove_entry(before, i as int);
            lemma_lengths_nonneg(docs@);
        }
        let total = total_doc_length - removed.1.doc_length as u64;
        *self = TermStore { docs, total_doc_length: total };
    }

    /// The data of the section at `path`, if it is indexed.
    pub fn document(&self, path: &VaultPath) -> (r: Option<&DocumentData>)
        ensures
            match r {
                Some(d) => self@.contains_key(path@) && self@[path@] == doc_view(*d),
                None => !self@.contains_key(path@),
            },
    {
        proof {
            use_type_invariant(self);
            lemma_docs_map_keys(self.docs@);
        }
        let mut i: usize = 0;
        while i < self.docs.len()
            invariant
                i <= self.docs@.len(),
                doc_keys(self.docs@).no_duplicates(),
                forall|j: int| 0 <= j < i ==> (#[trigger] self.docs@[j]).0@ != path@,
            decreases self.docs.len() - i,
        {
            if self.docs[i].0.same_as(path) {
                proof {
                    lemma_docs_map_at(self.docs@, i as int);
                }
                return Some(&self.docs[i].1);
            }
            i = i + 1;
        }
        proof {
            if doc_keys(self.docs@).contains(path@) {
                let q = choose|q: int| 0 <= q < doc_keys(self.docs@).len() && doc_keys(self.docs@)[q] == path@;
                assert(self.docs@[q].0@ == path@);
            }
        }
        None
    }

    /// Each indexed section that holds `term`, with the term's frequency there.
    pub fn postings(&self, term: &String) -> (r: Vec<(VaultPath, u32)>)
        ensures
            posting_keys(r@).no_duplicates(),
            forall|i: int|
                0 <= i < r@.len() ==> self@.contains_key((#[trigger] r@[i]).0@) && self@[r@[i].0@].0.contains_key(term@)
                    && r@[i].1 == self@[r@[i].0@].0[term@],
            forall|k: PathKey|
                self@.contains_key(k) && self@[k].0.contains_key(term@) ==> #[trigger] posting_keys(r@).contains(k),
    {
        proof {
            use_type_invariant(self);
            lemma_docs_map_keys(self.docs@);
        }
        let ghost ds = self.docs@;
        let mut out: Vec<(VaultPath, u32)> = Vec::new();
        let mut i: usize = 0;
        while i < self.docs.len()
            invariant
                i <= self.docs@.len(),
                ds == self.docs@,
                doc_keys(ds).no_duplicates(),
                forall|j: int| 0 <= j < ds.len() ==> freq_keys((#[trigger] ds[j]).1.term_freqs@).no_duplicates(),
                forall|k: PathKey| #[trigger] docs_map(ds).contains_key(k) <==> doc_keys(ds).contains(k),
                forall|q: int| 0 <= q < out@.len() ==> doc_keys(ds).take(i as int).contains(#[trigger] posting_keys(out@)[q]),
                posting_keys(out@).no_duplicates(),
                forall|q: int|
                    0 <= q < out@.len() ==> docs_map(ds).contains_key((#[trigger] out@[q]).0@) && docs_map(ds)[out@[q].0@].0.contains_key(
                        term@,
                    ) && out@[q].1 == docs_map(ds)[out@[q].0@].0[term@],
                forall|j: int|
                    0 <= j < i && freq_keys((#[trigger] ds[j]).1.term_freqs@).contains(term@) ==> posting_keys(out@).contains(
                        ds[j].0@,
                    ),
            decreases self.docs.len() - i,
        {
            let ghost before = out@;
            let fs = &self.docs[i].1.term_freqs;
            proof {
                lemma_docs_map_at(ds, i as int);
                assert(doc_keys(ds).take(i + 1) =~= doc_keys(ds).take(i as int).push(ds[i as int].0@));
                assert(!doc_keys(ds).take(i as int).contains(ds[i as int].0@)) by {
                    if doc_keys(ds).take(i as int).contains(ds[i as int].0@) {
                        let q = choose|q: int| 0 <= q < i && doc_keys(ds).take(i as int)[q] == ds[i as int].0@;
                        assert(doc_keys(ds)[q] == doc_keys(ds)[i as int]);
                    }
                }
            }
            match find_term(fs, term) {
                Some(j) => {
                    proof {
                        let p = freq_position(fs@, term@);
                        assert(freq_keys(fs@)[j as int] == term@);
                        assert(fs@[p].0@ == term@);
                        assert(freq_keys(fs@)[p] == freq_keys(fs@)[j as int]);
                    }
                    out.push((self.docs[i].0.clone(), fs[j].1));
                    proof {
                        assert(posting_keys(out@) =~= posting_keys(before).push(ds[i as int].0@));
                    }
                },
                None => {},
            }
            proof {
                assert forall|q: int| 0 <= q < out@.len() implies doc_keys(ds).take(i + 1).contains(#[trigger] posting_keys(out@)[q]) by {
                    crate::core_logic::lemma_push_contains(doc_keys(ds).take(i as int), ds[i as int].0@, posting_keys(out@)[q]);
                    if q < before.len() {
                        assert(posting_keys(out@)[q] == posting_keys(before)[q]);
                    }
                }
                assert(posting_keys(out@).no_duplicates()) by {
                    if out@.len() > before.len() {
                        assert forall|a: int, b: int| 0 <= a < b < out@.len() implies posting_keys(out@)[a] != posting_keys(out@)[b] by {
                            if b == before.len() {
                                assert(posting_keys(out@)[a] == posting_keys(before)[a]);
                                assert(doc_keys(ds).take(i as int).contains(posting_keys(before)[a]));
                            } else {
                                assert(posting_keys(out@)[a] == posting_keys(before)[a]);
                                assert(posting_keys(out@)[b] == posting_keys(before)[b]);
                            }
                        }
                    }
                }
                assert forall|q: int|
                    0 <= q < out@.len() implies docs_map(ds).contains_key((#[trigger] out@[q]).0@) && docs_map(ds)[out@[q].0@].0.contains_key(
                        term@,
                    ) && out@[q].1 == docs_map(ds)[out@[q].0@].0[term@] by {
                    if q < before.len() {
                        assert(out@[q] == before[q]);
                    }
                }
                assert forall|j: int|
                    0 <= j < i + 1 && freq_keys((#[trigger] ds[j]).1.term_freqs@).contains(term@) implies posting_keys(out@).contains(
                        ds[j].0@,
                    ) by {
                    if j < i {
                        let q = choose|q: int| 0 <= q < posting_keys(before).len() && posting_keys(before)[q] == ds[j].0@;
                        assert(posting_keys(out@)[q] == ds[j].0@);
                    } else {
                        assert(posting_keys(out@)[out@.len() - 1] == ds[j].0@);
                    }
                }
            }
            i = i + 1;
        }
        proof {
            assert forall|k: PathKey|
                docs_map(ds).contains_key(k) && docs_map(ds)[k].0.contains_key(term@) implies #[trigger] posting_keys(out@).contains(k) by {
                let j = choose|j: int| 0 <= j < doc_keys(ds).len() && doc_keys(ds)[j] == k;
                lemma_docs_map_at(ds, j);
                assert(freq_keys(ds[j].1.term_freqs@).contains(term@));
            }
        }
        out
    }

    /// Removes every section.
    pub fn clear(&mut self)
        ensures
            final(self)@ == Map::<PathKey, (Map<Seq<char>, nat>, nat)>::empty(),
            final(self).total() == 0,
    {
        *self = TermStore::new();
    }

    /// Adds the sections of the note at `note_path`, each under its own path
    /// (see `section_key`) with the tokens of its content, and gives each
    /// section's number of tokens. A section without a path, or whose tokens do
    /// not fit the store's limits, is not added.
    pub fn add_sections(&mut self, note_path: &VaultPath, sections: &Vec<Section>) -> (counts: Vec<usize>)
        ensures
            counts@.len() == sections@.len(),
            forall|i: int|
                0 <= i < sections@.len() ==> counts@[i] == section_tokens(#[trigger] sections@[i]@).len(),
            (final(self)@, final(self).total()) == with_sections(
                (old(self)@, old(self).total()),
                note_path@.1,
                section_views(sections@),
            ),
    {
        let tokenizer = NaiveTokenizer::new();
        let mut counts: Vec<usize> = Vec::new();
        let mut i: usize = 0;
        while i < sections.len()
            invariant
                i <= sections@.len(),
                counts@.len() == i,
                forall|j: int|
                    0 <= j < i ==> counts@[j] == section_tokens(#[trigger] sections@[j]@).len(),
                (self@, self.total()) == with_sections(
                    (old(self)@, old(self).total()),
                    note_path@.1,
                    section_views(sections@).take(i as int),
                ),
            decreases sections.len() - i,
        {
            let section = &sections[i];
            let tokens = tokenizer.tokenize(section.content.as_str());
            let n = tokens.len();
            let ghost before = (self@, self.total());
            proof {
                assert(section_views(sections@).take(i + 1).drop_last() =~= section_views(sections@).take(
                    i as int,
                ));
                assert(texts(tokens@) == tokens_of(words_of(section.content@)));
            }
            match make_section_path(note_path, &section.heading_path) {
                Some(p) => {
                    let total = self.total_doc_length();
                    if n <= 4294967295 && total <= 18446744073709551615 - n as u64 {
                        self.add_document(p, &tokens);
                    }
                },
                None => {},
            }
            proof {
                assert(section_step(before, note_path@.1, section@) == (self@, self.total()));
            }
            counts.push(n);
            i = i + 1;
        }
        proof {
            assert(section_views(sections@).take(sections@.len() as int) =~= section_views(sections@));
        }
        counts
    }
}

/// The tokens of the content of the section `s`.
pub open spec fn section_tokens(s: SectionView) -> Seq<Seq<char>> {
    tokens_of(words_of(s.content))
}

/// The term statistics `st` (the sections and their total length) after adding
/// the section `s` of the note `note`: when it has a path and its tokens fit
/// (at most `u32::MAX` of them, and the total stays within `u64::MAX`), it
/// replaces what was at that path; otherwise `st` is unchanged.
pub open spec fn section_step(
    st: (Map<PathKey, (Map<Seq<char>, nat>, nat)>, int),
    note: Seq<char>,
    s: SectionView,
) -> (Map<PathKey, (Map<Seq<char>, nat>, nat)>, int) {
    let toks = section_tokens(s);
    match section_key(note, s.heading_path) {
        Some(k) => if toks.len() <= u32::MAX && st.1 + toks.len() <= u64::MAX {
            (
                st.0.insert(k, tokens_view(toks)),
                st.1 - (if st.0.contains_key(k) { st.0[k].1 as int } else { 0 }) + toks.len(),
            )
        } else {
            st
        },
        None => st,
    }
}

/// The term statistics `st` after adding the sections `ss` of the note `note`
/// one after the other.
pub open spec fn with_sections(
    st: (Map<PathKey, (Map<Seq<char>, nat>, nat)>, int),
    note: Seq<char>,
    ss: Seq<SectionView>,
) -> (Map<PathKey, (Map<Seq<char>, nat>, nat)>, int)
    decreases ss.len(),
{
    if ss.len() == 0 {
        st
    } else {
        section_step(with_sections(st, note, ss.drop_last()), note, ss.last())
    }
}

proof fn lemma_lengths_nonneg(ds: Seq<(VaultPath, DocumentData)>)
    ensures
        lengths(ds) >= 0,
    decreases ds.len(),
{
    if ds.len() > 0 {
        lemma_lengths_nonneg(ds.drop_last());
    }
}

proof fn lemma_docs_map_len(ds: Seq<(VaultPath, DocumentData)>)
    requires
        doc_keys(ds).no_duplicates(),
    ensures
        docs_map(ds).len() == ds.len(),
        docs_map(ds).dom().finite(),
    decreases ds.len(),
{
    if ds.len() > 0 {
        let rest = ds.drop_last();
        assert(doc_keys(rest) =~= doc_keys(ds).drop_last());
        lemma_docs_map_len(rest);
        lemma_docs_map_keys(rest);
        assert(!doc_keys(rest).contains(ds.last().0@)) by {
            if doc_keys(rest).contains(ds.last().0@) {
                let q = choose|q: int| 0 <= q < doc_keys(rest).len() && doc_keys(rest)[q] == ds.last().0@;
                assert(doc_keys(ds)[q] == doc_keys(ds)[ds.len() - 1]);
            }
        }
    }
}

proof fn lemma_docs_map_keys(ds: Seq<(VaultPath, DocumentData)>)
    ensures
        forall|k: PathKey| #[trigger] docs_map(ds).contains_key(k) <==> doc_keys(ds).contains(k),
    decreases ds.len(),
{
    if ds.len() > 0 {
        let rest = ds.drop_last();
        lemma_docs_map_keys(rest);
        assert(doc_keys(ds) =~= doc_keys(rest).push(ds.last().0@));
        assert(docs_map(ds) == docs_map(rest).insert(ds.last().0@, doc_view(ds.last().1)));
        assert forall|k: PathKey| #[trigger] docs_map(ds).contains_key(k) <==> doc_keys(ds).contains(k) by {
            crate::core_logic::lemma_push_contains(doc_keys(rest), ds.last().0@, k);
        }
    }
}

proof fn lemma_docs_map_at(ds: Seq<(VaultPath, DocumentData)>, i: int)
    requires
        doc_keys(ds).no_duplicates(),
        0 <= i < ds.len(),
    ensures
        docs_map(ds).contains_key(ds[i].0@),
        docs_map(ds)[ds[i].0@] == doc_view(ds[i].1),
    decreases ds.len(),
{
    let rest = ds.drop_last();
    assert(doc_keys(rest) =~= doc_keys(ds).drop_last());
    if i < ds.len() - 1 {
        lemma_docs_map_at(rest, i);
        assert(doc_keys(ds)[i] != doc_keys(ds)[ds.len() - 1]);
    }
}

proof fn lemma_remove_entry(ds: Seq<(VaultPath, DocumentData)>, i: int)
    requires
        doc_keys(ds).no_duplicates(),
        0 <= i < ds.len(),
    ensures
        doc_keys(ds.remove(i)).no_duplicates(),
        docs_map(ds.remove(i)) == docs_map(ds).remove(ds[i].0@),
        lengths(ds.remove(i)) == lengths(ds) - ds[i].1.doc_length,
        docs_map(ds).contains_key(ds[i].0@),
        docs_map(ds)[ds[i].0@].1 == ds[i].1.doc_length,
    decreases ds.len(),
{
    lemma_docs_map_at(ds, i);
    let rest = ds.drop_last();
    assert(doc_keys(rest) =~= doc_keys(ds).drop_last());
    assert(doc_keys(ds.remove(i)) =~= doc_keys(ds).remove(i));
    assert(doc_keys(ds.remove(i)).no_duplicates()) by {
        assert forall|a: int, b: int| 0 <= a < b < ds.len() - 1 implies doc_keys(ds).remove(i)[a] != doc_keys(ds).remove(i)[b] by {
            let a0 = if a < i { a } else { a + 1 };
            let b0 = if b < i { b } else { b + 1 };
            assert(doc_keys(ds).remove(i)[a] == doc_keys(ds)[a0]);
            assert(doc_keys(ds).remove(i)[b] == doc_keys(ds)[b0]);
        }
    }
    if i == ds.len() - 1 {
        assert(ds.remove(i) =~= rest);
        lemma_docs_map_keys(rest);
        assert(!doc_keys(rest).contains(ds[i].0@)) by {
            if doc_keys(rest).contains(ds[i].0@) {
                let q = choose|q: int| 0 <= q < doc_keys(rest).len() && doc_keys(rest)[q] == ds[i].0@;
                assert(doc_keys(ds)[q] == doc_keys(ds)[i]);
            }
        }
        assert(docs_map(rest) =~= docs_map(ds).remove(ds[i].0@));
    } else {
        lemma_remove_entry(rest, i);
        assert(ds.remove(i).drop_last() =~= rest.remove(i));
        assert(ds.remove(i).last() == ds.last());
        assert(ds[i].0@ != ds.last().0@) by {
            assert(doc_keys(ds)[i] != doc_keys(ds)[ds.len() - 1]);
        }
        assert(docs_map(ds.remove(i)) =~= docs_map(ds).remove(ds[i].0@));
    }
}

proof fn lemma_doc_view_of_tokens(d: DocumentData, ts: Seq<Seq<char>>)
    requires
        freqs_of(d.term_freqs@, ts),
        d.doc_length == ts.len(),
    ensures
        doc_view(d) == tokens_view(ts),
{
    let fs = d.term_freqs@;
    assert forall|t: Seq<char>| freq_keys(fs).contains(t) <==> ts.to_multiset().count(t) > 0 by {
        if freq_keys(fs).contains(t) {
            let q = choose|q: int| 0 <= q < freq_keys(fs).len() && freq_keys(fs)[q] == t;
            assert(fs[q].1 == ts.to_multiset().count(fs[q].0@));
        }
    }
    assert forall|t: Seq<char>| freq_keys(fs).contains(t) implies fs[freq_position(fs, t)].1 as nat
        == ts.to_multiset().count(t) by {
        let q = choose|q: int| 0 <= q < freq_keys(fs).len() && freq_keys(fs)[q] == t;
        assert(fs[q].0@ == t);
        let p = freq_position(fs, t);
        assert(fs[p].0@ == t);
    }
    assert(doc_view(d).0 =~= tokens_view(ts).0);
}

/// Adding a section that was not indexed and removing it again leaves the
/// statistics as they were.
pub proof fn law_add_then_remove(
    m: Map<PathKey, (Map<Seq<char>, nat>, nat)>,
    k: PathKey,
    tokens: Seq<Seq<char>>,
)
    requires
        !m.contains_key(k),
    ensures
        m.insert(k, tokens_view(tokens)).remove(k) == m,
{
    assert(m.insert(k, tokens_view(tokens)).remove(k) =~= m);
}

/// Adding a section twice is adding it once with the second tokens.
pub proof fn law_add_replaces(
    m: Map<PathKey, (Map<Seq<char>, nat>, nat)>,
    k: PathKey,
    first: Seq<Seq<char>>,
    second: Seq<Seq<char>>,
)
    ensures
        m.insert(k, tokens_view(first)).insert(k, tokens_view(second)) == m.insert(k, tokens_view(second)),
{
    assert(m.insert(k, tokens_view(first)).insert(k, tokens_view(second)) =~= m.insert(k, tokens_view(second)));
}

} // verus!
