//! Revision tokens and the tracker that remembers the last known token of each path.
use vstd::prelude::*;

use crate::vault_path::{VaultPath, VaultPathKind};

verus! {

/// A revision token: an opaque text that changes whenever a file changes.
#[derive(Debug, PartialEq, Eq, Hash)]
pub struct RevisionToken(String);

impl View for RevisionToken {
    type V = Seq<char>;

    closed spec fn view(&self) -> Seq<char> {
        self.0@
    }
}

impl Clone for RevisionToken {
    fn clone(&self) -> (r: Self)
        ensures
            r@ == self@,
    {
        RevisionToken(self.0.clone())
    }
}

impl RevisionToken {
    /// The token's text.
    pub fn as_str(&self) -> (r: &str)
        ensures
            r@ == self@,
    {
        self.0.as_str()
    }

    /// The token's text, owned.
    pub fn to_string(&self) -> (r: String)
        ensures
            r@ == self@,
    {
        self.0.clone()
    }

    /// Whether two tokens are the same.
    pub fn same_as(&self, other: &RevisionToken) -> (b: bool)
        ensures
            b == (self@ == other@),
    {
        self.0 == other.0
    }
}

impl From<&str> for RevisionToken {
    fn from(value: &str) -> (r: RevisionToken)
        ensures
            r@ == value@,
    {
        RevisionToken(value.to_string())
    }
}

impl vstd::std_specs::convert::FromSpecImpl<&str> for RevisionToken {
    open spec fn obeys_from_spec() -> bool {
        false
    }

    /// Not used: `from` states its result through the token's view.
    closed spec fn from_spec(value: &str) -> RevisionToken {
        vstd::pervasive::arbitrary()
    }
}

impl From<String> for RevisionToken {
    fn from(value: String) -> (r: RevisionToken)
        ensures
            r@ == value@,
    {
        RevisionToken(value)
    }
}

impl vstd::std_specs::convert::FromSpecImpl<String> for RevisionToken {
    open spec fn obeys_from_spec() -> bool {
        true
    }

    closed spec fn from_spec(value: String) -> RevisionToken {
        RevisionToken(value)
    }
}

/// The key a path is tracked under: its kind and its text.
pub type PathKey = (VaultPathKind, Seq<char>);

/// What a tracker knows of `p`: its token, or `None`.
pub open spec fn lookup(m: Map<PathKey, Seq<char>>, p: PathKey) -> Option<Seq<char>> {
    if m.contains_key(p) {
        Some(m[p])
    } else {
        None
    }
}

/// A token passes the check for `p` when none is tracked for `p` or it is the tracked one.
pub open spec fn validates(m: Map<PathKey, Seq<char>>, p: PathKey, t: Seq<char>) -> bool {
    match lookup(m, p) {
        Some(stored) => stored == t,
        None => true,
    }
}

/// The map that a list of (path, token) entries describes, later entries winning.
pub open spec fn entries_map(es: Seq<(VaultPath, RevisionToken)>) -> Map<PathKey, Seq<char>>
    decreases es.len(),
{
    if es.len() == 0 {
        Map::empty()
    } else {
        entries_map(es.drop_last()).insert(es.last().0@, es.last().1@)
    }
}

/// No two entries have the same path.
pub open spec fn distinct_paths(es: Seq<(VaultPath, RevisionToken)>) -> bool {
    forall|i: int, j: int| 0 <= i < j < es.len() ==> (#[trigger] es[i]).0@ != (#[trigger] es[j]).0@
}

proof fn lemma_entries_map(es: Seq<(VaultPath, RevisionToken)>)
    requires
        distinct_paths(es),
    ensures
        forall|k: PathKey|
            entries_map(es).contains_key(k) <==> exists|i: int| 0 <= i < es.len() && (#[trigger] es[i]).0@ == k,
        forall|i: int| 0 <= i < es.len() ==> entries_map(es)[(#[trigger] es[i]).0@] == es[i].1@,
        entries_map(es).dom().finite(),
        entries_map(es).len() == es.len(),
    decreases es.len(),
{
    if es.len() > 0 {
        let init = es.drop_last();
        assert(distinct_paths(init)) by {
            assert forall|i: int, j: int| 0 <= i < j < init.len() implies (#[trigger] init[i]).0@ != (
            #[trigger] init[j]).0@ by {
                assert(init[i] == es[i] && init[j] == es[j]);
            }
        }
        lemma_entries_map(init);
        let last = es.last();
        assert(!entries_map(init).contains_key(last.0@)) by {
            if entries_map(init).contains_key(last.0@) {
                let i = choose|i: int| 0 <= i < init.len() && (#[trigger] init[i]).0@ == last.0@;
                assert(es[i] == init[i]);
                assert(es[es.len() - 1] == last);
            }
        }
        assert forall|k: PathKey| entries_map(es).contains_key(k) <==> exists|i: int|
            0 <= i < es.len() && (#[trigger] es[i]).0@ == k by {
            if entries_map(es).contains_key(k) {
                if k == last.0@ {
                    assert(es[es.len() - 1].0@ == k);
                } else {
                    let i = choose|i: int| 0 <= i < init.len() && (#[trigger] init[i]).0@ == k;
                    assert(es[i] == init[i]);
                }
            }
            if exists|i: int| 0 <= i < es.len() && (#[trigger] es[i]).0@ == k {
                let i = choose|i: int| 0 <= i < es.len() && (#[trigger] es[i]).0@ == k;
                if i < es.len() - 1 {
                    assert(init[i] == es[i]);
                }
            }
        }
        assert forall|i: int| 0 <= i < es.len() implies entries_map(es)[(#[trigger] es[i]).0@] == es[i].1@ by {
            if i < es.len() - 1 {
                assert(init[i] == es[i]);
                assert(es[i].0@ != last.0@);
            }
        }
    }
}

/// What the entries of a list with distinct paths say of the map they describe.
pub proof fn lemma_entries_map_pub(es: Seq<(VaultPath, RevisionToken)>)
    requires
        distinct_paths(es),
    ensures
        forall|k: PathKey|
            entries_map(es).contains_key(k) <==> exists|i: int| 0 <= i < es.len() && (#[trigger] es[i]).0@ == k,
        forall|i: int| 0 <= i < es.len() ==> entries_map(es)[(#[trigger] es[i]).0@] == es[i].1@,
{
    lemma_entries_map(es);
}

/// An in-memory revision tracker: the last known token of each path.
pub struct InMemoryRevisionTracker {
    entries: Vec<(VaultPath, RevisionToken)>,
}

impl View for InMemoryRevisionTracker {
    type V = Map<PathKey, Seq<char>>;

    closed spec fn view(&self) -> Map<PathKey, Seq<char>> {
        entries_map(self.entries@)
    }
}

impl InMemoryRevisionTracker {
    #[verifier::type_invariant]
    closed spec fn inv(self) -> bool {
        distinct_paths(self.entries@)
    }

    /// A tracker that knows no path.
    pub fn new() -> (r: InMemoryRevisionTracker)
        ensures
            r@ == Map::<PathKey, Seq<char>>::empty(),
    {
        InMemoryRevisionTracker { entries: Vec::new() }
    }

    /// Where the entry of `path` is, if there is one.
    fn position(&self, path: &VaultPath) -> (r: Option<usize>)
        ensures
            match r {
                Some(i) => i < self.entries@.len() && self.entries@[i as int].0@ == path@,
                None => forall|i: int| 0 <= i < self.entries@.len() ==> (#[trigger] self.entries@[i]).0@ != path@,
            },
    {
        let mut i: usize = 0;
        while i < self.entries.len()
            invariant
                i <= self.entries@.len(),
                forall|j: int| 0 <= j < i ==> (#[trigger] self.entries@[j]).0@ != path@,
            decreases self.entries.len() - i,
        {
            if self.entries[i].0.same_as(path) {
                return Some(i);
            }
            i = i + 1;
        }
        None
    }

    /// The token tracked for `path`, if any.
    pub fn get_revision(&self, path: &VaultPath) -> (r: Option<RevisionToken>)
        ensures
            match r {
                Some(t) => lookup(self@, path@) == Some(t@),
                None => lookup(self@, path@) is None,
            },
    {
        proof {
            use_type_invariant(self);
            lemma_entries_map(self.entries@);
        }
        match self.position(path) {
            Some(i) => Some(self.entries[i].1.clone()),
            None => None,
        }
    }

    /// Tracks `token` as the revision of `path`, replacing any earlier one.
    pub fn update_revision(&mut self, path: &VaultPath, token: RevisionToken)
        ensures
            final(self)@ == old(self)@.insert(path@, token@),
    {
        proof {
            use_type_invariant(&*self);
            lemma_entries_map(self.entries@);
        }
        let ghost old_es = self.entries@;
        match self.position(path) {
            Some(i) => {
                let p = self.entries[i].0.clone();
                let mut es_exec: Vec<(VaultPath, RevisionToken)> = Vec::new();
                std::mem::swap(&mut es_exec, &mut self.entries);
                es_exec.set(i, (p, token));
                let ghost es = es_exec@;
                proof {
                    assert(distinct_paths(es)) by {
                        assert forall|a: int, b: int| 0 <= a < b < es.len() implies (#[trigger] es[a]).0@ != (
                        #[trigger] es[b]).0@ by {
                            assert(old_es[a].0@ == es[a].0@);
                            assert(old_es[b].0@ == es[b].0@);
                        }
                    }
                    lemma_entries_map(es);
                    assert(entries_map(es) =~= entries_map(old_es).insert(path@, token@)) by {
                        assert forall|k: PathKey| #[trigger] entries_map(es).contains_key(k) <==> entries_map(
                            old_es,
                        ).insert(path@, token@).contains_key(k) by {
                            if entries_map(es).contains_key(k) {
                                let j = choose|j: int| 0 <= j < es.len() && (#[trigger] es[j]).0@ == k;
                                assert(old_es[j].0@ == es[j].0@);
                            }
                            if entries_map(old_es).contains_key(k) {
                                let j = choose|j: int| 0 <= j < old_es.len() && (#[trigger] old_es[j]).0@ == k;
                                assert(old_es[j].0@ == es[j].0@);
                            }
                        }
                        assert forall|k: PathKey| #[trigger] entries_map(es).contains_key(k) implies entries_map(es)[k]
                            == entries_map(old_es).insert(path@, token@)[k] by {
                            let j = choose|j: int| 0 <= j < es.len() && (#[trigger] es[j]).0@ == k;
                            assert(old_es[j].0@ == es[j].0@);
                        }
                    }
                }
                self.entries = es_exec;
            },
            None => {
                let mut es_exec: Vec<(VaultPath, RevisionToken)> = Vec::new();
                std::mem::swap(&mut es_exec, &mut self.entries);
                es_exec.push((path.clone(), token));
                let ghost es = es_exec@;
                proof {
                    assert(es.drop_last() =~= old_es);
                    assert(distinct_paths(es)) by {
                        assert forall|a: int, b: int| 0 <= a < b < es.len() implies (#[trigger] es[a]).0@ != (
                        #[trigger] es[b]).0@ by {
                            assert(old_es[a] == es[a]);
                            if b < old_es.len() {
                                assert(old_es[b] == es[b]);
                            }
                        }
                    }
                }
                self.entries = es_exec;
            },
        }
    }

    /// Forgets the token of `path`.
    pub fn remove_revision(&mut self, path: &VaultPath)
        ensures
            final(self)@ == old(self)@.remove(path@),
    {
        proof {
            use_type_invariant(&*self);
            lemma_entries_map(self.entries@);
        }
        let ghost old_es = self.entries@;
        match self.position(path) {
            Some(i) => {
                let mut es_exec: Vec<(VaultPath, RevisionToken)> = Vec::new();
                std::mem::swap(&mut es_exec, &mut self.entries);
                es_exec.remove(i);
                let ghost es = es_exec@;
                proof {
                    assert(es =~= old_es.remove(i as int));
                    assert(distinct_paths(es)) by {
                        assert forall|a: int, b: int| 0 <= a < b < es.len() implies (#[trigger] es[a]).0@ != (
                        #[trigger] es[b]).0@ by {
                            let a0 = if a < i { a } else { a + 1 };
                            let b0 = if b < i { b } else { b + 1 };
                            assert(es[a] == old_es[a0]);
                            assert(es[b] == old_es[b0]);
                        }
                    }
                    lemma_entries_map(es);
                    assert(entries_map(es) =~= entries_map(old_es).remove(path@)) by {
                        assert forall|k: PathKey| #[trigger] entries_map(es).contains_key(k) <==> entries_map(
                            old_es,
                        ).remove(path@).contains_key(k) by {
                            if entries_map(es).contains_key(k) {
                                let j = choose|j: int| 0 <= j < es.len() && (#[trigger] es[j]).0@ == k;
                                let j0 = if j < i { j } else { j + 1 };
                                assert(es[j] == old_es[j0]);
                                assert(old_es[j0].0@ != old_es[i as int].0@);
                            }
                            if entries_map(old_es).remove(path@).contains_key(k) {
                                let j = choose|j: int| 0 <= j < old_es.len() && (#[trigger] old_es[j]).0@ == k;
                                assert(j != i);
                                let j1 = if j < i { j } else { j - 1 };
                                assert(es[j1] == old_es[j]);
                            }
                        }
                        assert forall|k: PathKey| #[trigger] entries_map(es).contains_key(k) implies entries_map(es)[k]
                            == entries_map(old_es).remove(path@)[k] by {
                            let j = choose|j: int| 0 <= j < es.len() && (#[trigger] es[j]).0@ == k;
                            let j0 = if j < i { j } else { j + 1 };
                            assert(es[j] == old_es[j0]);
                        }
                    }
                }
                self.entries = es_exec;
            },
            None => {
                assert(!entries_map(old_es).contains_key(path@));
                assert(entries_map(old_es) =~= entries_map(old_es).remove(path@));
            },
        }
    }

    /// Whether `token` passes the check for `path`: no token is tracked for it,
    /// or the tracked one is `token`.
    pub fn validate_revision(&self, path: &VaultPath, token: &RevisionToken) -> (b: bool)
        ensures
            b == validates(self@, path@, token@),
    {
        match self.get_revision(path) {
            None => true,
            Some(stored) => stored.same_as(token),
        }
    }

    /// Every tracked path with its token, each path once.
    pub fn all_revisions(&self) -> (r: Vec<(VaultPath, RevisionToken)>)
        ensures
            distinct_paths(r@),
            entries_map(r@) == self@,
    {
        proof {
            use_type_invariant(self);
        }
        let mut out: Vec<(VaultPath, RevisionToken)> = Vec::new();
        let mut k: usize = 0;
        while k < self.entries.len()
            invariant
                k <= self.entries@.len(),
                distinct_paths(self.entries@),
                out@.len() == k,
                forall|j: int| 0 <= j < k ==> (#[trigger] out@[j]).0@ == self.entries@[j].0@ && out@[j].1@
                    == self.entries@[j].1@,
            decreases self.entries.len() - k,
        {
            out.push((self.entries[k].0.clone(), self.entries[k].1.clone()));
            k = k + 1;
        }
        proof {
            lemma_same_entries(out@, self.entries@);
        }
        out
    }
}

/// Entries with the same paths and tokens describe the same map.
proof fn lemma_same_entries(a: Seq<(VaultPath, RevisionToken)>, b: Seq<(VaultPath, RevisionToken)>)
    requires
        a.len() == b.len(),
        forall|j: int| 0 <= j < a.len() ==> (#[trigger] a[j]).0@ == b[j].0@ && a[j].1@ == b[j].1@,
        distinct_paths(b),
    ensures
        entries_map(a) == entries_map(b),
        distinct_paths(a),
    decreases a.len(),
{
    assert(distinct_paths(a)) by {
        assert forall|i: int, j: int| 0 <= i < j < a.len() implies (#[trigger] a[i]).0@ != (#[trigger] a[j]).0@ by {
            assert(b[i].0@ != b[j].0@);
        }
    }
    if a.len() > 0 {
        assert forall|j: int| 0 <= j < a.len() - 1 implies (#[trigger] a.drop_last()[j]).0@ == b.drop_last()[j].0@
            && a.drop_last()[j].1@ == b.drop_last()[j].1@ by {
            assert(a.drop_last()[j] == a[j]);
            assert(b.drop_last()[j] == b[j]);
        }
        assert(distinct_paths(b.drop_last())) by {
            assert forall|i: int, j: int| 0 <= i < j < b.drop_last().len() implies (#[trigger] b.drop_last()[i]).0@
                != (#[trigger] b.drop_last()[j]).0@ by {
                assert(b.drop_last()[i] == b[i] && b.drop_last()[j] == b[j]);
            }
        }
        lemma_same_entries(a.drop_last(), b.drop_last());
        assert(a.last().0@ == b.last().0@);
    }
}

// ---------------------------------------------------------------------------
// Laws
// ---------------------------------------------------------------------------

/// After a token is tracked for a path, that token is what the tracker gives for it.
pub proof fn law_get_after_update(m: Map<PathKey, Seq<char>>, p: PathKey, t: Seq<char>)
    ensures
        lookup(m.insert(p, t), p) == Some(t),
{
}

/// Tracking a token for one path leaves what is known of every other path unchanged.
pub proof fn law_update_keeps_others(m: Map<PathKey, Seq<char>>, p: PathKey, q: PathKey, t: Seq<char>)
    requires
        p != q,
    ensures
        lookup(m.insert(p, t), q) == lookup(m, q),
{
}

/// After a path's token is removed, the tracker knows no token for it.
pub proof fn law_get_after_remove(m: Map<PathKey, Seq<char>>, p: PathKey)
    ensures
        lookup(m.remove(p), p) is None,
{
}

/// Removing one path's token leaves what is known of every other path unchanged.
pub proof fn law_remove_keeps_others(m: Map<PathKey, Seq<char>>, p: PathKey, q: PathKey)
    requires
        p != q,
    ensures
        lookup(m.remove(p), q) == lookup(m, q),
{
}

/// Right after a token is tracked, that token passes the check and every other
/// token fails it; an untracked path lets every token pass.
pub proof fn law_validate_after_update(m: Map<PathKey, Seq<char>>, p: PathKey, t: Seq<char>, u: Seq<char>)
    ensures
        validates(m.insert(p, t), p, t),
        u != t ==> !validates(m.insert(p, t), p, u),
        validates(m.remove(p), p, u),
{
}

} // verus!
