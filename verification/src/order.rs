//! The order of texts: lexicographic by character, which is the byte order of
//! their UTF-8 encodings (the order of `String` and `str`).
use vstd::prelude::*;

verus! {

/// `a` comes before `b`: at the first position where they differ `a` has the
/// smaller character, or `a` is a proper prefix of `b`.
pub open spec fn lex_lt(a: Seq<char>, b: Seq<char>) -> bool
    decreases a.len(),
{
    if b.len() == 0 {
        false
    } else if a.len() == 0 {
        true
    } else if a[0] != b[0] {
        a[0] < b[0]
    } else {
        lex_lt(a.drop_first(), b.drop_first())
    }
}

pub proof fn lemma_lex_irreflexive(a: Seq<char>)
    ensures
        !lex_lt(a, a),
    decreases a.len(),
{
    if a.len() > 0 {
        lemma_lex_irreflexive(a.drop_first());
    }
}

pub proof fn lemma_lex_transitive(a: Seq<char>, b: Seq<char>, c: Seq<char>)
    requires
        lex_lt(a, b),
        lex_lt(b, c),
    ensures
        lex_lt(a, c),
    decreases a.len(),
{
    if a.len() > 0 && b.len() > 0 && c.len() > 0 && a[0] == b[0] && b[0] == c[0] {
        lemma_lex_transitive(a.drop_first(), b.drop_first(), c.drop_first());
    }
}

pub proof fn lemma_lex_total(a: Seq<char>, b: Seq<char>)
    ensures
        a == b || lex_lt(a, b) || lex_lt(b, a),
    decreases a.len(),
{
    if a.len() > 0 && b.len() > 0 && a[0] == b[0] {
        lemma_lex_total(a.drop_first(), b.drop_first());
        if a.drop_first() == b.drop_first() {
            assert(a =~= seq![a[0]] + a.drop_first());
            assert(b =~= seq![b[0]] + b.drop_first());
        }
    } else if a.len() == 0 && b.len() == 0 {
        assert(a =~= b);
    }
}

pub proof fn lemma_lex_asymmetric(a: Seq<char>, b: Seq<char>)
    requires
        lex_lt(a, b),
    ensures
        !lex_lt(b, a),
{
    if lex_lt(b, a) {
        lemma_lex_transitive(a, b, a);
        lemma_lex_irreflexive(a);
    }
}

/// Whether `a` comes before `b`.
pub fn lex_lt_exec(a: &Vec<char>, b: &Vec<char>) -> (r: bool)
    ensures
        r == lex_lt(a@, b@),
{
    let mut i: usize = 0;
    assert(a@.skip(0) =~= a@);
    assert(b@.skip(0) =~= b@);
    while i < a.len() && i < b.len() && a[i] == b[i]
        invariant
            i <= a.len(),
            i <= b.len(),
            lex_lt(a@, b@) == lex_lt(a@.skip(i as int), b@.skip(i as int)),
        decreases a.len() - i,
    {
        assert(a@.skip(i as int).drop_first() =~= a@.skip(i + 1));
        assert(b@.skip(i as int).drop_first() =~= b@.skip(i + 1));
        i = i + 1;
    }
    if i == b.len() {
        false
    } else if i == a.len() {
        true
    } else {
        a[i] < b[i]
    }
}

/// Whether `a` comes before `b`.
pub fn text_lt(a: &String, b: &String) -> (r: bool)
    ensures
        r == lex_lt(a@, b@),
{
    let av = crate::text::chars_of(a.as_str());
    let bv = crate::text::chars_of(b.as_str());
    lex_lt_exec(&av, &bv)
}

/// Every text comes before the next: the texts are in order and none repeats.
pub open spec fn strictly_sorted(v: Seq<Seq<char>>) -> bool {
    forall|i: int, j: int| 0 <= i < j < v.len() ==> lex_lt(#[trigger] v[i], #[trigger] v[j])
}

/// No text comes before the one preceding it.
pub open spec fn sorted(v: Seq<Seq<char>>) -> bool {
    forall|i: int, j: int| 0 <= i < j < v.len() ==> !lex_lt(#[trigger] v[j], #[trigger] v[i])
}

pub open spec fn texts(v: Seq<String>) -> Seq<Seq<char>> {
    v.map_values(|s: String| s@)
}

/// Adds `s` to the strictly sorted `out` unless it is there already.
pub fn insert_sorted(out: &mut Vec<String>, s: String)
    requires
        strictly_sorted(texts(old(out)@)),
    ensures
        strictly_sorted(texts(final(out)@)),
        forall|x: Seq<char>| texts(final(out)@).contains(x) <==> (texts(old(out)@).contains(x) || x == s@),
{
    let ghost old_t = texts(out@);
    let mut i: usize = 0;
    while i < out.len() && text_lt(&out[i], &s)
        invariant
            i <= out.len(),
            old_t == texts(out@),
            strictly_sorted(old_t),
            forall|j: int| 0 <= j < i ==> lex_lt(#[trigger] old_t[j], s@),
        decreases out.len() - i,
    {
        i = i + 1;
    }
    if i < out.len() {
        assert(!lex_lt(old_t[i as int], s@));
        if !text_lt(&s, &out[i]) {
            proof {
                lemma_lex_total(old_t[i as int], s@);
            }
            assert(old_t[i as int] == s@);
            assert forall|x: Seq<char>| texts(out@).contains(x) <==> (old_t.contains(x) || x == s@) by {
                if x == s@ {
                    assert(old_t[i as int] == x);
                }
            }
            return ;
        }
    }
    proof {
        if i < old_t.len() {
            assert(lex_lt(s@, old_t[i as int]));
        }
    }
    out.insert(i, s);
    let ghost new_t = texts(out@);
    assert(new_t =~= old_t.insert(i as int, s@));
    assert(strictly_sorted(new_t)) by {
        assert forall|a: int, b: int| 0 <= a < b < new_t.len() implies lex_lt(#[trigger] new_t[a], #[trigger] new_t[b]) by {
            if b < i {
            } else if b == i {
                assert(new_t[a] == old_t[a]);
            } else if a < i {
                assert(new_t[b] == old_t[b - 1]);
                assert(lex_lt(old_t[a], s@));
                lemma_lex_transitive(old_t[a], s@, old_t[i as int]);
                if b - 1 > i {
                    lemma_lex_transitive(old_t[a], old_t[i as int], old_t[b - 1]);
                }
            } else if a == i {
                assert(new_t[b] == old_t[b - 1]);
                if b - 1 > i {
                    lemma_lex_transitive(s@, old_t[i as int], old_t[b - 1]);
                }
            } else {
                assert(new_t[a] == old_t[a - 1]);
                assert(new_t[b] == old_t[b - 1]);
            }
        }
    }
    assert forall|x: Seq<char>| new_t.contains(x) <==> (old_t.contains(x) || x == s@) by {
        if new_t.contains(x) {
            let j = choose|j: int| 0 <= j < new_t.len() && new_t[j] == x;
            if j < i {
                assert(old_t[j] == x);
            } else if j > i {
                assert(old_t[j - 1] == x);
            }
        }
        if old_t.contains(x) {
            let j = choose|j: int| 0 <= j < old_t.len() && old_t[j] == x;
            if j < i {
                assert(new_t[j] == x);
            } else {
                assert(new_t[j + 1] == x);
            }
        }
        if x == s@ {
            assert(new_t[i as int] == x);
        }
    }
}

} // verus!
