//! Character n-grams of tag names and query words, and how many two gram
//! sets share: what the tag ranking compares.
use vstd::prelude::*;

use crate::core_logic::text_in;
use crate::note::distinct_texts;
use crate::order::texts;
use crate::text::{chars_of, string_from};
use crate::tokenizer::lowercase_text;

verus! {

/// The word lowercased, with a space on each side.
pub open spec fn padded(w: Seq<char>) -> Seq<char> {
    seq![' '] + lowercase_text(w) + seq![' ']
}

/// The runs of `n` consecutive characters of `p`, from left to right.
pub open spec fn grams(p: Seq<char>, n: int) -> Seq<Seq<char>> {
    if n > 0 && p.len() >= n {
        Seq::new((p.len() - n + 1) as nat, |i: int| p.subrange(i, i + n))
    } else {
        Seq::empty()
    }
}

/// The n-grams of each padded word, one word after the other.
pub open spec fn word_grams_seq(ws: Seq<Seq<char>>, n: int) -> Seq<Seq<char>>
    decreases ws.len(),
{
    if ws.len() == 0 {
        Seq::empty()
    } else {
        word_grams_seq(ws.drop_last(), n) + grams(padded(ws.last()), n)
    }
}

/// How many of the texts `a` are among `b`.
pub open spec fn count_in(a: Seq<Seq<char>>, b: Seq<Seq<char>>) -> int
    decreases a.len(),
{
    if a.len() == 0 {
        0
    } else {
        count_in(a.drop_last(), b) + if b.contains(a.last()) { 1int } else { 0int }
    }
}

/// The distinct n-grams of the words (each lowercased and padded with a space
/// on each side), in order of first occurrence.
pub fn word_grams(words: &Vec<String>, n: usize) -> (r: Vec<String>)
    ensures
        texts(r@) == distinct_texts(word_grams_seq(texts(words@), n as int)),
{
    let ghost ws = texts(words@);
    let mut out: Vec<String> = Vec::new();
    let mut i: usize = 0;
    while i < words.len()
        invariant
            i <= words@.len(),
            ws == texts(words@),
            texts(out@) == distinct_texts(word_grams_seq(ws.take(i as int), n as int)),
        decreases words.len() - i,
    {
        let low = words[i].as_str().to_lowercase();
        let lv = chars_of(low.as_str());
        let mut p: Vec<char> = Vec::new();
        p.push(' ');
        let mut k: usize = 0;
        while k < lv.len()
            invariant
                k <= lv@.len(),
                p@ == seq![' '] + lv@.take(k as int),
            decreases lv.len() - k,
        {
            p.push(lv[k]);
            assert(lv@.take(k + 1) =~= lv@.take(k as int).push(lv@[k as int]));
            assert(p@ =~= seq![' '] + lv@.take(k + 1));
            k = k + 1;
        }
        p.push(' ');
        assert(lv@.take(k as int) =~= lv@);
        assert(p@ =~= padded(ws[i as int]));
        let ghost before = word_grams_seq(ws.take(i as int), n as int);
        let ghost g = grams(p@, n as int);
        assert(ws.take(i + 1).drop_last() =~= ws.take(i as int));
        assert(word_grams_seq(ws.take(i + 1), n as int) == before + g);
        if n > 0 && p.len() >= n {
            let mut j: usize = 0;
            let plen = p.len();
            let last = plen - n;
            while j <= last
                invariant
                    plen == p@.len(),
                    last == p@.len() - n,
                    n > 0,
                    p@.len() >= n,
                    j <= p@.len() - n + 1,
                    g == grams(p@, n as int),
                    texts(out@) == distinct_texts(before + g.take(j as int)),
                decreases last + 1 - j,
            {
                assert(j + n <= p@.len());
                let s = string_from(&p, j, j + n);
                assert(g[j as int] == s@);
                assert((before + g.take(j + 1)).drop_last() =~= before + g.take(j as int));
                assert((before + g.take(j + 1)).last() == s@);
                if !text_in(&out, &s) {
                    let ghost prev = texts(out@);
                    out.push(s);
                    assert(texts(out@) =~= prev.push(s@));
                }
                j = j + 1;
            }
            assert(g.take(j as int) =~= g);
        } else {
            assert(g =~= Seq::<Seq<char>>::empty());
            assert(before + g =~= before);
        }
        i = i + 1;
    }
    assert(ws.take(i as int) =~= ws);
    out
}

/// How many of `a` are among `b`, and the size of the union of the two when
/// each holds no text twice (`a`'s length plus `b`'s, less those shared).
pub fn gram_overlap(a: &Vec<String>, b: &Vec<String>) -> (r: (usize, usize))
    requires
        a@.len() + b@.len() <= usize::MAX,
    ensures
        r.0 == count_in(texts(a@), texts(b@)),
        r.1 == a@.len() + b@.len() - count_in(texts(a@), texts(b@)),
{
    let ghost ta = texts(a@);
    let mut common: usize = 0;
    let mut i: usize = 0;
    while i < a.len()
        invariant
            i <= a@.len(),
            ta == texts(a@),
            common == count_in(ta.take(i as int), texts(b@)),
            common <= i,
        decreases a.len() - i,
    {
        assert(ta.take(i + 1).drop_last() =~= ta.take(i as int));
        if text_in(b, &a[i]) {
            common = common + 1;
        }
        i = i + 1;
    }
    assert(ta.take(i as int) =~= ta);
    (common, a.len() + b.len() - common)
}

} // verus!
