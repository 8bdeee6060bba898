//! Splitting text into whitespace-separated words (`str::split_whitespace`).
use vstd::prelude::*;

use crate::text::{is_whitespace, is_ws};

verus! {

/// The end of the run of non-whitespace characters that starts at `i`.
pub open spec fn word_end(s: Seq<char>, i: int) -> int
    decreases s.len() - i,
{
    if 0 <= i < s.len() && !is_ws(s[i]) {
        word_end(s, i + 1)
    } else {
        i
    }
}

/// The words of `s[i..]`: its maximal runs of non-whitespace characters, in order.
pub open spec fn words_from(s: Seq<char>, i: int) -> Seq<Seq<char>>
    decreases s.len() - i,
{
    if i < 0 || i >= s.len() {
        Seq::empty()
    } else if is_ws(s[i]) {
        words_from(s, i + 1)
    } else if i < word_end(s, i) <= s.len() {
        seq![s.subrange(i, word_end(s, i))] + words_from(s, word_end(s, i))
    } else {
        Seq::empty()
    }
}

/// The words of `s`.
pub open spec fn words_of(s: Seq<char>) -> Seq<Seq<char>> {
    words_from(s, 0)
}

pub proof fn lemma_word_end_bounds(s: Seq<char>, i: int)
    requires
        0 <= i <= s.len(),
    ensures
        i <= word_end(s, i) <= s.len(),
        i < s.len() && !is_ws(s[i]) ==> i < word_end(s, i),
    decreases s.len() - i,
{
    if i < s.len() && !is_ws(s[i]) {
        lemma_word_end_bounds(s, i + 1);
    }
}

/// The end of the run of non-whitespace characters of `v` that starts at `i`.
pub fn word_end_exec(v: &Vec<char>, i: usize) -> (e: usize)
    requires
        i <= v.len(),
    ensures
        e == word_end(v@, i as int),
        i <= e <= v.len(),
{
    let n = v.len();
    let mut e = i;
    while e < n && !is_whitespace(v[e])
        invariant
            i <= e <= n == v.len(),
            word_end(v@, i as int) == word_end(v@, e as int),
        decreases n - e,
    {
        e = e + 1;
    }
    e
}

/// Where the words of `v` start and end, in order.
pub fn word_spans(v: &Vec<char>) -> (r: Vec<(usize, usize)>)
    ensures
        r@.len() == words_of(v@).len(),
        forall|k: int|
            0 <= k < r@.len() ==> (#[trigger] r@[k]).0 <= r@[k].1 <= v.len() && v@.subrange(
                r@[k].0 as int,
                r@[k].1 as int,
            ) == words_of(v@)[k],
{
    let n = v.len();
    let mut out: Vec<(usize, usize)> = Vec::new();
    let ghost mut done: Seq<Seq<char>> = Seq::empty();
    let mut i: usize = 0;
    while i < n
        invariant
            i <= n == v.len(),
            words_of(v@) == done + words_from(v@, i as int),
            out@.len() == done.len(),
            forall|k: int|
                0 <= k < out@.len() ==> (#[trigger] out@[k]).0 <= out@[k].1 <= v.len() && v@.subrange(
                    out@[k].0 as int,
                    out@[k].1 as int,
                ) == done[k],
        decreases n - i,
    {
        if is_whitespace(v[i]) {
            i = i + 1;
        } else {
            let e = word_end_exec(v, i);
            proof {
                lemma_word_end_bounds(v@, i as int);
                assert(done.push(v@.subrange(i as int, e as int)) + words_from(v@, e as int) =~= done
                    + words_from(v@, i as int));
                done = done.push(v@.subrange(i as int, e as int));
            }
            out.push((i, e));
            i = e;
        }
    }
    assert(done + Seq::empty() =~= done);
    out
}

/// The number of words of `v`.
pub fn word_count(v: &Vec<char>) -> (c: usize)
    ensures
        c == words_of(v@).len(),
{
    word_spans(v).len()
}

} // verus!
