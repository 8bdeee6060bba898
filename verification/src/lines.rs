//! Splitting text into lines the way `str::lines` does.
use vstd::prelude::*;

use crate::text::{first_index_of, find_from, lemma_first_index_of_bounds};

verus! {

/// A line without the `\r` of a `\r\n` ending.
pub open spec fn strip_cr(l: Seq<char>) -> Seq<char> {
    if l.len() > 0 && l.last() == '\r' {
        l.drop_last()
    } else {
        l
    }
}

/// The lines of `s`: split at `\n`, a `\r` before the `\n` dropped; a final line
/// ending is optional and an empty text has no lines.
pub open spec fn lines_of(s: Seq<char>) -> Seq<Seq<char>>
    decreases s.len(),
{
    if s.len() == 0 {
        Seq::empty()
    } else if first_index_of(s, '\n') < s.len() {
        proof {
            lemma_first_index_of_bounds(s, '\n');
        }
        seq![strip_cr(s.subrange(0, first_index_of(s, '\n')))] + lines_of(
            s.subrange(first_index_of(s, '\n') + 1, s.len() as int),
        )
    } else {
        seq![s]
    }
}

pub proof fn lemma_lines_count(s: Seq<char>)
    ensures
        lines_of(s).len() <= s.len(),
    decreases s.len(),
{
    if s.len() > 0 && first_index_of(s, '\n') < s.len() {
        lemma_first_index_of_bounds(s, '\n');
        lemma_lines_count(s.subrange(first_index_of(s, '\n') + 1, s.len() as int));
    }
}

/// The length of the line ending at `p`: 2 for `\r\n`, 1 for `\n`, 0 otherwise.
pub open spec fn eol_len(s: Seq<char>, p: int) -> int {
    if 0 <= p && p + 1 < s.len() && s[p] == '\r' && s[p + 1] == '\n' {
        2
    } else if 0 <= p < s.len() && s[p] == '\n' {
        1
    } else {
        0
    }
}

/// A line of a text: where its content starts and ends, and where the next line starts.
pub struct LineSpan {
    pub start: usize,
    pub end: usize,
    pub next: usize,
}

/// The spans of the lines of `v`, in order; each span's content is the line.
pub fn line_spans(v: &Vec<char>) -> (r: Vec<LineSpan>)
    ensures
        r@.len() == lines_of(v@).len(),
        forall|k: int|
            0 <= k < r@.len() ==> {
                &&& (#[trigger] r@[k]).start <= r@[k].end <= r@[k].next <= v.len()
                &&& v@.subrange(r@[k].start as int, r@[k].end as int) == lines_of(v@)[k]
                &&& lines_of(v@.subrange(r@[k].next as int, v.len() as int)) == lines_of(v@).skip(k + 1)
                &&& (k + 1 < r@.len() ==> r@[k].next == r@[k + 1].start)
                &&& r@[k].next == r@[k].end + eol_len(v@, r@[k].end as int)
            },
        r@.len() > 0 ==> r@[0].start == 0,
{
    let n = v.len();
    let mut out: Vec<LineSpan> = Vec::new();
    let mut pos: usize = 0;
    assert(v@.subrange(0, n as int) =~= v@);
    while pos < n
        invariant
            pos <= n == v.len(),
            lines_of(v@) == lines_of(v@).take(out@.len() as int) + lines_of(v@.subrange(pos as int, n as int)),
            out@.len() <= lines_of(v@).len(),
            forall|k: int|
                0 <= k < out@.len() ==> {
                    &&& (#[trigger] out@[k]).start <= out@[k].end <= out@[k].next <= v.len()
                    &&& v@.subrange(out@[k].start as int, out@[k].end as int) == lines_of(v@)[k]
                    &&& lines_of(v@.subrange(out@[k].next as int, v.len() as int)) == lines_of(v@).skip(k + 1)
                    &&& (k + 1 < out@.len() ==> out@[k].next == out@[k + 1].start)
                    &&& out@[k].next == out@[k].end + eol_len(v@, out@[k].end as int)
                },
            out@.len() > 0 ==> out@[out@.len() - 1].next == pos,
            out@.len() == 0 ==> pos == 0,
            out@.len() > 0 ==> out@[0].start == 0,
        decreases n - pos,
    {
        let ghost rest = v@.subrange(pos as int, n as int);
        let ghost k = out@.len() as int;
        let nl = find_from(v, '\n', pos);
        proof {
            lemma_first_index_of_bounds(rest, '\n');
            crate::lines::lemma_lines_count(rest);
        }
        let (end, next) = if nl < n {
            let end = if nl > pos && v[nl - 1] == '\r' {
                nl - 1
            } else {
                nl
            };
            proof {
                assert(rest.subrange(0, nl - pos) =~= v@.subrange(pos as int, nl as int));
                assert(strip_cr(rest.subrange(0, nl - pos)) =~= v@.subrange(pos as int, end as int));
                assert(rest.subrange(nl - pos + 1, rest.len() as int) =~= v@.subrange(nl + 1, n as int));
            }
            (end, nl + 1)
        } else {
            (n, n)
        };
        proof {
            assert(lines_of(rest) == seq![v@.subrange(pos as int, end as int)] + lines_of(
                v@.subrange(next as int, n as int),
            ));
            assert(lines_of(v@) == lines_of(v@).take(k + 1) + lines_of(v@.subrange(next as int, n as int))) by {
                assert(lines_of(v@).take(k + 1) =~= lines_of(v@).take(k) + seq![v@.subrange(pos as int, end as int)]);
            }
            assert(lines_of(v@).skip(k + 1) =~= lines_of(v@.subrange(next as int, n as int))) by {
                assert(lines_of(v@).len() == k + 1 + lines_of(v@.subrange(next as int, n as int)).len());
            }
        }
        out.push(LineSpan { start: pos, end, next });
        pos = next;
    }
    proof {
        assert(v@.subrange(n as int, n as int) =~= Seq::<char>::empty());
        assert(lines_of(v@) =~= lines_of(v@).take(out@.len() as int));
    }
    out
}

} // verus!
