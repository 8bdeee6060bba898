//! Inline tags as the line-based parser reads them: `#name` at the start of the
//! text or after whitespace, outside code fences and inline code spans.
use vstd::prelude::*;

use crate::lines::{line_spans, lines_of};
use crate::scan::{find_char, find_char_exec, lemma_find_char_bounds, match_at, ws_end, ws_end_exec};
use crate::text::{chars_of, is_whitespace, is_ws, string_from};

verus! {

/// Where the inline code span (``` ``…`` ``` or `` `…` ``) that starts at `i` ends, or `-1`.
pub open spec fn inline_code_end(s: Seq<char>, i: int) -> int {
    if match_at(s, i, seq!['`', '`']) && find_char(s, i + 2, '`') > i + 2 && match_at(
        s,
        find_char(s, i + 2, '`'),
        seq!['`', '`'],
    ) {
        find_char(s, i + 2, '`') + 2
    } else if 0 <= i < s.len() && s[i] == '`' && find_char(s, i + 1, '`') > i + 1 && find_char(s, i + 1, '`')
        < s.len() {
        find_char(s, i + 1, '`') + 1
    } else {
        -1
    }
}

/// `s[i..]` with its inline code spans removed, scanning left to right.
pub open spec fn strip_inline_code(s: Seq<char>, i: int) -> Seq<char>
    decreases s.len() - i,
{
    if i < 0 || i >= s.len() {
        Seq::empty()
    } else if i < inline_code_end(s, i) <= s.len() {
        strip_inline_code(s, inline_code_end(s, i))
    } else {
        seq![s[i]] + strip_inline_code(s, i + 1)
    }
}

/// A line that opens or closes a code fence: it starts with ```` ``` ```` after
/// leading whitespace.
pub open spec fn is_fence(l: Seq<char>) -> bool {
    match_at(l, ws_end(l, 0), seq!['`', '`', '`'])
}

/// The lines from `k` on, each followed by `\n`: fence lines and the lines
/// inside fences left empty, inline code removed from the others.
pub open spec fn strip_lines(ls: Seq<Seq<char>>, k: int, in_fence: bool) -> Seq<char>
    decreases ls.len() - k,
{
    if k < 0 || k >= ls.len() {
        Seq::empty()
    } else if is_fence(ls[k]) {
        seq!['\n'] + strip_lines(ls, k + 1, !in_fence)
    } else if in_fence {
        seq!['\n'] + strip_lines(ls, k + 1, in_fence)
    } else {
        strip_inline_code(ls[k], 0) + seq!['\n'] + strip_lines(ls, k + 1, in_fence)
    }
}

/// The text with code fences and inline code removed.
pub open spec fn strip_code_spec(s: Seq<char>) -> Seq<char> {
    strip_lines(lines_of(s), 0, false)
}

/// The characters of an inline tag name: `[a-zA-Z0-9/_-]`.
pub open spec fn name_char(c: char) -> bool {
    ('a' <= c && c <= 'z') || ('A' <= c && c <= 'Z') || ('0' <= c && c <= '9') || c == '/' || c == '_' || c
        == '-'
}

pub open spec fn name_end(s: Seq<char>, i: int) -> int
    decreases s.len() - i,
{
    if 0 <= i < s.len() && name_char(s[i]) {
        name_end(s, i + 1)
    } else {
        i
    }
}

/// Where the tag name of a `#` at `h` ends, when one follows it.
pub open spec fn name_after(s: Seq<char>, h: int) -> Option<int> {
    if 0 <= h && h + 1 < s.len() && s[h] == '#' && name_char(s[h + 1]) {
        Some(name_end(s, h + 1))
    } else {
        None
    }
}

/// The tag names of `s[i..]`: `#` and a name at the start of the text or after
/// a whitespace character, left to right.
pub open spec fn tag_names_from(s: Seq<char>, i: int) -> Seq<Seq<char>>
    decreases s.len() - i,
{
    if i < 0 || i >= s.len() {
        Seq::empty()
    } else if i == 0 && name_after(s, 0) is Some && 1 < name_after(s, 0)->Some_0 <= s.len() {
        seq![s.subrange(1, name_after(s, 0)->Some_0)] + tag_names_from(s, name_after(s, 0)->Some_0)
    } else if is_ws(s[i]) && name_after(s, i + 1) is Some && i + 2 < name_after(s, i + 1)->Some_0 <= s.len() {
        seq![s.subrange(i + 2, name_after(s, i + 1)->Some_0)] + tag_names_from(s, name_after(s, i + 1)->Some_0)
    } else {
        tag_names_from(s, i + 1)
    }
}

pub open spec fn all_digits(t: Seq<char>) -> bool {
    forall|j: int| 0 <= j < t.len() ==> '0' <= #[trigger] t[j] && t[j] <= '9'
}

/// The names of `c` that are not all digits, each kept once, in order of first occurrence.
pub open spec fn named_distinct(c: Seq<Seq<char>>) -> Seq<Seq<char>>
    decreases c.len(),
{
    if c.len() == 0 {
        c
    } else if !all_digits(c.last()) && !named_distinct(c.drop_last()).contains(c.last()) {
        named_distinct(c.drop_last()).push(c.last())
    } else {
        named_distinct(c.drop_last())
    }
}

/// The inline tags of a text (names without `#`): code removed, numbers skipped.
pub open spec fn inline_tags(s: Seq<char>) -> Seq<Seq<char>> {
    named_distinct(tag_names_from(strip_code_spec(s), 0))
}

proof fn lemma_inline_code_end_bounds(s: Seq<char>, i: int)
    requires
        0 <= i < s.len(),
    ensures
        inline_code_end(s, i) == -1 || i < inline_code_end(s, i) <= s.len(),
{
    if i + 2 <= s.len() {
        lemma_find_char_bounds(s, i + 2, '`');
    }
    lemma_find_char_bounds(s, i + 1, '`');
}

/// The code span that starts at `i`, if any (see `inline_code_end`).
fn inline_code_end_exec(v: &Vec<char>, i: usize) -> (r: Option<usize>)
    requires
        i < v.len(),
    ensures
        match r {
            Some(e) => inline_code_end(v@, i as int) == e && i < e <= v.len(),
            None => !(i < inline_code_end(v@, i as int) <= v.len()),
        },
{
    proof {
        lemma_inline_code_end_bounds(v@, i as int);
    }
    let n = v.len();
    if n - i >= 2 && v[i] == '`' && v[i + 1] == '`' {
        assert(match_at(v@, i as int, seq!['`', '`'])) by {
            assert(v@.subrange(i as int, i + 2) =~= seq!['`', '`']);
        }
        let f = find_char_exec(v, i + 2, '`');
        proof {
            lemma_find_char_bounds(v@, i + 2, '`');
        }
        if f > i + 2 && n - f >= 2 && v[f + 1] == '`' {
            assert(match_at(v@, f as int, seq!['`', '`'])) by {
                assert(v@.subrange(f as int, f + 2) =~= seq!['`', '`']);
            }
            return Some(f + 2);
        }
        assert(!(f > i + 2 && match_at(v@, f as int, seq!['`', '`']))) by {
            if f > i + 2 && match_at(v@, f as int, seq!['`', '`']) {
                assert(v@.subrange(f as int, f + 2)[1] == '`');
            }
        }
    } else {
        assert(!match_at(v@, i as int, seq!['`', '`'])) by {
            if match_at(v@, i as int, seq!['`', '`']) {
                assert(v@.subrange(i as int, i + 2)[0] == '`');
                assert(v@.subrange(i as int, i + 2)[1] == '`');
            }
        }
    }
    if v[i] == '`' {
        let f = find_char_exec(v, i + 1, '`');
        if f > i + 1 && f < n {
            return Some(f + 1);
        }
    }
    None
}

/// `v[lo..hi]` with its inline code spans removed, appended to `out`.
fn push_stripped_line(v: &Vec<char>, lo: usize, hi: usize, out: &mut Vec<char>)
    requires
        lo <= hi <= v.len(),
    ensures
        final(out)@ == old(out)@ + strip_inline_code(v@.subrange(lo as int, hi as int), 0),
{
    let l = crate::text::sub_vec(v, lo, hi);
    let ghost start = out@;
    let mut i: usize = 0;
    while i < l.len()
        invariant
            i <= l.len(),
            start == old(out)@,
            start + strip_inline_code(l@, 0) == out@ + strip_inline_code(l@, i as int),
        decreases l.len() - i,
    {
        match inline_code_end_exec(&l, i) {
            Some(e) => {
                i = e;
            },
            None => {
                let ghost before = out@;
                out.push(l[i]);
                assert(before + (seq![l@[i as int]] + strip_inline_code(l@, i + 1)) =~= out@ + strip_inline_code(
                    l@,
                    i + 1,
                ));
                i = i + 1;
            },
        }
    }
    assert(out@ + Seq::<char>::empty() =~= out@);
}

/// The text with code fences and inline code removed (see `strip_code_spec`).
pub fn strip_code(content: &str) -> (r: Vec<char>)
    ensures
        r@ == strip_code_spec(content@),
{
    let v = chars_of(content);
    let spans = line_spans(&v);
    let ghost ls = lines_of(v@);
    let mut out: Vec<char> = Vec::new();
    let mut in_fence = false;
    let mut k: usize = 0;
    let fence = vec!['`', '`', '`'];
    assert(fence@ == seq!['`', '`', '`']);
    while k < spans.len()
        invariant
            k <= spans@.len() == ls.len(),
            ls == lines_of(v@),
            fence@ == seq!['`', '`', '`'],
            forall|q: int|
                0 <= q < spans@.len() ==> (#[trigger] spans@[q]).start <= spans@[q].end <= v.len()
                    && v@.subrange(spans@[q].start as int, spans@[q].end as int) == ls[q],
            strip_lines(ls, 0, false) == out@ + strip_lines(ls, k as int, in_fence),
        decreases spans.len() - k,
    {
        let lo = spans[k].start;
        let hi = spans[k].end;
        let l = crate::text::sub_vec(&v, lo, hi);
        assert(l@ == ls[k as int]);
        let w = ws_end_exec(&l, 0);
        let ghost before = out@;
        if crate::scan::match_at_exec(&l, w, &fence) {
            out.push('\n');
            assert(before + (seq!['\n'] + strip_lines(ls, k + 1, !in_fence)) =~= out@ + strip_lines(ls, k + 1, !in_fence));
            in_fence = !in_fence;
        } else if in_fence {
            out.push('\n');
            assert(before + (seq!['\n'] + strip_lines(ls, k + 1, in_fence)) =~= out@ + strip_lines(ls, k + 1, in_fence));
        } else {
            push_stripped_line(&v, lo, hi, &mut out);
            let ghost mid = out@;
            out.push('\n');
            assert(before + (strip_inline_code(ls[k as int], 0) + seq!['\n'] + strip_lines(ls, k + 1, in_fence)) =~= out@
                + strip_lines(ls, k + 1, in_fence));
        }
        k = k + 1;
    }
    assert(out@ + Seq::<char>::empty() =~= out@);
    out
}

fn is_name_char(c: char) -> (b: bool)
    ensures
        b == name_char(c),
{
    (c >= 'a' && c <= 'z') || (c >= 'A' && c <= 'Z') || (c >= '0' && c <= '9') || c == '/' || c == '_' || c == '-'
}

proof fn lemma_name_end_bounds(s: Seq<char>, i: int)
    requires
        0 <= i <= s.len(),
    ensures
        i <= name_end(s, i) <= s.len(),
    decreases s.len() - i,
{
    if i < s.len() && name_char(s[i]) {
        lemma_name_end_bounds(s, i + 1);
    }
}

fn name_end_exec(v: &Vec<char>, i: usize) -> (e: usize)
    requires
        i <= v.len(),
    ensures
        e == name_end(v@, i as int),
        i <= e <= v.len(),
{
    let mut e = i;
    while e < v.len() && is_name_char(v[e])
        invariant
            i <= e <= v.len(),
            name_end(v@, i as int) == name_end(v@, e as int),
        decreases v.len() - e,
    {
        e = e + 1;
    }
    e
}

/// Whether `out` holds the name `v[lo..hi]`.
fn holds_name(out: &Vec<String>, v: &Vec<char>, lo: usize, hi: usize) -> (b: bool)
    requires
        lo <= hi <= v.len(),
    ensures
        b == out@.map_values(|t: String| t@).contains(v@.subrange(lo as int, hi as int)),
{
    let name = string_from(v, lo, hi);
    let mut k: usize = 0;
    while k < out.len()
        invariant
            k <= out.len(),
            name@ == v@.subrange(lo as int, hi as int),
            forall|j: int| 0 <= j < k ==> out@[j]@ != name@,
        decreases out.len() - k,
    {
        if out[k] == name {
            assert(out@.map_values(|t: String| t@)[k as int] == name@);
            return true;
        }
        k = k + 1;
    }
    let ghost names = out@.map_values(|t: String| t@);
    assert(!names.contains(name@)) by {
        if names.contains(name@) {
            let j = choose|j: int| 0 <= j < names.len() && #[trigger] names[j] == name@;
            assert(out@[j]@ == name@);
        }
    }
    false
}

fn digits_only(v: &Vec<char>, lo: usize, hi: usize) -> (b: bool)
    requires
        lo <= hi <= v.len(),
    ensures
        b == all_digits(v@.subrange(lo as int, hi as int)),
{
    let mut k = lo;
    while k < hi
        invariant
            lo <= k <= hi <= v.len(),
            forall|j: int| lo <= j < k ==> '0' <= #[trigger] v@[j] && v@[j] <= '9',
        decreases hi - k,
    {
        if !(v[k] >= '0' && v[k] <= '9') {
            assert(!('0' <= v@.subrange(lo as int, hi as int)[k - lo] && v@.subrange(lo as int, hi as int)[k - lo] <= '9'));
            return false;
        }
        k = k + 1;
    }
    assert forall|j: int| 0 <= j < hi - lo implies '0' <= #[trigger] v@.subrange(lo as int, hi as int)[j]
        && v@.subrange(lo as int, hi as int)[j] <= '9' by {
        assert(v@.subrange(lo as int, hi as int)[j] == v@[lo + j]);
    }
    true
}

/// Adds the name `v[lo..hi]` unless it is all digits or already present.
fn add_name(out: &mut Vec<String>, v: &Vec<char>, lo: usize, hi: usize, Ghost(cands): Ghost<Seq<Seq<char>>>)
    requires
        lo <= hi <= v.len(),
        old(out)@.map_values(|t: String| t@) == named_distinct(cands),
    ensures
        final(out)@.map_values(|t: String| t@) == named_distinct(cands.push(v@.subrange(lo as int, hi as int))),
{
    let ghost c = v@.subrange(lo as int, hi as int);
    assert(cands.push(c).drop_last() =~= cands);
    if !digits_only(v, lo, hi) && !holds_name(out, v, lo, hi) {
        let ghost before = out@.map_values(|t: String| t@);
        out.push(string_from(v, lo, hi));
        assert(out@.map_values(|t: String| t@) =~= before.push(c));
    }
}

/// The inline tags of `content` (names without `#`), each once, in order of
/// first occurrence; code is ignored and names made only of digits are skipped.
pub fn extract_inline_tags(content: &str) -> (r: Vec<String>)
    ensures
        r@.map_values(|t: String| t@) == inline_tags(content@),
{
    let v = strip_code(content);
    let ghost s = v@;
    let n = v.len();
    let mut out: Vec<String> = Vec::new();
    let ghost mut cands: Seq<Seq<char>> = Seq::empty();
    assert(out@.map_values(|t: String| t@) =~= named_distinct(cands));
    let mut i: usize = 0;
    while i < n
        invariant
            i <= n == v.len(),
            s == v@,
            tag_names_from(s, 0) == cands + tag_names_from(s, i as int),
            out@.map_values(|t: String| t@) == named_distinct(cands),
        decreases n - i,
    {
        if i == 0 && n >= 2 && v[0] == '#' && is_name_char(v[1]) {
            let e = name_end_exec(&v, 1);
            proof {
                lemma_name_end_bounds(s, 2);
                assert(name_end(s, 1) == name_end(s, 2));
                assert(cands + (seq![s.subrange(1, e as int)] + tag_names_from(s, e as int)) =~= cands.push(
                    s.subrange(1, e as int),
                ) + tag_names_from(s, e as int));
            }
            add_name(&mut out, &v, 1, e, Ghost(cands));
            proof {
                cands = cands.push(s.subrange(1, e as int));
            }
            i = e;
        } else if is_whitespace(v[i]) && n - i >= 3 && v[i + 1] == '#' && is_name_char(v[i + 2]) {
            let e = name_end_exec(&v, i + 2);
            proof {
                lemma_name_end_bounds(s, i + 3);
                assert(name_end(s, i + 2) == name_end(s, i + 3));
                assert(cands + (seq![s.subrange(i + 2, e as int)] + tag_names_from(s, e as int)) =~= cands.push(
                    s.subrange(i + 2, e as int),
                ) + tag_names_from(s, e as int));
            }
            add_name(&mut out, &v, i + 2, e, Ghost(cands));
            proof {
                cands = cands.push(s.subrange(i + 2, e as int));
            }
            i = e;
        } else {
            i = i + 1;
        }
    }
    assert(cands + Seq::<Seq<char>>::empty() =~= cands);
    out
}


/// `[a-zA-Z0-9/_-]`, written out.
pub open spec fn tag_name_text(n: Seq<char>) -> bool {
    &&& n.len() > 0
    &&& forall|i: int|
        0 <= i < n.len() ==> {
            let c = #[trigger] n[i];
            ('a' <= c && c <= 'z') || ('A' <= c && c <= 'Z') || ('0' <= c && c <= '9') || c == '/' || c == '_'
                || c == '-'
        }
    &&& exists|i: int| 0 <= i < n.len() && !('0' <= #[trigger] n[i] && n[i] <= '9')
}

/// With no backtick from `i` on, removing inline code leaves the rest as it is.
proof fn lemma_strip_inline_plain(s: Seq<char>, i: int)
    requires
        0 <= i <= s.len(),
        forall|j: int| i <= j < s.len() ==> s[j] != '`',
    ensures
        strip_inline_code(s, i) == s.subrange(i, s.len() as int),
    decreases s.len() - i,
{
    if i < s.len() {
        if match_at(s, i, seq!['`', '`']) {
            assert(s.subrange(i, i + 2)[0] == s[i]);
        }
        assert(inline_code_end(s, i) == -1);
        lemma_strip_inline_plain(s, i + 1);
        assert(seq![s[i]] + s.subrange(i + 1, s.len() as int) =~= s.subrange(i, s.len() as int));
    } else {
        assert(s.subrange(i, s.len() as int) =~= Seq::<char>::empty());
    }
}

/// The name that starts at `i` runs up to the first character that is not a
/// name character.
proof fn lemma_name_end_run(s: Seq<char>, i: int, e: int)
    requires
        0 <= i <= e < s.len(),
        forall|j: int| i <= j < e ==> name_char(#[trigger] s[j]),
        !name_char(s[e]),
    ensures
        name_end(s, i) == e,
    decreases e - i,
{
    if i < e {
        lemma_name_end_run(s, i + 1, e);
    }
}

/// A text that is `#` followed by a tag name (characters `[a-zA-Z0-9/_-]`, not
/// all digits) has that whole name as its one inline tag.
pub proof fn law_tag_name_whole(n: Seq<char>)
    requires
        tag_name_text(n),
    ensures
        inline_tags(seq!['#'] + n) == seq![n],
{
    let s0 = seq!['#'] + n;
    let l: int = s0.len() as int;
    assert forall|j: int| 0 <= j < l implies s0[j] != '\n' && s0[j] != '`' by {
        if j > 0 {
            assert(s0[j] == n[j - 1]);
        }
    }
    crate::text::lemma_first_index_of_is(s0, '\n', l as int);
    assert(lines_of(s0) == seq![s0]);
    assert(ws_end(s0, 0) == 0) by {
        assert(!is_ws(s0[0]));
    }
    if match_at(s0, 0, seq!['`', '`', '`']) {
        assert(s0.subrange(0, 3)[0] == s0[0]);
    }
    assert(!is_fence(s0));
    lemma_strip_inline_plain(s0, 0);
    assert(s0.subrange(0, l as int) =~= s0);
    let t = s0 + seq!['\n'];
    assert(strip_lines(seq![s0], 1, false) == Seq::<char>::empty());
    assert(strip_code_spec(s0) == t);
    assert forall|j: int| 1 <= j < l implies name_char(#[trigger] t[j]) by {
        assert(t[j] == n[j - 1]);
    }
    assert(!name_char(t[l as int]));
    lemma_name_end_run(t, 1, l as int);
    assert(name_after(t, 0) == Some(l as int));
    assert(t.subrange(1, l as int) =~= n);
    assert(is_ws(t[l as int]));
    assert(name_after(t, l + 1) is None);
    assert(tag_names_from(t, l + 1) == Seq::<Seq<char>>::empty());
    assert(tag_names_from(t, l as int) == Seq::<Seq<char>>::empty());
    assert(tag_names_from(t, 0) == seq![n] + Seq::<Seq<char>>::empty());
    assert(seq![n] + Seq::<Seq<char>>::empty() =~= seq![n]);
    let w = choose|i: int| 0 <= i < n.len() && !('0' <= #[trigger] n[i] && n[i] <= '9');
    assert(!('0' <= n[w] && n[w] <= '9'));
    assert(!all_digits(n));
    assert(seq![n].drop_last() =~= Seq::<Seq<char>>::empty());
    assert(seq![n].last() == n);
    assert(named_distinct(Seq::<Seq<char>>::empty()) == Seq::<Seq<char>>::empty());
    assert(!Seq::<Seq<char>>::empty().contains(n));
    assert(named_distinct(seq![n]) =~= Seq::<Seq<char>>::empty().push(n));
}

} // verus!
