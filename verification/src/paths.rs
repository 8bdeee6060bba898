//! Separator normalisation and segment checks shared by note and vault paths.
use vstd::prelude::*;

verus! {

/// A path separator as accepted on input: `/` or `\`.
pub open spec fn is_sep(c: char) -> bool {
    c == '/' || c == '\\'
}

/// `s` without its leading separators.
pub open spec fn trim_start_seps(s: Seq<char>) -> Seq<char>
    decreases s.len(),
{
    if s.len() > 0 && is_sep(s[0]) {
        trim_start_seps(s.drop_first())
    } else {
        s
    }
}

/// `s` with every `\` turned into `/`.
pub open spec fn forward_slashes(s: Seq<char>) -> Seq<char> {
    s.map_values(|c: char| if c == '\\' { '/' } else { c })
}

/// Leading separators dropped, backslashes turned into forward slashes.
pub open spec fn normalize_separators(s: Seq<char>) -> Seq<char> {
    forward_slashes(trim_start_seps(s))
}

/// The segment of `s` that starts at `i` is exactly `..`.
pub open spec fn parent_segment_at(s: Seq<char>, i: int) -> bool {
    0 <= i && i + 1 < s.len() && s[i] == '.' && s[i + 1] == '.' && (i == 0 || s[i - 1] == '/') && (
    i + 2 == s.len() || s[i + 2] == '/')
}

/// One of the `/`-separated segments of `s` is exactly `..`.
pub open spec fn has_parent_segment(s: Seq<char>) -> bool {
    exists|i: int| #[trigger] parent_segment_at(s, i)
}

/// The text `.md`.
pub open spec fn md_suffix() -> Seq<char> {
    seq!['.', 'm', 'd']
}

/// `s` holds no backslash and does not begin with `/`: it is its own normal form.
pub open spec fn is_normalized(s: Seq<char>) -> bool {
    &&& forall|i: int| 0 <= i < s.len() ==> s[i] != '\\'
    &&& s.len() > 0 ==> s[0] != '/'
}

pub proof fn lemma_normalized_fixpoint(s: Seq<char>)
    requires
        is_normalized(s),
    ensures
        normalize_separators(s) == s,
{
    assert(trim_start_seps(s) == s);
    assert(forward_slashes(s) =~= s);
}

pub proof fn lemma_normalize_is_normalized(s: Seq<char>)
    ensures
        is_normalized(normalize_separators(s)),
    decreases s.len(),
{
    if s.len() > 0 && is_sep(s[0]) {
        lemma_normalize_is_normalized(s.drop_first());
    }
}

/// `path` with leading separators dropped and backslashes turned into slashes.
pub fn normalize_separators_exec(path: &Vec<char>) -> (r: Vec<char>)
    ensures
        r@ == normalize_separators(path@),
{
    let n = path.len();
    let mut lo: usize = 0;
    assert(path@.subrange(0, n as int) =~= path@);
    while lo < n && (path[lo] == '/' || path[lo] == '\\')
        invariant
            lo <= n == path.len(),
            trim_start_seps(path@) == trim_start_seps(path@.subrange(lo as int, n as int)),
        decreases n - lo,
    {
        assert(path@.subrange(lo as int, n as int).drop_first() =~= path@.subrange(lo + 1, n as int));
        lo = lo + 1;
    }
    let ghost t = path@.subrange(lo as int, n as int);
    assert(trim_start_seps(path@) == t);
    let mut r: Vec<char> = Vec::new();
    let mut i = lo;
    while i < n
        invariant
            lo <= i <= n == path.len(),
            t == path@.subrange(lo as int, n as int),
            r@ == forward_slashes(t).subrange(0, i - lo),
        decreases n - i,
    {
        let c = path[i];
        if c == '\\' {
            r.push('/');
        } else {
            r.push(c);
        }
        assert(r@ =~= forward_slashes(t).subrange(0, i + 1 - lo));
        i = i + 1;
    }
    assert(r@ =~= forward_slashes(t));
    r
}

/// Whether one `/`-separated segment of `v` is `..`.
pub fn has_parent_segment_exec(v: &Vec<char>) -> (b: bool)
    ensures
        b == has_parent_segment(v@),
{
    let n = v.len();
    let mut i: usize = 0;
    while i < n && i + 1 < n
        invariant
            n == v.len(),
            i <= n,
            forall|k: int| 0 <= k < i ==> !#[trigger] parent_segment_at(v@, k),
        decreases n - i,
    {
        if v[i] == '.' && v[i + 1] == '.' && (i == 0 || v[i - 1] == '/') && (i + 2 == n || v[i
            + 2] == '/') {
            assert(parent_segment_at(v@, i as int));
            return true;
        }
        i = i + 1;
    }
    assert forall|k: int| !#[trigger] parent_segment_at(v@, k) by {
        if 0 <= k < i {
        }
    }
    false
}

/// Whether `v` ends with `.md`.
pub fn ends_with_md(v: &Vec<char>) -> (b: bool)
    ensures
        b == crate::text::ends_with(v@, md_suffix()),
{
    let n = v.len();
    if n < 3 {
        return false;
    }
    let r = v[n - 3] == '.' && v[n - 2] == 'm' && v[n - 1] == 'd';
    assert(r == (v@.subrange(n - 3, n as int) =~= md_suffix()));
    r
}

} // verus!
