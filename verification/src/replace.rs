//! Find-and-replace in note text: literal replacement of every occurrence,
//! replacement through a regular expression, and the pattern that rewrites
//! wikilinks when a note is renamed.
use vstd::prelude::*;

use crate::scan::{find_seq, match_at, match_at_exec};
use crate::text::{chars_of, string_from};

verus! {

// ---------------------------------------------------------------------------
// Literal replacement
// ---------------------------------------------------------------------------

/// `s[i..]` with every occurrence of the non-empty `from` replaced by `to`,
/// scanning left to right without overlaps.
pub open spec fn replaced_from(s: Seq<char>, i: int, from: Seq<char>, to: Seq<char>) -> Seq<char>
    decreases s.len() - i,
{
    if i < 0 || i >= s.len() {
        Seq::empty()
    } else if from.len() > 0 && match_at(s, i, from) {
        to + replaced_from(s, i + from.len(), from, to)
    } else {
        seq![s[i]] + replaced_from(s, i + 1, from, to)
    }
}

/// `s[i..]` with `to` before each character and once more at the end.
pub open spec fn interleaved_from(s: Seq<char>, i: int, to: Seq<char>) -> Seq<char>
    decreases s.len() - i,
{
    if i < 0 || i >= s.len() {
        to
    } else {
        to + seq![s[i]] + interleaved_from(s, i + 1, to)
    }
}

/// `s` with every occurrence of `from` replaced by `to`; an empty `from`
/// matches before every character and at the end.
pub open spec fn replaced(s: Seq<char>, from: Seq<char>, to: Seq<char>) -> Seq<char> {
    if from.len() == 0 {
        interleaved_from(s, 0, to)
    } else {
        replaced_from(s, 0, from, to)
    }
}

fn push_all(out: &mut Vec<char>, t: &Vec<char>)
    ensures
        final(out)@ == old(out)@ + t@,
{
    let mut k: usize = 0;
    while k < t.len()
        invariant
            k <= t.len(),
            out@ == old(out)@ + t@.take(k as int),
        decreases t.len() - k,
    {
        out.push(t[k]);
        k = k + 1;
        assert(out@ =~= old(out)@ + t@.take(k as int));
    }
    assert(t@.take(k as int) =~= t@);
}

/// `text` with every occurrence of `from` replaced by `to`.
pub fn replace_text(text: &str, from: &str, to: &str) -> (r: String)
    ensures
        r@ == replaced(text@, from@, to@),
{
    let v = chars_of(text);
    let f = chars_of(from);
    let t = chars_of(to);
    let n = v.len();
    let mut out: Vec<char> = Vec::new();
    let mut i: usize = 0;
    if f.len() == 0 {
        while i < n
            invariant
                i <= n == v@.len(),
                out@ + interleaved_from(v@, i as int, t@) == interleaved_from(v@, 0, t@),
            decreases n - i,
        {
            let ghost before = out@;
            push_all(&mut out, &t);
            out.push(v[i]);
            assert(out@ =~= before + (t@ + seq![v@[i as int]]));
            i = i + 1;
        }
        push_all(&mut out, &t);
    } else {
        while i < n
            invariant
                i <= n == v@.len(),
                f@.len() > 0,
                out@ + replaced_from(v@, i as int, f@, t@) == replaced_from(v@, 0, f@, t@),
            decreases n - i,
        {
            let ghost before = out@;
            if match_at_exec(&v, i, &f) {
                push_all(&mut out, &t);
                i = i + f.len();
            } else {
                out.push(v[i]);
                assert(out@ =~= before + seq![v@[i as int]]);
                i = i + 1;
            }
        }
    }
    assert(out@ =~= replaced(v@, f@, t@));
    string_from(&out, 0, out.len())
}

// ---------------------------------------------------------------------------
// Regular expressions
// ---------------------------------------------------------------------------

#[verifier::external_type_specification]
#[verifier::external_body]
pub struct ExRegexError(regex::Error);

/// Whether `regex::Regex::new` accepts a pattern.
pub uninterp spec fn regex_compiles(pattern: Seq<char>) -> bool;

/// `text` with every match of the compiled `pattern` replaced by `rep`, as
/// `Regex::replace_all` gives it (`$1`, `${name}` in `rep` stand for groups).
pub uninterp spec fn regex_replaced(pattern: Seq<char>, text: Seq<char>, rep: Seq<char>) -> Seq<char>;

/// `regex::Regex::new(pattern)` and, when it compiles, `replace_all(text, rep)`
/// on the compiled regex. The two calls stand together because the compiled
/// regex is only ever used for this one replacement. Whether the pattern
/// compiles, and what the replacement gives, are named.
#[verifier::external_body]
pub(crate) fn regex_replace_all(pattern: &str, text: &str, rep: &str) -> (r: Result<String, regex::Error>)
    ensures
        r is Ok <==> regex_compiles(pattern@),
        r matches Ok(out) ==> out@ == regex_replaced(pattern@, text@, rep@),
{
    let re = regex::Regex::new(pattern)?;
    Ok(re.replace_all(text, rep).into_owned())
}

/// The regex crate's message for a pattern error (its `Display`), a function
/// of the error value alone.
pub uninterp spec fn regex_error_text_of(e: &regex::Error) -> Seq<char>;

/// The regex crate's own message for a pattern error (its `Display`). Stated:
/// the text is `regex_error_text_of` of the error.
#[verifier::external_body]
pub(crate) fn regex_error_message(e: &regex::Error) -> (r: String)
    ensures
        r@ == regex_error_text_of(e),
{
    e.to_string()
}

/// The characters with a meaning in a regular expression.
pub open spec fn is_meta(c: char) -> bool {
    c == '\\' || c == '.' || c == '+' || c == '*' || c == '?' || c == '(' || c == ')' || c == '|' || c == '['
        || c == ']' || c == '{' || c == '}' || c == '^' || c == '$' || c == '#' || c == '&' || c == '-'
        || c == '~'
}

/// `s` with a backslash before each meta character.
pub open spec fn escaped(s: Seq<char>) -> Seq<char>
    decreases s.len(),
{
    if s.len() == 0 {
        Seq::empty()
    } else if is_meta(s.last()) {
        escaped(s.drop_last()) + seq!['\\', s.last()]
    } else {
        escaped(s.drop_last()) + seq![s.last()]
    }
}

/// The text with a backslash before each meta character, so that as a
/// pattern it matches itself literally (what `regex::escape` gives).
fn regex_escape(text: &str) -> (r: String)
    ensures
        r@ == escaped(text@),
{
    let v = crate::text::chars_of(text);
    let mut out = String::new();
    let mut i: usize = 0;
    while i < v.len()
        invariant
            i <= v@.len(),
            v@ == text@,
            out@ == escaped(v@.take(i as int)),
        decreases v.len() - i,
    {
        let c = v[i];
        let meta = c == '\\' || c == '.' || c == '+' || c == '*' || c == '?' || c == '(' || c == ')' || c == '|'
            || c == '[' || c == ']' || c == '{' || c == '}' || c == '^' || c == '$' || c == '#' || c == '&'
            || c == '-' || c == '~';
        if meta {
            out.push('\\');
        }
        out.push(c);
        proof {
            assert(v@.take(i + 1).drop_last() =~= v@.take(i as int));
            assert(v@.take(i + 1).last() == c);
        }
        i = i + 1;
    }
    assert(v@.take(i as int) =~= v@);
    out
}

// ---------------------------------------------------------------------------
// Renaming links
// ---------------------------------------------------------------------------

/// The pattern that finds wikilinks to the note `stem`, with or without a
/// folder, followed by `]]`, `#` or `|` (captured).
pub open spec fn link_pattern(stem: Seq<char>) -> Seq<char> {
    "\\[\\[(?:[^\\]#|]*/)?"@ + escaped(stem) + "(\\]\\]|[#|])"@
}

/// The replacement that points those links at `stem`, keeping what followed.
pub open spec fn link_replacement(stem: Seq<char>) -> Seq<char> {
    "[["@ + stem + "$1"@
}

/// The pattern and replacement that rewrite wikilinks to the note with stem
/// `old_stem` into links to `new_stem`.
pub fn link_rewrite(old_stem: &str, new_stem: &str) -> (r: (String, String))
    ensures
        r.0@ == link_pattern(old_stem@),
        r.1@ == link_replacement(new_stem@),
{
    let mut pattern = crate::text::owned("\\[\\[(?:[^\\]#|]*/)?");
    let esc = regex_escape(old_stem);
    pattern.append(esc.as_str());
    pattern.append("(\\]\\]|[#|])");
    let mut rep = crate::text::owned("[[");
    rep.append(new_stem);
    rep.append("$1");
    (pattern, rep)
}

/// `s` with its first occurrence of `from` replaced by `to` (an empty `from`
/// occurs at the start); `s` itself when there is none.
pub open spec fn replaced_first(s: Seq<char>, from: Seq<char>, to: Seq<char>) -> Seq<char> {
    if from.len() == 0 {
        to + s
    } else {
        let k = find_seq(s, 0, from);
        if k < 0 {
            s
        } else {
            s.take(k) + to + s.skip(k + from.len())
        }
    }
}

/// `text` with its first occurrence of `from` replaced by `to`.
pub fn replace_first_text(text: &str, from: &str, to: &str) -> (r: String)
    ensures
        r@ == replaced_first(text@, from@, to@),
{
    let v = chars_of(text);
    let f = chars_of(from);
    let t = chars_of(to);
    if f.len() == 0 {
        let mut out = crate::text::owned(to);
        out.append(text);
        return out;
    }
    proof {
        crate::scan::lemma_find_seq_bounds(v@, 0, f@);
    }
    match crate::scan::find_seq_exec(&v, 0, &f) {
        None => string_from(&v, 0, v.len()),
        Some(k) => {
            let mut out = string_from(&v, 0, k);
            out.append(to);
            let rest = string_from(&v, k + f.len(), v.len());
            out.append(rest.as_str());
            assert(v@.subrange(0, v.len() as int) =~= v@);
            out
        },
    }
}

} // verus!
