//! Markdown rendering of query results: each matched section as a block with
//! an HTML comment of metadata, its heading and its content, blocks separated
//! by horizontal rules.
use vstd::prelude::*;

use crate::core_logic::{first_match, resolve_section};
use crate::index::{NoteResult, SectionResultView};
use crate::note::Note;
use crate::order::texts;
use crate::sections::{section_views, SectionView};
use crate::text::{chars_of, ends_with, is_ws, last_index_of, lemma_last_index_of_bounds, owned};
use crate::words::words_of;

verus! {

// ---------------------------------------------------------------------------
// Trimming
// ---------------------------------------------------------------------------

/// `s` without its leading whitespace.
pub open spec fn trim_start_ws(s: Seq<char>) -> Seq<char>
    decreases s.len(),
{
    if s.len() > 0 && is_ws(s[0]) {
        trim_start_ws(s.drop_first())
    } else {
        s
    }
}

/// `s` without its trailing whitespace.
pub open spec fn trim_end_ws(s: Seq<char>) -> Seq<char>
    decreases s.len(),
{
    if s.len() > 0 && is_ws(s.last()) {
        trim_end_ws(s.drop_last())
    } else {
        s
    }
}

/// `s` without leading or trailing whitespace (`str::trim`).
pub open spec fn trim_ws(s: Seq<char>) -> Seq<char> {
    trim_end_ws(trim_start_ws(s))
}

/// `text` without leading or trailing whitespace.
pub fn trim_text(text: &str) -> (r: String)
    ensures
        r@ == trim_ws(text@),
{
    let v = chars_of(text);
    let n = v.len();
    let mut a: usize = 0;
    assert(v@.subrange(0, n as int) =~= v@);
    while a < n && crate::text::is_whitespace(v[a])
        invariant
            a <= n == v@.len(),
            trim_start_ws(v@) == trim_start_ws(v@.subrange(a as int, n as int)),
        decreases n - a,
    {
        assert(v@.subrange(a as int, n as int).drop_first() =~= v@.subrange(a + 1, n as int));
        a = a + 1;
    }
    let mut b: usize = n;
    while b > a && crate::text::is_whitespace(v[b - 1])
        invariant
            a <= b <= n == v@.len(),
            trim_ws(v@) == trim_end_ws(v@.subrange(a as int, b as int)),
        decreases b,
    {
        assert(v@.subrange(a as int, b as int).drop_last() =~= v@.subrange(a as int, b - 1));
        b = b - 1;
    }
    crate::text::string_from(&v, a, b)
}

// ---------------------------------------------------------------------------
// Blocks
// ---------------------------------------------------------------------------

pub open spec fn md_text() -> Seq<char> {
    seq!['.', 'm', 'd']
}

/// The heading of a rendered section: the last heading of its path, or for
/// the part before the first heading the note's file name without `.md`.
pub open spec fn heading_text(path: Seq<char>, hp: Seq<Seq<char>>) -> Seq<char> {
    if hp.len() == 0 {
        let stem = if ends_with(path, md_text()) {
            path.take(path.len() - 3)
        } else {
            path
        };
        stem.skip(last_index_of(stem, '/') + 1)
    } else {
        hp.last()
    }
}

/// The heading of a rendered section.
pub fn render_heading(path: &str, heading_path: &Vec<String>) -> (r: String)
    ensures
        r@ == heading_text(path@, texts(heading_path@)),
{
    if heading_path.len() > 0 {
        return heading_path[heading_path.len() - 1].clone();
    }
    proof {
        reveal_strlit(".md");
    }
    let v = chars_of(path);
    let n = v.len();
    let mut e = n;
    if n >= 3 && crate::text::range_is(&v, n - 3, n, ".md") {
        assert(".md"@ =~= md_text());
        e = n - 3;
    } else {
        assert(".md"@ =~= md_text());
    }
    let ghost stem = v@.subrange(0, e as int);
    assert(stem =~= (if ends_with(path@, md_text()) { path@.take(path@.len() - 3) } else { path@ }));
    proof {
        lemma_last_index_of_bounds(stem, '/');
    }
    let a = match crate::text::find_last_in(&v, 0, e, '/') {
        Some(k) => k + 1,
        None => 0,
    };
    assert(v@.subrange(a as int, e as int) =~= stem.skip(last_index_of(stem, '/') + 1));
    crate::text::string_from(&v, a, e)
}

pub open spec fn decimal(n: nat) -> Seq<char> {
    crate::storage::decimal(n)
}

/// A rendered section: a comment with the note path, the score when there is
/// one and the token count; the heading; the trimmed content.
pub open spec fn block_text(path: Seq<char>, score: Option<Seq<char>>, tokens: nat, heading: Seq<char>, content: Seq<char>) -> Seq<char> {
    "<!-- "@ + path + match score {
        Some(s) => " | score: "@ + s,
        None => Seq::empty(),
    } + " | tokens: "@ + decimal(tokens) + " -->\n\n## "@ + heading + "\n\n"@ + trim_ws(content) + "\n"@
}

/// A rendered section.
pub fn render_block(path: &str, score: Option<&str>, tokens: usize, heading: &str, content: &str) -> (r: String)
    ensures
        r@ == block_text(path@, match score {
            Some(s) => Some(s@),
            None => None,
        }, tokens as nat, heading@, content@),
{
    let mut s = owned("<!-- ");
    s.append(path);
    match score {
        Some(sc) => {
            s.append(" | score: ");
            s.append(sc);
        },
        None => {},
    }
    s.append(" | tokens: ");
    let mut digits: Vec<char> = Vec::new();
    crate::storage::push_decimal(tokens as u128, &mut digits);
    let d = crate::text::string_from(&digits, 0, digits.len());
    assert(digits@.subrange(0, digits.len() as int) =~= digits@);
    s.append(d.as_str());
    s.append(" -->\n\n## ");
    s.append(heading);
    s.append("\n\n");
    let body = trim_text(content);
    s.append(body.as_str());
    s.append("\n");
    s
}

// ---------------------------------------------------------------------------
// Notes
// ---------------------------------------------------------------------------

/// The score label of section `k`, if there is one.
pub open spec fn score_at(scores: Seq<Option<String>>, k: int) -> Option<Seq<char>> {
    if 0 <= k < scores.len() {
        match scores[k] {
            Some(s) => Some(s@),
            None => None,
        }
    } else {
        None
    }
}

/// The blocks of a note's matched sections, in order: each section result
/// rendered from the first section of the note with its heading path; a
/// section result that the note does not have is left out.
pub open spec fn note_blocks(
    path: Seq<char>,
    srs: Seq<SectionResultView>,
    ss: Seq<SectionView>,
    scores: Seq<Option<String>>,
) -> Seq<Seq<char>>
    decreases srs.len(),
{
    if srs.len() == 0 {
        Seq::empty()
    } else {
        let rest = note_blocks(path, srs.drop_last(), ss, scores);
        let m = first_match(ss, srs.last().heading_path);
        if m < 0 {
            rest
        } else {
            rest.push(
                block_text(
                    path,
                    score_at(scores, srs.len() - 1),
                    words_of(ss[m].content).len(),
                    heading_text(path, srs.last().heading_path),
                    ss[m].content,
                ),
            )
        }
    }
}

/// The blocks of the sections of `result` found in `note`; `scores[k]` is the
/// label of the score of section `k`, if it has one.
pub fn render_sections(result: &NoteResult, note: &Note, scores: &Vec<Option<String>>) -> (r: Vec<String>)
    ensures
        texts(r@) == note_blocks(result@.0.1, result@.1, section_views(note.sections@), scores@),
{
    let path = result.path.to_string();
    let ghost srs = result@.1;
    let ghost ss = section_views(note.sections@);
    let mut out: Vec<String> = Vec::new();
    let mut k: usize = 0;
    while k < result.sections.len()
        invariant
            k <= result.sections@.len(),
            srs == result@.1,
            srs.len() == result.sections@.len(),
            ss == section_views(note.sections@),
            path@ == result@.0.1,
            texts(out@) == note_blocks(path@, srs.take(k as int), ss, scores@),
        decreases result.sections.len() - k,
    {
        let ghost before = texts(out@);
        let sr = &result.sections[k];
        assert(srs.take(k + 1).drop_last() =~= srs.take(k as int));
        assert(srs[k as int].heading_path == texts(sr.heading_path@));
        assert(score_at(scores@, k as int) == score_at(scores@, srs.take(k + 1).len() - 1));
        assert(srs.take(k + 1).last() == srs[k as int]);
        match resolve_section(note, &sr.heading_path) {
            None => {},
            Some(s) => {
                let ghost m = first_match(ss, srs[k as int].heading_path);
                proof {
                    crate::core_logic::lemma_first_match_bounds(ss, srs[k as int].heading_path);
                }
                assert(ss[m] == note.sections@[m]@);
                let tokens = s.word_count();
                let heading = render_heading(path.as_str(), &sr.heading_path);
                let score: Option<&str> = if k < scores.len() {
                    match &scores[k] {
                        Some(x) => Some(x.as_str()),
                        None => None,
                    }
                } else {
                    None
                };
                let block = render_block(path.as_str(), score, tokens, heading.as_str(), s.content.as_str());
                out.push(block);
                assert(texts(out@) =~= before.push(texts(out@).last()));
            },
        }
        k = k + 1;
    }
    assert(srs.take(k as int) =~= srs);
    out
}

// ---------------------------------------------------------------------------
// Documents
// ---------------------------------------------------------------------------

/// The rule between two blocks.
pub open spec fn rule_text() -> Seq<char> {
    seq!['\n', '-', '-', '-', '\n', '\n']
}

/// The blocks joined by rules.
pub open spec fn joined(bs: Seq<Seq<char>>) -> Seq<char>
    decreases bs.len(),
{
    if bs.len() == 0 {
        Seq::empty()
    } else if bs.len() == 1 {
        bs[0]
    } else {
        joined(bs.drop_last()) + rule_text() + bs.last()
    }
}

/// The blocks of several notes, one after the other.
pub open spec fn all_blocks(
    results: Seq<NoteResult>,
    notes: Seq<Note>,
    scores: Seq<Vec<Option<String>>>,
) -> Seq<Seq<char>>
    decreases results.len(),
{
    if results.len() == 0 || notes.len() == 0 {
        Seq::empty()
    } else {
        let k = if results.len() < notes.len() { results.len() } else { notes.len() };
        let r = results[k - 1];
        all_blocks(results.take(k - 1), notes.take(k - 1), scores) + note_blocks(
            r@.0.1,
            r@.1,
            section_views(notes[k - 1].sections@),
            if k - 1 < scores.len() { scores[k - 1]@ } else { Seq::empty() },
        )
    }
}

/// A renderer of results paired with their notes (the shorter list decides how
/// many pairs there are), holding the rendered blocks.
pub struct RenderMarkdown {
    blocks: Vec<String>,
}

impl View for RenderMarkdown {
    type V = Seq<Seq<char>>;

    closed spec fn view(&self) -> Seq<Seq<char>> {
        texts(self.blocks@)
    }
}

impl RenderMarkdown {
    /// Pairs each result with its note; `scores[i][k]` labels the score of
    /// section `k` of result `i`, if it has one.
    pub fn new(results: &Vec<NoteResult>, notes: &Vec<Note>, scores: &Vec<Vec<Option<String>>>) -> (r: RenderMarkdown)
        ensures
            r@ == all_blocks(results@, notes@, scores@),
    {
        let n = if results.len() < notes.len() { results.len() } else { notes.len() };
        let mut blocks: Vec<String> = Vec::new();
        let empty: Vec<Option<String>> = Vec::new();
        let mut i: usize = 0;
        while i < n
            invariant
                i <= n,
                n == (if results@.len() < notes@.len() { results@.len() } else { notes@.len() }),
                texts(blocks@) == all_blocks(results@.take(i as int), notes@.take(i as int), scores@),
                empty@.len() == 0,
            decreases n - i,
        {
            let sc = if i < scores.len() { &scores[i] } else { &empty };
            let more = render_sections(&results[i], &notes[i], sc);
            let ghost before = texts(blocks@);
            let mut j: usize = 0;
            while j < more.len()
                invariant
                    j <= more@.len(),
                    texts(blocks@) == before + texts(more@).take(j as int),
                decreases more.len() - j,
            {
                assert(texts(more@).take(j + 1) =~= texts(more@).take(j as int).push(more@[j as int]@));
                let ghost old_b = blocks@;
                let c = more[j].clone();
                blocks.push(c);
                assert(texts(blocks@) =~= texts(old_b).push(more@[j as int]@));
                j = j + 1;
                assert(texts(blocks@) =~= before + texts(more@).take(j as int));
            }
            assert(texts(more@).take(j as int) =~= texts(more@));
            proof {
                let rs = results@.take(i + 1);
                let ns = notes@.take(i + 1);
                assert(rs.take(i as int) =~= results@.take(i as int));
                assert(ns.take(i as int) =~= notes@.take(i as int));
                assert(sc@ == (if i < scores@.len() { scores@[i as int]@ } else { Seq::<Option<String>>::empty() }));
                assert(rs[i as int] == results@[i as int]);
                assert(ns[i as int] == notes@[i as int]);
            }
            i = i + 1;
        }
        proof {
            if n > 0 {
                assert(results@.take(n as int).take(n - 1) =~= results@.take(n - 1));
                assert(notes@.take(n as int).take(n - 1) =~= notes@.take(n - 1));
            }
        }
        RenderMarkdown { blocks }
    }

    /// The blocks joined by rules, without surrounding whitespace.
    pub fn render(&self) -> (r: String)
        ensures
            r@ == trim_ws(joined(self@)),
    {
        proof {
            reveal_strlit("\n---\n\n");
        }
        let mut s = String::new();
        let mut i: usize = 0;
        while i < self.blocks.len()
            invariant
                i <= self.blocks@.len(),
                s@ == joined(texts(self.blocks@).take(i as int)),
            decreases self.blocks.len() - i,
        {
            let ghost before = s@;
            proof {
                reveal_strlit("\n---\n\n");
            }
            assert("\n---\n\n"@ =~= rule_text());
            assert(texts(self.blocks@).take(i + 1).last() == self.blocks@[i as int]@);
            if i > 0 {
                s.append("\n---\n\n");
            }
            s.append(self.blocks[i].as_str());
            i = i + 1;
            assert(texts(self.blocks@).take(i as int).drop_last() =~= texts(self.blocks@).take(i - 1));
            assert(s@ =~= joined(texts(self.blocks@).take(i as int)));
        }
        assert(texts(self.blocks@).take(i as int) =~= texts(self.blocks@));
        trim_text(s.as_str())
    }
}

} // verus!
