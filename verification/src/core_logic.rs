//! The decisions of the vault core: reconciling recorded revisions with storage,
//! find-and-replace in note text, rewriting links on rename, and the answers it
//! derives from parsed notes and index results.
use vstd::prelude::*;

use crate::index::{IndexEntry, IndexLink, IndexLinkView, NoteResult};
use crate::note::Note;
use crate::revisions::{entries_map, distinct_paths, InMemoryRevisionTracker, PathKey, RevisionToken};

use crate::sections::{section_views, Section, SectionView};
use crate::text::{chars_of, ends_with, owned, starts_with};
use crate::order::texts;
use crate::index::{path_headings, section_tags};
use crate::section_store::{make_section_path, section_key};
use crate::vault_path::vault_path_spec;
use crate::index::{note_result_views, SectionResultView};
use crate::observer::ObserverError;
use crate::replace::{link_pattern, link_replacement, link_rewrite, regex_compiles, regex_error_text_of, regex_replace_all, regex_replaced, replace_text, replaced};
use crate::section_store::{path_views, sort_by_path, sorted_by_path, IndexError};
use crate::errors::{note_handler_message, NoteHandlerError};
use crate::storage::{FileContent, StorageError};
use crate::vault_path::{file_part, file_stem};
use crate::vault_path::{VaultPath, VaultPathKind};

verus! {

// ---------------------------------------------------------------------------
// Storage events
// ---------------------------------------------------------------------------

/// A change of a file in the vault.
#[derive(Debug)]
pub enum StorageEvent {
    Created { path: VaultPath, token: RevisionToken },
    Updated { path: VaultPath, token: RevisionToken },
    Deleted { path: VaultPath },
}

pub enum EventView {
    Created(PathKey, Seq<char>),
    Updated(PathKey, Seq<char>),
    Deleted(PathKey),
}

impl View for StorageEvent {
    type V = EventView;

    open spec fn view(&self) -> EventView {
        match self {
            StorageEvent::Created { path, token } => EventView::Created(path@, token@),
            StorageEvent::Updated { path, token } => EventView::Updated(path@, token@),
            StorageEvent::Deleted { path } => EventView::Deleted(path@),
        }
    }
}

pub open spec fn event_views(es: Seq<StorageEvent>) -> Seq<EventView> {
    es.map_values(|e: StorageEvent| e@)
}

/// The events that bring the recorded revisions `t` in line with the stored
/// files `s`: files stored but not recorded were created, files recorded but not
/// stored were deleted, files whose tokens differ were updated.
pub open spec fn expected_event(ev: EventView, s: Map<PathKey, Seq<char>>, t: Map<PathKey, Seq<char>>) -> bool {
    match ev {
        EventView::Created(k, tok) => s.contains_key(k) && !t.contains_key(k) && tok == s[k],
        EventView::Deleted(k) => t.contains_key(k) && !s.contains_key(k),
        EventView::Updated(k, tok) => s.contains_key(k) && t.contains_key(k) && s[k] != t[k] && tok == s[k],
    }
}

/// The events that reconcile `tracker` with the files `stored`
/// (paths with their current tokens; a later entry for a path wins): each
/// expected event once, and no other.
pub fn review_changes(stored: &Vec<(VaultPath, RevisionToken)>, tracker: &InMemoryRevisionTracker) -> (r: Vec<StorageEvent>)
    ensures
        forall|ev: EventView| event_views(r@).contains(ev) <==> expected_event(ev, entries_map(stored@), tracker@),
        event_views(r@).no_duplicates(),
        r@.len() == 0 <==> entries_map(stored@) == tracker@,
{
    let mut smap = InMemoryRevisionTracker::new();
    let mut k: usize = 0;
    while k < stored.len()
        invariant
            k <= stored@.len(),
            smap@ == entries_map(stored@.take(k as int)),
        decreases stored.len() - k,
    {
        assert(stored@.take(k + 1).drop_last() =~= stored@.take(k as int));
        smap.update_revision(&stored[k].0, stored[k].1.clone());
        k = k + 1;
    }
    assert(stored@.take(k as int) =~= stored@);
    let ghost s = smap@;
    let ghost t = tracker@;
    let sl = smap.all_revisions();
    let tl = tracker.all_revisions();
    proof {
        crate::revisions::lemma_entries_map_pub(sl@);
        crate::revisions::lemma_entries_map_pub(tl@);
    }
    let mut out: Vec<StorageEvent> = Vec::new();
    let mut i: usize = 0;
    while i < sl.len()
        invariant
            i <= sl@.len(),
            s == entries_map(sl@),
            t == tracker@,
            distinct_paths(sl@),
            forall|k: PathKey| s.contains_key(k) <==> exists|j: int| 0 <= j < sl@.len() && (#[trigger] sl@[j]).0@ == k,
            forall|j: int| 0 <= j < sl@.len() ==> s[(#[trigger] sl@[j]).0@] == sl@[j].1@,
            event_views(out@).no_duplicates(),
            forall|ev: EventView| #![trigger event_views(out@).contains(ev)]
                event_views(out@).contains(ev) <==> (!(ev is Deleted) && expected_event(ev, s, t) && exists|j: int|
                    0 <= j < i && #[trigger] sl@[j].0@ == event_key(ev)),
        decreases sl.len() - i,
    {
        let ghost before = event_views(out@);
        let ghost key = sl@[i as int].0@;
        let p = &sl[i].0;
        let tok = &sl[i].1;
        let ghost mut added: Option<EventView> = None;
        match tracker.get_revision(p) {
            None => {
                let e = StorageEvent::Created { path: p.clone(), token: tok.clone() };
                proof {
                    lemma_views_push(out@, e);
                    added = Some(e@);
                }
                out.push(e);
            },
            Some(u) => {
                if !u.same_as(tok) {
                    let e = StorageEvent::Updated { path: p.clone(), token: tok.clone() };
                    proof {
                        lemma_views_push(out@, e);
                        added = Some(e@);
                    }
                    out.push(e);
                }
            },
        }
        proof {
            let now = event_views(out@);
            assert(s.contains_key(key));
            assert(s[key] == sl@[i as int].1@);
            assert(now == match added { Some(x) => before.push(x), None => before });
            assert forall|ev: EventView| (!(ev is Deleted) && expected_event(ev, s, t) && event_key(ev) == key)
                <==> added == Some(ev) by {}
            assert forall|ev: EventView| before.contains(ev) implies event_key(ev) != key by {
                let j = choose|j: int| 0 <= j < i && #[trigger] sl@[j].0@ == event_key(ev);
                assert(sl@[j].0@ != sl@[i as int].0@);
            }
            assert forall|ev: EventView| now.contains(ev) <==> (!(ev is Deleted) && expected_event(ev, s, t) && exists|j: int|
                0 <= j < i + 1 && #[trigger] sl@[j].0@ == event_key(ev)) by {
                if added == Some(ev) {
                    assert(now.last() == ev);
                    assert(sl@[i as int].0@ == event_key(ev));
                }
                if before.contains(ev) {
                    let q = choose|q: int| 0 <= q < before.len() && before[q] == ev;
                    assert(now[q] == ev);
                }
                if now.contains(ev) && added != Some(ev) {
                    let q = choose|q: int| 0 <= q < now.len() && now[q] == ev;
                    assert(before[q] == ev);
                }
                if !(ev is Deleted) && expected_event(ev, s, t) && exists|j: int|
                    0 <= j < i + 1 && #[trigger] sl@[j].0@ == event_key(ev) {
                    if event_key(ev) != key {
                        let j = choose|j: int| 0 <= j < i + 1 && #[trigger] sl@[j].0@ == event_key(ev);
                        assert(j != i);
                        assert(before.contains(ev));
                    }
                }
            }
            assert(now.no_duplicates()) by {
                if let Some(x) = added {
                    assert(!before.contains(x));
                    assert forall|a: int, b: int| 0 <= a < b < now.len() implies now[a] != now[b] by {
                        assert(now[a] == before[a]);
                        if b == now.len() - 1 {
                            assert(before.contains(before[a]));
                        }
                    }
                }
            }
        }
        i = i + 1;
    }
    let mut j: usize = 0;
    while j < tl.len()
        invariant
            j <= tl@.len(),
            s == smap@,
            t == entries_map(tl@),
            distinct_paths(tl@),
            forall|k: PathKey| t.contains_key(k) <==> exists|q: int| 0 <= q < tl@.len() && (#[trigger] tl@[q]).0@ == k,
            event_views(out@).no_duplicates(),
            forall|ev: EventView| #![trigger event_views(out@).contains(ev)]
                event_views(out@).contains(ev) <==> (expected_event(ev, s, t) && (!(ev is Deleted) || exists|q: int|
                    0 <= q < j && #[trigger] tl@[q].0@ == event_key(ev))),
        decreases tl.len() - j,
    {
        let ghost before = event_views(out@);
        let ghost key = tl@[j as int].0@;
        let p = &tl[j].0;
        let ghost mut added: Option<EventView> = None;
        match smap.get_revision(p) {
            None => {
                let e = StorageEvent::Deleted { path: p.clone() };
                proof {
                    lemma_views_push(out@, e);
                    added = Some(e@);
                }
                out.push(e);
            },
            Some(_) => {},
        }
        proof {
            let now = event_views(out@);
            assert(t.contains_key(key));
            assert(now == match added { Some(x) => before.push(x), None => before });
            assert forall|ev: EventView| (ev is Deleted && expected_event(ev, s, t) && event_key(ev) == key)
                <==> added == Some(ev) by {}
            assert forall|ev: EventView| before.contains(ev) && ev is Deleted implies event_key(ev) != key by {
                let q = choose|q: int| 0 <= q < j && #[trigger] tl@[q].0@ == event_key(ev);
                assert(tl@[q].0@ != tl@[j as int].0@);
            }
            assert forall|ev: EventView| now.contains(ev) <==> (expected_event(ev, s, t) && (!(ev is Deleted) || exists|q: int|
                0 <= q < j + 1 && #[trigger] tl@[q].0@ == event_key(ev))) by {
                if added == Some(ev) {
                    assert(now.last() == ev);
                    assert(tl@[j as int].0@ == event_key(ev));
                }
                if before.contains(ev) {
                    let q = choose|q: int| 0 <= q < before.len() && before[q] == ev;
                    assert(now[q] == ev);
                }
                if now.contains(ev) && added != Some(ev) {
                    let q = choose|q: int| 0 <= q < now.len() && now[q] == ev;
                    assert(before[q] == ev);
                }
                if expected_event(ev, s, t) && ev is Deleted && exists|q: int|
                    0 <= q < j + 1 && #[trigger] tl@[q].0@ == event_key(ev) {
                    if event_key(ev) != key {
                        let q = choose|q: int| 0 <= q < j + 1 && #[trigger] tl@[q].0@ == event_key(ev);
                        assert(q != j);
                        assert(before.contains(ev));
                    }
                }
            }
            assert(now.no_duplicates()) by {
                if let Some(x) = added {
                    assert(!before.contains(x));
                    assert forall|a: int, b: int| 0 <= a < b < now.len() implies now[a] != now[b] by {
                        assert(now[a] == before[a]);
                        if b == now.len() - 1 {
                            assert(before.contains(before[a]));
                        }
                    }
                }
            }
        }
        j = j + 1;
    }
    proof {
        let evs = event_views(out@);
        assert forall|ev: EventView| evs.contains(ev) <==> expected_event(ev, s, t) by {
            if expected_event(ev, s, t) && ev is Deleted {
                let k = event_key(ev);
                let q = choose|q: int| 0 <= q < tl@.len() && (#[trigger] tl@[q]).0@ == k;
            }
        }
        if out@.len() == 0 {
            assert forall|k: PathKey| #[trigger] s.contains_key(k) <==> t.contains_key(k) by {
                if s.contains_key(k) && !t.contains_key(k) {
                    assert(expected_event(EventView::Created(k, s[k]), s, t));
                    assert(!evs.contains(EventView::Created(k, s[k])));
                }
                if t.contains_key(k) && !s.contains_key(k) {
                    assert(expected_event(EventView::Deleted(k), s, t));
                    assert(!evs.contains(EventView::Deleted(k)));
                }
            }
            assert forall|k: PathKey| #[trigger] s.contains_key(k) implies s[k] == t[k] by {
                if s[k] != t[k] {
                    assert(expected_event(EventView::Updated(k, s[k]), s, t));
                    assert(!evs.contains(EventView::Updated(k, s[k])));
                }
            }
            assert(s =~= t);
        } else {
            assert(evs.contains(evs[0]));
            assert(expected_event(evs[0], s, t));
            assert(s != t);
        }
    }
    out
}

proof fn lemma_views_push(out: Seq<StorageEvent>, e: StorageEvent)
    ensures
        event_views(out.push(e)) == event_views(out).push(e@),
{
    assert(event_views(out.push(e)) =~= event_views(out).push(e@));
}

/// The path an event is about.
pub open spec fn event_key(ev: EventView) -> PathKey {
    match ev {
        EventView::Created(k, _) => k,
        EventView::Updated(k, _) => k,
        EventView::Deleted(k) => k,
    }
}

// ---------------------------------------------------------------------------
// Errors and modes
// ---------------------------------------------------------------------------

/// Mode for find-and-replace operations.
#[derive(Debug, Clone, Copy, PartialEq, Eq, Structural)]
pub enum UpdateMode {
    /// Literal replacement of every occurrence.
    Text,
    /// Replacement of every match of a regular expression.
    Regex,
}

/// Errors of the vault core.
#[derive(Debug)]
pub enum CoreError {
    Storage(StorageError),
    Index(IndexError),
    Observer(ObserverError),
    NoteNotFound(VaultPath),
    NotMarkdown(VaultPath),
    NotFolder(VaultPath),
    Parse(NoteHandlerError),
    NoMatch(String),
    InvalidRegex(regex::Error),
}

/// The kinds of core errors, with the paths and texts they name.
pub enum CoreFault {
    Storage,
    Index,
    Observer,
    NoteNotFound(PathKey),
    NotMarkdown(PathKey),
    NotFolder(PathKey),
    Parse,
    NoMatch(Seq<char>),
    InvalidRegex,
}

impl CoreError {
    pub open spec fn fault(&self) -> CoreFault {
        match self {
            CoreError::Storage(_) => CoreFault::Storage,
            CoreError::Index(_) => CoreFault::Index,
            CoreError::Observer(_) => CoreFault::Observer,
            CoreError::NoteNotFound(p) => CoreFault::NoteNotFound(p@),
            CoreError::NotMarkdown(p) => CoreFault::NotMarkdown(p@),
            CoreError::NotFolder(p) => CoreFault::NotFolder(p@),
            CoreError::Parse(_) => CoreFault::Parse,
            CoreError::NoMatch(s) => CoreFault::NoMatch(s@),
            CoreError::InvalidRegex(_) => CoreFault::InvalidRegex,
        }
    }

    /// Whether the message holds the system's text of an I/O error.
    pub open spec fn message_has_detail(&self) -> bool {
        match self {
            CoreError::Storage(e) => e is Io,
            _ => false,
        }
    }

    /// The message of the error; `detail` stands for the system's text of an
    /// I/O error, where there is one.
    pub open spec fn message(&self, detail: Seq<char>) -> Seq<char> {
        match self {
            CoreError::Storage(e) => e.message(detail),
            CoreError::Index(e) => e.message(),
            CoreError::Observer(e) => e.message(),
            CoreError::NoteNotFound(p) => "note not found: "@ + p@.1,
            CoreError::NotMarkdown(p) => "not a markdown file: "@ + p@.1,
            CoreError::NotFolder(p) => "not a folder: "@ + p@.1,
            CoreError::Parse(e) => "parse error: "@ + note_handler_message(*e),
            CoreError::NoMatch(t) => "no match found for: "@ + t@,
            CoreError::InvalidRegex(e) => "invalid regex: "@ + regex_error_text_of(e),
        }
    }

    /// The message of the error. The system's text of an I/O error (see
    /// `message_has_detail`) is not stated.
    pub fn to_string(&self) -> (r: String)
        ensures
            self.message_has_detail() ==> exists|d: Seq<char>| r@ == self.message(d),
            !self.message_has_detail() ==> r@ == self.message(Seq::empty()),
    {
        match self {
            CoreError::Storage(e) => {
                let s = e.to_string();
                proof {
                    if e is Io {
                        let d = choose|d: Seq<char>| s@ == e.message(d);
                        assert(s@ == self.message(d));
                    }
                }
                s
            },
            CoreError::Index(e) => e.to_string(),
            CoreError::Observer(e) => e.to_string(),
            CoreError::NoteNotFound(p) => {
                let mut s = owned("note not found: ");
                s.append(p.as_str());
                s
            },
            CoreError::NotMarkdown(p) => {
                let mut s = owned("not a markdown file: ");
                s.append(p.as_str());
                s
            },
            CoreError::NotFolder(p) => {
                let mut s = owned("not a folder: ");
                s.append(p.as_str());
                s
            },
            CoreError::Parse(e) => {
                let mut s = owned("parse error: ");
                let m = e.to_string();
                s.append(m.as_str());
                s
            },
            CoreError::NoMatch(t) => {
                let mut s = owned("no match found for: ");
                s.append(t.as_str());
                s
            },
            CoreError::InvalidRegex(e) => {
                let mut s = owned("invalid regex: ");
                let m = crate::replace::regex_error_message(e);
                s.append(m.as_str());
                assert(s@ == self.message(Seq::empty()));
                s
            },
        }
    }
}

// ---------------------------------------------------------------------------
// Reading and changing note text
// ---------------------------------------------------------------------------

/// The text of a markdown file, or `NotMarkdown` for an image.
pub fn markdown_content(path: &VaultPath, content: &FileContent) -> (r: Result<String, CoreError>)
    ensures
        match content {
            FileContent::Markdown(c) => r matches Ok(t) && t@ == c@,
            FileContent::Image(_) => r matches Err(e) && e.fault() == CoreFault::NotMarkdown(path@),
        },
{
    match content {
        FileContent::Markdown(c) => Ok(c.clone()),
        FileContent::Image(_) => Err(CoreError::NotMarkdown(path.clone())),
    }
}

/// What find-and-replace gives: every occurrence of `old` (literal text, or a
/// regular expression) in `current` replaced by `new`. A pattern that does not
/// compile is `InvalidRegex`; a replacement that leaves the text as it was is
/// `NoMatch(old)`.
pub fn replace_content(current: &str, old: &str, new: &str, mode: UpdateMode) -> (r: Result<String, CoreError>)
    ensures
        mode == UpdateMode::Text ==> match r {
            Ok(t) => t@ == replaced(current@, old@, new@) && t@ != current@,
            Err(e) => replaced(current@, old@, new@) == current@ && e.fault() == CoreFault::NoMatch(old@),
        },
        mode == UpdateMode::Regex ==> match r {
            Ok(t) => regex_compiles(old@) && t@ == regex_replaced(old@, current@, new@) && t@ != current@,
            Err(e) => if regex_compiles(old@) {
                regex_replaced(old@, current@, new@) == current@ && e.fault() == CoreFault::NoMatch(old@)
            } else {
                e.fault() == CoreFault::InvalidRegex
            },
        },
{
    let result = match mode {
        UpdateMode::Text => replace_text(current, old, new),
        UpdateMode::Regex => match regex_replace_all(old, current, new) {
            Ok(t) => t,
            Err(e) => {
                return Err(CoreError::InvalidRegex(e));
            },
        },
    };
    let cur = owned(current);
    if result == cur {
        Err(CoreError::NoMatch(owned(old)))
    } else {
        Ok(result)
    }
}

/// `current` and `addition` joined by a newline; either being an image is
/// `NotMarkdown(path)`.
pub fn appended_content(path: &VaultPath, current: &FileContent, addition: &FileContent) -> (r: Result<
    String,
    CoreError,
>)
    ensures
        match (current, addition) {
            (FileContent::Markdown(c), FileContent::Markdown(a)) => r matches Ok(t) && t@ == c@ + seq!['\n'] + a@,
            _ => r matches Err(e) && e.fault() == CoreFault::NotMarkdown(path@),
        },
{
    match (current, addition) {
        (FileContent::Markdown(c), FileContent::Markdown(a)) => {
            let mut t = c.clone();
            t.push('\n');
            t.append(a.as_str());
            Ok(t)
        },
        _ => Err(CoreError::NotMarkdown(path.clone())),
    }
}

/// The token recorded for `path`, or `NoteNotFound(path)` when there is none.
pub fn recorded_revision(path: &VaultPath, recorded: Option<RevisionToken>) -> (r: Result<RevisionToken, CoreError>)
    ensures
        match recorded {
            Some(t) => r matches Ok(u) && u@ == t@,
            None => r matches Err(e) && e.fault() == CoreFault::NoteNotFound(path@),
        },
{
    match recorded {
        Some(t) => Ok(t),
        None => Err(CoreError::NoteNotFound(path.clone())),
    }
}

/// When a rename rewrites links: links are asked for and the stem changes.
/// Then the pattern and replacement that point wikilinks at the new stem.
pub fn rename_rewrite(from: &VaultPath, to: &VaultPath, update_links: bool) -> (r: Option<(String, String)>)
    ensures
        match r {
            Some((p, q)) => update_links && stem_of(from@) != stem_of(to@) && p@ == link_pattern(stem_of(from@))
                && q@ == link_replacement(stem_of(to@)),
            None => !update_links || stem_of(from@) == stem_of(to@),
        },
{
    let old_stem = from.stem();
    let new_stem = to.stem();
    if update_links && !str_eq(old_stem, new_stem) {
        Some(link_rewrite(old_stem, new_stem))
    } else {
        None
    }
}

/// The stem of a path as `VaultPath::stem` gives it.
pub open spec fn stem_of(p: PathKey) -> Seq<char> {
    if p.0 == VaultPathKind::Root {
        Seq::empty()
    } else {
        file_stem(file_part(p))
    }
}

fn str_eq(a: &str, b: &str) -> (r: bool)
    ensures
        r == (a@ == b@),
{
    let x = owned(a);
    let y = owned(b);
    x == y
}

// ---------------------------------------------------------------------------
// Listing
// ---------------------------------------------------------------------------

/// The folder a listing of `path` covers: none for the root, the folder itself
/// for a folder; any other path is `NotFolder`.
pub fn listing_folder(path: &VaultPath) -> (r: Result<Option<VaultPath>, CoreError>)
    ensures
        match path@.0 {
            VaultPathKind::Root => r matches Ok(None),
            VaultPathKind::Folder => r matches Ok(Some(f)) && f@ == path@,
            _ => r matches Err(e) && e.fault() == CoreFault::NotFolder(path@),
        },
{
    match path {
        VaultPath::Root => Ok(None),
        VaultPath::Folder(_) => Ok(Some(path.clone())),
        _ => Err(CoreError::NotFolder(path.clone())),
    }
}

pub open spec fn result_paths(ns: Seq<(PathKey, Seq<SectionResultView>)>) -> Seq<PathKey> {
    ns.map_values(|n: (PathKey, Seq<SectionResultView>)| n.0)
}

/// The paths of the results, ordered by their texts.
pub fn listed_paths(results: Vec<NoteResult>) -> (r: Vec<VaultPath>)
    ensures
        exists|s: Seq<(PathKey, Seq<SectionResultView>)>|
            sorted_by_path(s) && s.to_multiset() == note_result_views(results@).to_multiset() && path_views(r@)
                == result_paths(s),
{
    let sorted = sort_by_path(results);
    let mut out: Vec<VaultPath> = Vec::new();
    let mut i: usize = 0;
    while i < sorted.len()
        invariant
            i <= sorted@.len(),
            out@.len() == i,
            forall|j: int| 0 <= j < i ==> (#[trigger] out@[j])@ == sorted@[j].path@,
        decreases sorted.len() - i,
    {
        out.push(sorted[i].path.clone());
        i = i + 1;
    }
    assert(path_views(out@) =~= result_paths(note_result_views(sorted@)));
    out
}

// ---------------------------------------------------------------------------
// Small helpers on texts
// ---------------------------------------------------------------------------

pub proof fn lemma_push_contains<A>(s: Seq<A>, a: A, x: A)
    ensures
        s.push(a).contains(x) <==> s.contains(x) || x == a,
{
    if s.push(a).contains(x) {
        let q = choose|q: int| 0 <= q < s.push(a).len() && s.push(a)[q] == x;
        if q < s.len() {
            assert(s[q] == x);
        }
    }
    if s.contains(x) {
        let q = choose|q: int| 0 <= q < s.len() && s[q] == x;
        assert(s.push(a)[q] == x);
    }
    if x == a {
        assert(s.push(a)[s.len() as int] == x);
    }
}

/// Whether `t` is one of the texts of `v`.
pub fn text_in(v: &Vec<String>, t: &String) -> (b: bool)
    ensures
        b == texts(v@).contains(t@),
{
    let mut i: usize = 0;
    while i < v.len()
        invariant
            i <= v.len(),
            forall|j: int| 0 <= j < i ==> (#[trigger] v@[j])@ != t@,
        decreases v.len() - i,
    {
        if v[i] == *t {
            assert(texts(v@)[i as int] == t@);
            return true;
        }
        i = i + 1;
    }
    proof {
        if texts(v@).contains(t@) {
            let j = choose|j: int| 0 <= j < texts(v@).len() && texts(v@)[j] == t@;
            assert(v@[j]@ == t@);
        }
    }
    false
}

/// Whether two lists hold the same texts in the same order.
pub fn same_texts(a: &Vec<String>, b: &Vec<String>) -> (r: bool)
    ensures
        r == (texts(a@) == texts(b@)),
{
    if a.len() != b.len() {
        assert(texts(a@).len() != texts(b@).len());
        return false;
    }
    let mut i: usize = 0;
    while i < a.len()
        invariant
            i <= a.len() == b.len(),
            forall|j: int| 0 <= j < i ==> (#[trigger] a@[j])@ == b@[j]@,
        decreases a.len() - i,
    {
        if a[i] != b[i] {
            assert(texts(a@)[i as int] != texts(b@)[i as int]);
            return false;
        }
        i = i + 1;
    }
    assert(texts(a@) =~= texts(b@));
    true
}

/// Whether `t` starts with `p`.
pub fn has_prefix(t: &String, p: &str) -> (b: bool)
    ensures
        b == starts_with(t@, p@),
{
    let tv = chars_of(t.as_str());
    let pv = chars_of(p);
    if pv.len() > tv.len() {
        return false;
    }
    let r = crate::text::range_eq(&tv, 0, pv.len(), &pv, 0, pv.len());
    assert(pv@.subrange(0, pv.len() as int) =~= pv@);
    r
}

// ---------------------------------------------------------------------------
// Sections
// ---------------------------------------------------------------------------

/// The section paths `note#h1/h2/…` of the sections with a heading path, in
/// order, leaving out those whose text is not a vault path.
pub open spec fn section_paths_spec(note: Seq<char>, ss: Seq<SectionView>) -> Seq<PathKey>
    decreases ss.len(),
{
    if ss.len() == 0 {
        Seq::empty()
    } else {
        let rest = section_paths_spec(note, ss.drop_last());
        let hp = ss.last().heading_path;
        if hp.len() > 0 && section_key(note, hp) is Some {
            rest.push(section_key(note, hp).unwrap())
        } else {
            rest
        }
    }
}

/// The paths of the sections of a note that have a heading.
pub fn section_paths(note_path: &VaultPath, sections: &Vec<Section>) -> (r: Vec<VaultPath>)
    ensures
        path_views(r@) == section_paths_spec(note_path@.1, section_views(sections@)),
{
    let mut out: Vec<VaultPath> = Vec::new();
    let mut i: usize = 0;
    while i < sections.len()
        invariant
            i <= sections@.len(),
            path_views(out@) == section_paths_spec(note_path@.1, section_views(sections@).take(i as int)),
        decreases sections.len() - i,
    {
        let ghost before = path_views(out@);
        assert(section_views(sections@).take(i + 1).drop_last() =~= section_views(sections@).take(i as int));
        let hp = &sections[i].heading_path;
        assert(texts(hp@) =~= sections@[i as int]@.heading_path);
        if hp.len() > 0 {
            match make_section_path(note_path, hp) {
                Some(p) => {
                    out.push(p);
                    assert(path_views(out@) =~= before.push(out@.last()@));
                },
                None => {},
            }
        }
        i = i + 1;
    }
    assert(section_views(sections@).take(i as int) =~= section_views(sections@));
    out
}

/// The note a section path belongs to; a path without one is `NotMarkdown`.
pub fn section_note(path: &VaultPath) -> (r: Result<VaultPath, CoreError>)
    ensures
        match r {
            Ok(p) => (path@.0 == VaultPathKind::Section || path@.0 == VaultPathKind::Block || path@.0
                == VaultPathKind::Note) && p@ == (VaultPathKind::Note, file_part(path@)),
            Err(e) => !(path@.0 == VaultPathKind::Section || path@.0 == VaultPathKind::Block || path@.0
                == VaultPathKind::Note) && e.fault() == CoreFault::NotMarkdown(path@),
        },
{
    match path.note_path() {
        Some(p) => Ok(p),
        None => Err(CoreError::NotMarkdown(path.clone())),
    }
}

/// Whether one of the entries has the headings of the section path `path`.
pub fn section_exists(path: &VaultPath, entries: &Vec<IndexEntry>) -> (b: bool)
    ensures
        b == exists|j: int| 0 <= j < entries@.len() && path_headings((#[trigger] entries@[j])@.path) == path_headings(path@),
{
    let wanted = path.section_headings();
    assert(texts(wanted@) =~= path_headings(path@));
    let mut i: usize = 0;
    while i < entries.len()
        invariant
            i <= entries@.len(),
            texts(wanted@) == path_headings(path@),
            forall|j: int| 0 <= j < i ==> path_headings((#[trigger] entries@[j])@.path) != path_headings(path@),
        decreases entries.len() - i,
    {
        let hs = entries[i].path.section_headings();
        assert(texts(hs@) =~= path_headings(entries@[i as int]@.path));
        if same_texts(&hs, &wanted) {
            return true;
        }
        i = i + 1;
    }
    false
}

/// The position of the first section with heading path `hp`, or `-1`.
pub open spec fn first_match(ss: Seq<SectionView>, hp: Seq<Seq<char>>) -> int
    decreases ss.len(),
{
    if ss.len() == 0 {
        -1
    } else if first_match(ss.drop_last(), hp) >= 0 {
        first_match(ss.drop_last(), hp)
    } else if ss.last().heading_path == hp {
        ss.len() - 1
    } else {
        -1
    }
}

pub proof fn lemma_first_match_bounds(ss: Seq<SectionView>, hp: Seq<Seq<char>>)
    ensures
        -1 <= first_match(ss, hp) < ss.len(),
        first_match(ss, hp) >= 0 ==> ss[first_match(ss, hp)].heading_path == hp,
    decreases ss.len(),
{
    if ss.len() > 0 {
        lemma_first_match_bounds(ss.drop_last(), hp);
    }
}

proof fn lemma_first_match_prefix(ss: Seq<SectionView>, hp: Seq<Seq<char>>, k: int)
    requires
        0 <= k <= ss.len(),
        first_match(ss.take(k), hp) >= 0,
    ensures
        first_match(ss, hp) == first_match(ss.take(k), hp),
    decreases ss.len() - k,
{
    if k < ss.len() {
        assert(ss.take(k + 1).drop_last() =~= ss.take(k));
        lemma_first_match_prefix(ss, hp, k + 1);
    } else {
        assert(ss.take(k) =~= ss);
    }
}

/// The first section whose heading path is `heading_path`.
pub fn resolve_section<'a>(note: &'a Note, heading_path: &Vec<String>) -> (r: Option<&'a Section>)
    ensures
        match r {
            Some(s) => first_match(section_views(note.sections@), texts(heading_path@)) >= 0 && s == &note.sections@[first_match(
                section_views(note.sections@),
                texts(heading_path@),
            )],
            None => first_match(section_views(note.sections@), texts(heading_path@)) == -1,
        },
{
    let ghost svs = section_views(note.sections@);
    let ghost hp = texts(heading_path@);
    let mut i: usize = 0;
    while i < note.sections.len()
        invariant
            i <= note.sections@.len(),
            svs == section_views(note.sections@),
            hp == texts(heading_path@),
            first_match(svs.take(i as int), hp) == -1,
        decreases note.sections.len() - i,
    {
        let sh = &note.sections[i].heading_path;
        assert(texts(sh@) =~= svs[i as int].heading_path);
        assert(svs.take(i + 1).drop_last() =~= svs.take(i as int));
        if same_texts(sh, heading_path) {
            proof {
                lemma_first_match_prefix(svs, hp, i + 1);
            }
            return Some(&note.sections[i]);
        }
        i = i + 1;
    }
    assert(svs.take(i as int) =~= svs);
    None
}

// ---------------------------------------------------------------------------
// Tags
// ---------------------------------------------------------------------------

/// The tag lists of the notes.
pub open spec fn note_tag_lists(ns: Seq<(PathKey, Seq<SectionResultView>)>) -> Seq<Seq<Seq<char>>> {
    ns.map_values(|n: (PathKey, Seq<SectionResultView>)| section_tags(n.1))
}

/// How many of the lists hold `t`.
pub open spec fn lists_with(ls: Seq<Seq<Seq<char>>>, t: Seq<char>) -> nat
    decreases ls.len(),
{
    if ls.len() == 0 {
        0
    } else {
        lists_with(ls.drop_last(), t) + if ls.last().contains(t) { 1nat } else { 0nat }
    }
}

proof fn lemma_lists_with_bound(ls: Seq<Seq<Seq<char>>>, t: Seq<char>)
    ensures
        lists_with(ls, t) <= ls.len(),
        lists_with(ls, t) > 0 <==> exists|k: int| 0 <= k < ls.len() && (#[trigger] ls[k]).contains(t),
    decreases ls.len(),
{
    if ls.len() > 0 {
        lemma_lists_with_bound(ls.drop_last(), t);
        if lists_with(ls.drop_last(), t) > 0 {
            let k = choose|k: int| 0 <= k < ls.drop_last().len() && (#[trigger] ls.drop_last()[k]).contains(t);
            assert(ls[k] == ls.drop_last()[k]);
        }
        assert forall|k: int| 0 <= k < ls.len() && (#[trigger] ls[k]).contains(t) implies lists_with(ls, t) > 0 by {
            if k < ls.len() - 1 {
                assert(ls.drop_last()[k] == ls[k]);
            }
        }
    }
}

/// Whether `t` passes the prefix filter (there is none, or `t` starts with it).
pub open spec fn prefix_ok(prefix: Option<&str>, t: Seq<char>) -> bool {
    match prefix {
        Some(p) => starts_with(t, p@),
        None => true,
    }
}

pub open spec fn pair_keys(v: Seq<(String, usize)>) -> Seq<Seq<char>> {
    v.map_values(|e: (String, usize)| e.0@)
}

/// How many of the lists hold `t`, where each list holds what `ls` holds at its position.
fn count_lists_with(lists: &Vec<Vec<String>>, t: &String, Ghost(ls): Ghost<Seq<Seq<Seq<char>>>>) -> (c: usize)
    requires
        lists@.len() == ls.len(),
        forall|j: int| 0 <= j < lists@.len() ==> forall|x: Seq<char>| #[trigger] texts((#[trigger] lists@[j])@).contains(x) <==> ls[j].contains(x),
    ensures
        c == lists_with(ls, t@),
{
    let mut c: usize = 0;
    let mut j: usize = 0;
    while j < lists.len()
        invariant
            j <= lists@.len() == ls.len(),
            forall|q: int| 0 <= q < lists@.len() ==> forall|x: Seq<char>| #[trigger] texts((#[trigger] lists@[q])@).contains(x) <==> ls[q].contains(x),
            c == lists_with(ls.take(j as int), t@),
            c <= j,
        decreases lists.len() - j,
    {
        assert(ls.take(j + 1).drop_last() =~= ls.take(j as int));
        if text_in(&lists[j], t) {
            c = c + 1;
        }
        j = j + 1;
    }
    assert(ls.take(j as int) =~= ls);
    c
}

/// For each tag of the notes that starts with `prefix` (when one is given), the
/// number of notes that have it; each tag once.
pub fn tag_counts(results: &Vec<NoteResult>, prefix: Option<&str>) -> (r: Vec<(String, usize)>)
    ensures
        forall|i: int, j: int| 0 <= i < j < r@.len() ==> (#[trigger] r@[i]).0@ != (#[trigger] r@[j]).0@,
        forall|i: int|
            0 <= i < r@.len() ==> (#[trigger] r@[i]).1 == lists_with(note_tag_lists(note_result_views(results@)), r@[i].0@)
                && r@[i].1 > 0 && prefix_ok(prefix, r@[i].0@),
        forall|t: Seq<char>|
            lists_with(note_tag_lists(note_result_views(results@)), t) > 0 && prefix_ok(prefix, t)
                ==> exists|i: int| 0 <= i < r@.len() && (#[trigger] r@[i]).0@ == t,
{
    let ghost ls = note_tag_lists(note_result_views(results@));
    // The tags of each note.
    let mut lists: Vec<Vec<String>> = Vec::new();
    let mut k: usize = 0;
    while k < results.len()
        invariant
            k <= results@.len(),
            ls == note_tag_lists(note_result_views(results@)),
            lists@.len() == k,
            forall|j: int| 0 <= j < k ==> forall|x: Seq<char>| #[trigger] texts((#[trigger] lists@[j])@).contains(x) <==> ls[j].contains(x),
        decreases results.len() - k,
    {
        let tags = results[k].tags();
        lists.push(tags);
        k = k + 1;
    }
    // Every tag once, in order of first appearance.
    let mut all: Vec<String> = Vec::new();
    let mut i: usize = 0;
    while i < lists.len()
        invariant
            i <= lists@.len() == ls.len(),
            forall|j: int| 0 <= j < lists@.len() ==> forall|x: Seq<char>| #[trigger] texts((#[trigger] lists@[j])@).contains(x) <==> ls[j].contains(x),
            texts(all@).no_duplicates(),
            forall|x: Seq<char>| #[trigger] texts(all@).contains(x) <==> exists|j: int| 0 <= j < i && (#[trigger] ls[j]).contains(x),
        decreases lists.len() - i,
    {
        let cur = &lists[i];
        let mut m: usize = 0;
        while m < cur.len()
            invariant
                i < lists@.len() == ls.len(),
                cur == &lists@[i as int],
                m <= cur@.len(),
                forall|x: Seq<char>| #[trigger] texts(cur@).contains(x) <==> ls[i as int].contains(x),
                texts(all@).no_duplicates(),
                forall|x: Seq<char>| #[trigger] texts(all@).contains(x) <==> (exists|j: int| 0 <= j < i && (#[trigger] ls[j]).contains(x))
                    || texts(cur@).take(m as int).contains(x),
            decreases cur.len() - m,
        {
            let ghost before = texts(all@);
            let ghost old_take = texts(cur@).take(m as int);
            let ghost added = cur@[m as int]@;
            assert(texts(cur@).take(m + 1) =~= old_take.push(added));
            if !text_in(&all, &cur[m]) {
                all.push(cur[m].clone());
                assert(texts(all@) =~= before.push(added));
            }
            m = m + 1;
            assert forall|x: Seq<char>| #[trigger] texts(all@).contains(x) <==> (exists|j: int| 0 <= j < i && (#[trigger] ls[j]).contains(x))
                || texts(cur@).take(m as int).contains(x) by {
                lemma_push_contains(old_take, added, x);
                lemma_push_contains(before, added, x);
            }
        }
        assert(texts(cur@).take(m as int) =~= texts(cur@));
        i = i + 1;
        assert forall|x: Seq<char>| #[trigger] texts(all@).contains(x) <==> exists|j: int| 0 <= j < i && (#[trigger] ls[j]).contains(x) by {
            if exists|j: int| 0 <= j < i && (#[trigger] ls[j]).contains(x) {
                let j = choose|j: int| 0 <= j < i && (#[trigger] ls[j]).contains(x);
                if j == i - 1 {
                    assert(texts(lists@[j]@).contains(x));
                }
            }
        }
    }
    // Count each tag that passes the prefix.
    let ghost keys = texts(all@);
    let mut out: Vec<(String, usize)> = Vec::new();
    let mut a: usize = 0;
    while a < all.len()
        invariant
            a <= all@.len(),
            keys == texts(all@),
            lists@.len() == ls.len(),
            forall|j: int| 0 <= j < lists@.len() ==> forall|x: Seq<char>| #[trigger] texts((#[trigger] lists@[j])@).contains(x) <==> ls[j].contains(x),
            keys.no_duplicates(),
            forall|x: Seq<char>| #[trigger] keys.contains(x) <==> exists|j: int| 0 <= j < ls.len() && (#[trigger] ls[j]).contains(x),
            pair_keys(out@).no_duplicates(),
            forall|q: int| 0 <= q < out@.len() ==> keys.take(a as int).contains(#[trigger] pair_keys(out@)[q]),
            forall|q: int|
                0 <= q < out@.len() ==> (#[trigger] out@[q]).1 == lists_with(ls, out@[q].0@) && out@[q].1 > 0
                    && prefix_ok(prefix, out@[q].0@),
            forall|b: int| 0 <= b < a && prefix_ok(prefix, #[trigger] keys[b]) ==> pair_keys(out@).contains(keys[b]),
        decreases all.len() - a,
    {
        let t = &all[a];
        let ghost before = pair_keys(out@);
        let ghost before_out = out@;
        assert(keys[a as int] == t@);
        let keep = match prefix {
            Some(p) => has_prefix(t, p),
            None => true,
        };
        if keep {
            let c = count_lists_with(&lists, t, Ghost(ls));
            proof {
                lemma_lists_with_bound(ls, t@);
                assert(keys.contains(t@));
                assert(c > 0);
                assert(keep == prefix_ok(prefix, t@));
                assert(!before.contains(t@)) by {
                    if before.contains(t@) {
                        let q = choose|q: int| 0 <= q < before.len() && before[q] == t@;
                        assert(keys.take(a as int).contains(before[q]));
                        let b = choose|b: int| 0 <= b < a && keys.take(a as int)[b] == t@;
                        assert(keys[b] == keys[a as int]);
                    }
                }
            }
            out.push((t.clone(), c));
            assert(pair_keys(out@) =~= before.push(t@));
        }
        proof {
            assert(keys.take(a + 1) =~= keys.take(a as int).push(t@));
            assert forall|q: int| 0 <= q < out@.len() implies keys.take(a + 1).contains(#[trigger] pair_keys(out@)[q]) by {
                lemma_push_contains(keys.take(a as int), t@, pair_keys(out@)[q]);
                if q < before.len() {
                    assert(pair_keys(out@)[q] == before[q]);
                }
            }
            assert forall|b: int| 0 <= b < a + 1 && prefix_ok(prefix, #[trigger] keys[b]) implies pair_keys(out@).contains(keys[b]) by {
                if keep {
                    lemma_push_contains(before, t@, keys[b]);
                }
            }
            assert forall|q: int| 0 <= q < out@.len() implies (#[trigger] out@[q]).1 == lists_with(ls, out@[q].0@) && out@[q].1 > 0
                && prefix_ok(prefix, out@[q].0@) by {
                if q < before_out.len() {
                    assert(out@[q] == before_out[q]);
                }
            }
        }
        a = a + 1;
    }
    proof {
        assert forall|x: Seq<char>| lists_with(ls, x) > 0 && prefix_ok(prefix, x) implies exists|i: int|
            0 <= i < out@.len() && (#[trigger] out@[i]).0@ == x by {
            lemma_lists_with_bound(ls, x);
            let j = choose|j: int| 0 <= j < ls.len() && (#[trigger] ls[j]).contains(x);
            assert(keys.contains(x));
            let b = choose|b: int| 0 <= b < keys.len() && keys[b] == x;
            assert(pair_keys(out@).contains(x));
            let q = choose|q: int| 0 <= q < pair_keys(out@).len() && pair_keys(out@)[q] == x;
            assert(out@[q].0@ == x);
        }
        assert forall|q: int, w: int| 0 <= q < w < out@.len() implies (#[trigger] out@[q]).0@ != (#[trigger] out@[w]).0@ by {
            assert(pair_keys(out@)[q] != pair_keys(out@)[w]);
        }
    }
    out
}

// ---------------------------------------------------------------------------
// Links
// ---------------------------------------------------------------------------

pub open spec fn http_text() -> Seq<char> {
    seq!['h', 't', 't', 'p']
}

pub open spec fn md_text() -> Seq<char> {
    seq!['.', 'm', 'd']
}

/// The path text a link points at: a wikilink's target (with `.md` added when
/// it has none), a markdown link's URL unless it starts with `http`; URLs and
/// addresses point at none.
pub open spec fn link_target_text(l: IndexLinkView) -> Option<Seq<char>> {
    match l {
        IndexLinkView::Wiki { target, .. } => Some(
            if ends_with(target, md_text()) {
                target
            } else {
                target + md_text()
            },
        ),
        IndexLinkView::Markdown { url, .. } => if starts_with(url, http_text()) {
            None
        } else {
            Some(url)
        },
        _ => None,
    }
}

/// The path a link points at, when its text is a vault path.
pub open spec fn link_target(l: IndexLinkView) -> Option<PathKey> {
    match link_target_text(l) {
        Some(t) => match vault_path_spec(t) {
            Ok(k) => Some(k),
            Err(_) => None,
        },
        None => None,
    }
}

fn link_target_exec(l: &IndexLink) -> (r: Option<VaultPath>)
    ensures
        match r {
            Some(p) => link_target(l@) == Some(p@),
            None => link_target(l@) is None,
        },
{
    proof {
        reveal_strlit(".md");
        reveal_strlit("http");
    }
    let text = match l {
        IndexLink::Wiki { target, .. } => {
            let v = chars_of(target.as_str());
            let n = v.len();
            if n >= 3 && crate::text::range_is(&v, n - 3, n, ".md") {
                assert(".md"@ =~= md_text());
                target.clone()
            } else {
                assert(".md"@ =~= md_text());
                assert(!ends_with(target@, md_text()));
                let mut t = target.clone();
                t.append(".md");
                t
            }
        },
        IndexLink::Markdown { url, .. } => {
            let v = chars_of(url.as_str());
            let n = v.len();
            assert("http"@ =~= http_text());
            if n >= 4 && crate::text::range_is(&v, 0, 4, "http") {
                return None;
            }
            url.clone()
        },
        _ => {
            return None;
        },
    };
    match VaultPath::new(text.as_str()) {
        Ok(p) => Some(p),
        Err(_) => None,
    }
}

/// The distinct paths the links point at, in order of first appearance.
pub fn link_target_paths(links: &Vec<IndexLink>) -> (r: Vec<VaultPath>)
    ensures
        path_views(r@).no_duplicates(),
        forall|k: PathKey| path_views(r@).contains(k) <==> exists|i: int|
            0 <= i < links@.len() && link_target((#[trigger] links@[i])@) == Some(k),
{
    let mut out: Vec<VaultPath> = Vec::new();
    let mut i: usize = 0;
    while i < links.len()
        invariant
            i <= links@.len(),
            path_views(out@).no_duplicates(),
            forall|k: PathKey| #[trigger] path_views(out@).contains(k) <==> exists|j: int|
                0 <= j < i && link_target((#[trigger] links@[j])@) == Some(k),
        decreases links.len() - i,
    {
        let ghost before = path_views(out@);
        match link_target_exec(&links[i]) {
            Some(p) => {
                if !path_in(&out, &p) {
                    out.push(p);
                    assert(path_views(out@) =~= before.push(out@.last()@));
                }
            },
            None => {},
        }
        i = i + 1;
        assert forall|k: PathKey| #[trigger] path_views(out@).contains(k) <==> exists|j: int|
            0 <= j < i && link_target((#[trigger] links@[j])@) == Some(k) by {
            if path_views(out@) != before {
                lemma_push_contains(before, path_views(out@).last(), k);
            }
            if exists|j: int| 0 <= j < i && link_target((#[trigger] links@[j])@) == Some(k) {
                let j = choose|j: int| 0 <= j < i && link_target((#[trigger] links@[j])@) == Some(k);
                if j < i - 1 {
                    assert(before.contains(k));
                }
            }
        }
    }
    out
}

fn path_in(ps: &Vec<VaultPath>, p: &VaultPath) -> (b: bool)
    ensures
        b == path_views(ps@).contains(p@),
{
    let mut i: usize = 0;
    while i < ps.len()
        invariant
            i <= ps.len(),
            forall|j: int| 0 <= j < i ==> (#[trigger] ps@[j])@ != p@,
        decreases ps.len() - i,
    {
        if ps[i].same_as(p) {
            assert(path_views(ps@)[i as int] == p@);
            return true;
        }
        i = i + 1;
    }
    proof {
        if path_views(ps@).contains(p@) {
            let j = choose|j: int| 0 <= j < path_views(ps@).len() && path_views(ps@)[j] == p@;
            assert(ps@[j]@ == p@);
        }
    }
    false
}

// ---------------------------------------------------------------------------
// Applying events
// ---------------------------------------------------------------------------

/// The tracker's tokens after the event: a creation or an update records the
/// new token, a deletion forgets the path.
pub open spec fn apply_event(m: Map<PathKey, Seq<char>>, ev: EventView) -> Map<PathKey, Seq<char>> {
    match ev {
        EventView::Created(k, tok) => m.insert(k, tok),
        EventView::Updated(k, tok) => m.insert(k, tok),
        EventView::Deleted(k) => m.remove(k),
    }
}

/// The tracker's tokens after the events, in order.
pub open spec fn apply_events(m: Map<PathKey, Seq<char>>, evs: Seq<EventView>) -> Map<PathKey, Seq<char>>
    decreases evs.len(),
{
    if evs.len() == 0 {
        m
    } else {
        apply_event(apply_events(m, evs.drop_last()), evs.last())
    }
}

proof fn lemma_apply_untouched(m: Map<PathKey, Seq<char>>, evs: Seq<EventView>, k: PathKey)
    requires
        forall|i: int| 0 <= i < evs.len() ==> event_key(#[trigger] evs[i]) != k,
    ensures
        apply_events(m, evs).contains_key(k) == m.contains_key(k),
        m.contains_key(k) ==> apply_events(m, evs)[k] == m[k],
    decreases evs.len(),
{
    if evs.len() > 0 {
        assert forall|i: int| 0 <= i < evs.drop_last().len() implies event_key(#[trigger] evs.drop_last()[i]) != k by {
            assert(evs.drop_last()[i] == evs[i]);
        }
        lemma_apply_untouched(m, evs.drop_last(), k);
        assert(event_key(evs[evs.len() - 1]) != k);
    }
}

proof fn lemma_apply_once(m: Map<PathKey, Seq<char>>, evs: Seq<EventView>, k: PathKey, i: int)
    requires
        0 <= i < evs.len(),
        event_key(evs[i]) == k,
        forall|j: int| 0 <= j < evs.len() && j != i ==> event_key(#[trigger] evs[j]) != k,
    ensures
        apply_events(m, evs).contains_key(k) == apply_event(m, evs[i]).contains_key(k),
        apply_events(m, evs).contains_key(k) ==> apply_events(m, evs)[k] == apply_event(m, evs[i])[k],
    decreases evs.len(),
{
    let rest = evs.drop_last();
    if i == evs.len() - 1 {
        assert forall|j: int| 0 <= j < rest.len() implies event_key(#[trigger] rest[j]) != k by {
            assert(rest[j] == evs[j]);
        }
        lemma_apply_untouched(m, rest, k);
    } else {
        assert forall|j: int| 0 <= j < rest.len() && j != i implies event_key(#[trigger] rest[j]) != k by {
            assert(rest[j] == evs[j]);
        }
        assert(rest[i] == evs[i]);
        lemma_apply_once(m, rest, k, i);
        assert(event_key(evs[evs.len() - 1]) != k);
    }
}

/// Recording the events that reconcile a tracker with storage — each expected
/// event once, in any order — leaves the tracker holding exactly the stored
/// tokens.
pub proof fn law_events_reconcile(s: Map<PathKey, Seq<char>>, t: Map<PathKey, Seq<char>>, evs: Seq<EventView>)
    requires
        forall|ev: EventView| evs.contains(ev) <==> expected_event(ev, s, t),
        evs.no_duplicates(),
    ensures
        apply_events(t, evs) == s,
{
    let r = apply_events(t, evs);
    assert forall|k: PathKey| #[trigger] r.contains_key(k) == s.contains_key(k) && (r.contains_key(k) ==> r[k] == s[k]) by {
        // Every event about `k` is the one expected event about `k`.
        let wanted: Option<EventView> = if s.contains_key(k) && !t.contains_key(k) {
            Some(EventView::Created(k, s[k]))
        } else if t.contains_key(k) && !s.contains_key(k) {
            Some(EventView::Deleted(k))
        } else if s.contains_key(k) && t.contains_key(k) && s[k] != t[k] {
            Some(EventView::Updated(k, s[k]))
        } else {
            None
        };
        assert forall|j: int| 0 <= j < evs.len() && event_key(#[trigger] evs[j]) == k implies wanted == Some(evs[j]) by {
            assert(evs.contains(evs[j]));
        }
        match wanted {
            Some(w) => {
                assert(expected_event(w, s, t));
                assert(evs.contains(w));
                let i = choose|i: int| 0 <= i < evs.len() && evs[i] == w;
                assert forall|j: int| 0 <= j < evs.len() && j != i implies event_key(#[trigger] evs[j]) != k by {
                    if event_key(evs[j]) == k {
                        assert(evs[j] == w);
                    }
                }
                lemma_apply_once(t, evs, k, i);
            },
            None => {
                assert forall|j: int| 0 <= j < evs.len() implies event_key(#[trigger] evs[j]) != k by {
                    if event_key(evs[j]) == k {
                        assert(wanted == Some(evs[j]));
                    }
                }
                lemma_apply_untouched(t, evs, k);
            },
        }
    }
    assert(r =~= s);
}

} // verus!
