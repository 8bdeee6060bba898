//! Live file changes: what a watcher reports and the events made of it.
use std::path::PathBuf;
use vstd::prelude::*;

use crate::core_logic::{EventView, StorageEvent};
use crate::native::path_buf_text_of;
use crate::revisions::RevisionToken;
use crate::text::owned;
use crate::vault_path::VaultPath;

verus! {

/// Errors of a watcher.
#[derive(Debug)]
pub enum ObserverError {
    WatchFailed(PathBuf, String),
}

impl ObserverError {
    /// The message of the error, with the platform path read as text.
    pub open spec fn message(&self) -> Seq<char> {
        match self {
            ObserverError::WatchFailed(p, m) => "failed to start watcher for "@ + path_buf_text_of(p) + ": "@
                + m@,
        }
    }

    /// The message of the error.
    pub fn to_string(&self) -> (r: String)
        ensures
            r@ == self.message(),
    {
        match self {
            ObserverError::WatchFailed(p, m) => {
                let mut s = owned("failed to start watcher for ");
                let t = crate::native::path_buf_text(p);
                s.append(t.as_str());
                s.append(": ");
                s.append(m.as_str());
                s
            },
        }
    }
}

/// How a watcher is set up: the folder it watches.
#[derive(Debug)]
pub enum ObserverConfig {
    Local { path: PathBuf },
}

/// A watcher of a vault folder on the local file system.
pub struct LocalStorageObserver {
    pub path: PathBuf,
}

impl LocalStorageObserver {
    pub fn new(path: PathBuf) -> (r: LocalStorageObserver)
        ensures
            r.path == path,
    {
        LocalStorageObserver { path }
    }
}

/// The kinds of change a watcher reports.
#[derive(Debug, Clone, Copy, PartialEq, Eq, Structural)]
pub enum ChangeKind {
    Create,
    Modify,
    Remove,
    Other,
}

/// The event for a change of `kind` at a path with token `token` (read after
/// the change, `None` when it could not be read).
pub open spec fn change_event(kind: ChangeKind, path: (crate::vault_path::VaultPathKind, Seq<char>), token: Option<Seq<char>>) -> Option<EventView> {
    match kind {
        ChangeKind::Create => match token {
            Some(t) => Some(EventView::Created(path, t)),
            None => None,
        },
        ChangeKind::Modify => match token {
            Some(t) => Some(EventView::Updated(path, t)),
            None => None,
        },
        ChangeKind::Remove => Some(EventView::Deleted(path)),
        ChangeKind::Other => None,
    }
}

/// The events of a change of `kind` at the paths `paths`, each with the token
/// read for it: a creation or a modification of a path whose token could not be
/// read gives no event, other kinds of change give none.
pub fn change_events(kind: ChangeKind, paths: &Vec<(VaultPath, Option<RevisionToken>)>) -> (r: Vec<StorageEvent>)
    ensures
        crate::core_logic::event_views(r@) == changed(kind, paths@),
{
    let mut out: Vec<StorageEvent> = Vec::new();
    let mut i: usize = 0;
    while i < paths.len()
        invariant
            i <= paths@.len(),
            crate::core_logic::event_views(out@) == changed(kind, paths@.take(i as int)),
        decreases paths.len() - i,
    {
        let ghost before = crate::core_logic::event_views(out@);
        let p = &paths[i].0;
        assert(paths@.take(i + 1).drop_last() =~= paths@.take(i as int));
        match (kind, &paths[i].1) {
            (ChangeKind::Create, Some(tok)) => out.push(StorageEvent::Created { path: p.clone(), token: tok.clone() }),
            (ChangeKind::Modify, Some(tok)) => out.push(StorageEvent::Updated { path: p.clone(), token: tok.clone() }),
            (ChangeKind::Remove, _) => out.push(StorageEvent::Deleted { path: p.clone() }),
            _ => {},
        }
        i = i + 1;
        assert(crate::core_logic::event_views(out@) =~= changed(kind, paths@.take(i as int)));
    }
    assert(paths@.take(i as int) =~= paths@);
    out
}

/// The events for the paths `ps` in order.
pub open spec fn changed(kind: ChangeKind, ps: Seq<(VaultPath, Option<RevisionToken>)>) -> Seq<EventView>
    decreases ps.len(),
{
    if ps.len() == 0 {
        Seq::empty()
    } else {
        changed(kind, ps.drop_last()) + match change_event(kind, ps.last().0@, token_view(ps.last().1)) {
            Some(e) => seq![e],
            None => Seq::empty(),
        }
    }
}

pub open spec fn token_view(t: Option<RevisionToken>) -> Option<Seq<char>> {
    match t {
        Some(x) => Some(x@),
        None => None,
    }
}

} // verus!
