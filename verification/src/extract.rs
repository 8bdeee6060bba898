//! A common interface for reading structured items out of Markdown text.
use vstd::prelude::*;

verus! {

/// Reads items of one kind (tags, links, tasks, headings, sections) out of text.
///
/// Each implementation states in its own contract what it reads.
pub trait ExtractFrom: Sized {
    /// What is read: a collection of items, or an optional item.
    type Output;

    /// Reads the items of `text`.
    fn extract_from(text: &str) -> Self::Output;
}

} // verus!
