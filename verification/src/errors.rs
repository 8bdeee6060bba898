//! Errors of note parsing.
use vstd::prelude::*;

use crate::text::owned;

verus! {

/// Why a note, a tag or a link could not be parsed.
#[derive(Debug, Clone)]
pub enum NoteHandlerError {
    InvalidFrontmatter(String),
    InvalidTag { tag: String },
    InvalidLink,
}

/// The message of a `NoteHandlerError`.
pub open spec fn note_handler_message(e: NoteHandlerError) -> Seq<char> {
    match e {
        NoteHandlerError::InvalidFrontmatter(m) => "invalid frontmatter YAML: "@ + m@,
        NoteHandlerError::InvalidTag { tag } => "invalid tag `"@ + tag@
            + "`: must contain only alphanumeric characters, underscores, hyphens, or slashes, and cannot be purely numeric"@,
        NoteHandlerError::InvalidLink => "not a recognized link syntax"@,
    }
}

impl NoteHandlerError {
    /// The error's message.
    pub fn to_string(&self) -> (r: String)
        ensures
            r@ == note_handler_message(*self),
    {
        match self {
            NoteHandlerError::InvalidFrontmatter(m) => {
                let mut s = owned("invalid frontmatter YAML: ");
                s.append(m.as_str());
                s
            },
            NoteHandlerError::InvalidTag { tag } => {
                let mut s = owned("invalid tag `");
                s.append(tag.as_str());
                s.append(
                    "`: must contain only alphanumeric characters, underscores, hyphens, or slashes, and cannot be purely numeric",
                );
                s
            },
            NoteHandlerError::InvalidLink => owned("not a recognized link syntax"),
        }
    }
}

} // verus!
