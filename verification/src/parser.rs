//! The line-based note parser: sections with byte offsets and inline tags.
pub mod sections;
pub mod tags;
