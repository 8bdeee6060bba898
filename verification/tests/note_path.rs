use std::path::{Path, PathBuf};

use tarn::note_path::{NotePath, NotePathError};

#[test]
fn valid_simple_path() {
    let path = NotePath::new("note.md").unwrap();
    assert_eq!(path.as_str(), "note.md");
    assert_eq!(path.stem(), "note");
    assert_eq!(path.parent(), None);
}

#[test]
fn note_path_valid_nested_path() {
    let path = NotePath::new("projects/alpha/design.md").unwrap();
    assert_eq!(path.as_str(), "projects/alpha/design.md");
    assert_eq!(path.stem(), "design");
    assert_eq!(path.parent(), Some("projects/alpha"));
}

#[test]
fn note_path_normalizes_backslashes() {
    let path = NotePath::new(r"projects\alpha\design.md").unwrap();
    assert_eq!(path.as_str(), "projects/alpha/design.md");
}

#[test]
fn note_path_normalizes_mixed_separators() {
    let path = NotePath::new(r"projects/alpha\beta/note.md").unwrap();
    assert_eq!(path.as_str(), "projects/alpha/beta/note.md");
}

#[test]
fn note_path_strips_leading_slash() {
    let path = NotePath::new("/projects/note.md").unwrap();
    assert_eq!(path.as_str(), "projects/note.md");
}

#[test]
fn note_path_strips_leading_backslash() {
    let path = NotePath::new(r"\projects\note.md").unwrap();
    assert_eq!(path.as_str(), "projects/note.md");
}

#[test]
fn rejects_non_md_extension() {
    let err = NotePath::new("note.txt").unwrap_err();
    assert_eq!(err, NotePathError::InvalidExtension);
}

#[test]
fn rejects_no_extension() {
    let err = NotePath::new("note").unwrap_err();
    assert_eq!(err, NotePathError::InvalidExtension);
}

#[test]
fn rejects_empty_path() {
    let err = NotePath::new("").unwrap_err();
    assert_eq!(err, NotePathError::Empty);
}

#[test]
fn note_path_rejects_path_traversal() {
    let err = NotePath::new("../secret/note.md").unwrap_err();
    assert_eq!(err, NotePathError::PathTraversal);

    let err = NotePath::new("projects/../note.md").unwrap_err();
    assert_eq!(err, NotePathError::PathTraversal);
}

#[test]
fn is_in_folder_root() {
    let path = NotePath::new("note.md").unwrap();
    assert!(path.is_in_folder(""));
    assert!(path.is_in_folder("/"));
    assert!(!path.is_in_folder("projects"));
}

#[test]
fn is_in_folder_nested() {
    let path = NotePath::new("projects/alpha/note.md").unwrap();
    assert!(path.is_in_folder("projects/alpha"));
    assert!(path.is_in_folder("/projects/alpha/"));
    assert!(!path.is_in_folder("projects"));
    assert!(!path.is_in_folder(""));
}

#[test]
fn note_path_is_under_folder() {
    let path = NotePath::new("projects/alpha/note.md").unwrap();
    assert!(path.is_under_folder(""));
    assert!(path.is_under_folder("projects"));
    assert!(path.is_under_folder("projects/alpha"));
    assert!(!path.is_under_folder("projects/beta"));
    assert!(!path.is_under_folder("other"));
}

#[test]
fn note_path_is_under_folder_no_partial_match() {
    let path = NotePath::new("projects-old/note.md").unwrap();
    assert!(!path.is_under_folder("projects"));
}

#[test]
fn note_path_from_path_relative() {
    let root = Path::new("/vault");
    let path = Path::new("/vault/projects/note.md");
    let note_path = NotePath::from_path(path, root).unwrap();
    assert_eq!(note_path.as_str(), "projects/note.md");
}

#[test]
fn note_path_display_and_to_string() {
    let path = NotePath::new("projects/note.md").unwrap();
    assert_eq!(path.to_string(), "projects/note.md");
    assert_eq!(format!("{}", path.to_string()), "projects/note.md");
}

#[test]
fn note_path_to_path_buf() {
    let path = NotePath::new("projects/note.md").unwrap();
    let pb = path.as_path_buf();
    assert_eq!(pb, PathBuf::from("projects/note.md"));
}

#[test]
fn note_path_parse_from_str() {
    let path: NotePath = "daily/2024-03-14.md".parse().unwrap();
    assert_eq!(path.as_str(), "daily/2024-03-14.md");
}

#[test]
fn note_path_try_from_implementations() {
    let from_string: NotePath = String::from("note.md").try_into().unwrap();
    assert_eq!(from_string.as_str(), "note.md");

    let from_str: NotePath = "note.md".try_into().unwrap();
    assert_eq!(from_str.as_str(), "note.md");

    let from_pathbuf: NotePath = PathBuf::from("note.md").try_into().unwrap();
    assert_eq!(from_pathbuf.as_str(), "note.md");
}

#[test]
fn note_path_from_path_not_under_root_fails() {
    let root = Path::new("/vault");
    let path = Path::new("/other/note.md");
    assert_eq!(NotePath::from_path(path, root).unwrap_err(), NotePathError::NotUnderRoot);
    assert_eq!(NotePathError::NotUnderRoot.to_string(), "path is not under root");
}

#[test]
fn note_path_try_from_path_ref() {
    let p: NotePath = NotePath::try_from(Path::new("a/b.md")).unwrap();
    assert_eq!(p.as_str(), "a/b.md");
    assert_eq!(NotePath::try_from(Path::new("a/b.txt")).unwrap_err(), NotePathError::InvalidExtension);
}
