use std::path::{Path, PathBuf};

use tarn::vault_path::{VaultPath, VaultPathError};

#[test]
fn detects_note() {
    let path = VaultPath::new("note.md").unwrap();
    assert!(path.is_note());
    assert!(!path.is_folder());
    assert!(!path.is_image());
    assert!(!path.is_section());
    assert_eq!(path.as_str(), "note.md");
    assert_eq!(path.stem(), "note");
}

#[test]
fn detects_image_kinds() {
    for ext in [
        "png", "jpg", "jpeg", "gif", "bmp", "webp", "svg", "ico", "tiff", "tif",
    ] {
        let path = VaultPath::new(&format!("image.{ext}")).unwrap();
        assert!(path.is_image(), "Failed for {ext}");
    }
}

#[test]
fn detects_folder() {
    let path = VaultPath::new("projects/").unwrap();
    assert!(path.is_folder());
    assert!(!path.is_root());

    let nested = VaultPath::new("projects/alpha/").unwrap();
    assert!(nested.is_folder());
}

#[test]
fn detects_other() {
    let path = VaultPath::new("data.json").unwrap();
    assert!(matches!(path, VaultPath::Other(_)));

    let path = VaultPath::new("script.py").unwrap();
    assert!(matches!(path, VaultPath::Other(_)));
}

#[test]
fn detects_section() {
    let path = VaultPath::new("note.md#Goals").unwrap();
    assert!(path.is_section());
    assert_eq!(path.as_str(), "note.md#Goals");

    let path = VaultPath::new("folder/note.md#Goals/Q1").unwrap();
    assert!(path.is_section());
    assert_eq!(path.section_headings(), vec!["Goals", "Q1"]);

    // Root section (no heading)
    let path = VaultPath::new("note.md#").unwrap();
    assert!(path.is_section());
    assert!(path.section_headings().is_empty());
}

#[test]
fn detects_block() {
    let path = VaultPath::new("note.md#^block-id").unwrap();
    assert!(path.is_block());
    assert!(!path.is_section());
    assert_eq!(path.as_str(), "note.md#^block-id");
    assert_eq!(path.block_id(), Some("block-id"));

    let path = VaultPath::new("folder/note.md#^quote-of-the-day").unwrap();
    assert!(path.is_block());
    assert_eq!(path.block_id(), Some("quote-of-the-day"));

    // Block with just caret and id
    let path = VaultPath::new("note.md#^37066d").unwrap();
    assert!(path.is_block());
    assert_eq!(path.block_id(), Some("37066d"));
}

#[test]
fn block_note_path() {
    let block = VaultPath::new("folder/note.md#^block-id").unwrap();
    assert_eq!(
        block.note_path(),
        Some(VaultPath::new("folder/note.md").unwrap())
    );
}

#[test]
fn block_parent_is_note() {
    let block = VaultPath::new("folder/note.md#^block-id").unwrap();
    assert_eq!(
        block.parent(),
        Some(VaultPath::new("folder/note.md").unwrap())
    );
}

#[test]
fn block_path_buf_returns_note() {
    let block = VaultPath::new("folder/note.md#^block-id").unwrap();
    assert_eq!(block.as_path_buf(), PathBuf::from("folder/note.md"));
}

#[test]
fn block_stem_and_extension() {
    let block = VaultPath::new("folder/note.md#^block-id").unwrap();
    assert_eq!(block.stem(), "note");
    assert_eq!(block.extension().as_deref(), Some("md"));
}

#[test]
fn block_is_under_folder() {
    let block = VaultPath::new("projects/note.md#^block-id").unwrap();
    let projects = VaultPath::new("projects/").unwrap();
    assert!(block.is_under_folder(&projects));

    let other = VaultPath::new("other/").unwrap();
    assert!(!block.is_under_folder(&other));
}

#[test]
fn block_section_headings_empty() {
    let block = VaultPath::new("note.md#^block-id").unwrap();
    assert!(block.section_headings().is_empty());
}

#[test]
fn block_id_none_for_non_block() {
    let note = VaultPath::new("note.md").unwrap();
    assert_eq!(note.block_id(), None);

    let section = VaultPath::new("note.md#Goals").unwrap();
    assert_eq!(section.block_id(), None);
}

#[test]
fn sub_note_path_requires_md_note() {
    let err = VaultPath::new("data.json#something").unwrap_err();
    assert!(matches!(err, VaultPathError::InvalidSubNotePath(_)));

    let err = VaultPath::new("#heading").unwrap_err();
    assert!(matches!(err, VaultPathError::InvalidSubNotePath(_)));

    let err = VaultPath::new("data.json#^block").unwrap_err();
    assert!(matches!(err, VaultPathError::InvalidSubNotePath(_)));
}

#[test]
fn section_note_path() {
    let section = VaultPath::new("folder/note.md#Goals/Q1").unwrap();
    assert_eq!(
        section.note_path(),
        Some(VaultPath::new("folder/note.md").unwrap())
    );

    let note = VaultPath::new("folder/note.md").unwrap();
    assert_eq!(note.note_path(), Some(note.clone()));

    let folder = VaultPath::new("folder/").unwrap();
    assert_eq!(folder.note_path(), None);
}

#[test]
fn extension_detection() {
    assert_eq!(VaultPath::new("note.md").unwrap().extension().as_deref(), Some("md"));
    assert_eq!(
        VaultPath::new("file.tar.gz").unwrap().extension().as_deref(),
        Some("gz")
    );
    assert_eq!(VaultPath::new("noext").unwrap().extension().as_deref(), None);
    assert_eq!(VaultPath::new(".gitignore").unwrap().extension().as_deref(), None);
    assert_eq!(
        VaultPath::new(".config.json").unwrap().extension().as_deref(),
        Some("json")
    );
    assert_eq!(VaultPath::new("folder/").unwrap().extension().as_deref(), None);
    // Section returns note's extension
    assert_eq!(
        VaultPath::new("note.md#Heading").unwrap().extension().as_deref(),
        Some("md")
    );
}

#[test]
fn vault_path_valid_nested_path() {
    let path = VaultPath::new("projects/alpha/design.md").unwrap();
    assert_eq!(path.as_str(), "projects/alpha/design.md");
    assert_eq!(path.stem(), "design");
    assert_eq!(
        path.parent(),
        Some(VaultPath::new("projects/alpha/").unwrap())
    );
}

#[test]
fn vault_path_normalizes_backslashes() {
    let path = VaultPath::new(r"projects\alpha\design.md").unwrap();
    assert_eq!(path.as_str(), "projects/alpha/design.md");
}

#[test]
fn vault_path_normalizes_mixed_separators() {
    let path = VaultPath::new(r"projects/alpha\beta/note.md").unwrap();
    assert_eq!(path.as_str(), "projects/alpha/beta/note.md");
}

#[test]
fn vault_path_strips_leading_slash() {
    let path = VaultPath::new("/projects/note.md").unwrap();
    assert_eq!(path.as_str(), "projects/note.md");
}

#[test]
fn vault_path_strips_leading_backslash() {
    let path = VaultPath::new(r"\projects\note.md").unwrap();
    assert_eq!(path.as_str(), "projects/note.md");
}

#[test]
fn root_folder() {
    let root = VaultPath::new("").unwrap();
    assert!(root.is_root());
    assert!(root.is_folder());
    assert_eq!(root.as_str(), "");
}

#[test]
fn rejects_bare_separator_as_root() {
    assert_eq!(
        VaultPath::new("/").unwrap_err(),
        VaultPathError::InvalidRoot
    );
    assert_eq!(
        VaultPath::new("\\").unwrap_err(),
        VaultPathError::InvalidRoot
    );
    assert_eq!(
        VaultPath::new("///").unwrap_err(),
        VaultPathError::InvalidRoot
    );
    assert_eq!(
        VaultPath::new("\\\\/").unwrap_err(),
        VaultPathError::InvalidRoot
    );
}

#[test]
fn vault_path_rejects_path_traversal() {
    let err = VaultPath::new("../secret/note.md").unwrap_err();
    assert_eq!(err, VaultPathError::PathTraversal);

    let err = VaultPath::new("projects/../note.md").unwrap_err();
    assert_eq!(err, VaultPathError::PathTraversal);
}

#[test]
fn parent_hierarchy() {
    // Section -> Note
    let section = VaultPath::new("folder/note.md#Goals/Q1").unwrap();
    assert_eq!(
        section.parent(),
        Some(VaultPath::new("folder/note.md").unwrap())
    );

    // Note -> Folder
    let note = VaultPath::new("folder/note.md").unwrap();
    assert_eq!(note.parent(), Some(VaultPath::new("folder/").unwrap()));

    // Note at root level -> None
    let root_file = VaultPath::new("note.md").unwrap();
    assert_eq!(root_file.parent(), None);

    // Folder -> parent Folder
    let folder = VaultPath::new("projects/alpha/").unwrap();
    assert_eq!(folder.parent(), Some(VaultPath::new("projects/").unwrap()));

    // Top-level Folder -> Root
    let top_folder = VaultPath::new("projects/").unwrap();
    assert_eq!(top_folder.parent(), Some(VaultPath::Root));

    // Root -> None
    assert_eq!(VaultPath::Root.parent(), None);

    // Image -> Folder
    let img = VaultPath::new("assets/logo.png").unwrap();
    assert_eq!(img.parent(), Some(VaultPath::new("assets/").unwrap()));
}

#[test]
fn is_in_folder() {
    let root_folder = VaultPath::new("projects/alpha/").unwrap();
    let path = VaultPath::new("projects/alpha/note.md").unwrap();
    assert!(path.is_in_folder(&root_folder));

    let other_folder = VaultPath::new("projects/").unwrap();
    assert!(!path.is_in_folder(&other_folder));
}

#[test]
fn vault_path_is_under_folder() {
    let projects = VaultPath::new("projects/").unwrap();
    let alpha = VaultPath::new("projects/alpha/").unwrap();
    let path = VaultPath::new("projects/alpha/note.md").unwrap();

    assert!(path.is_under_folder(&projects));
    assert!(path.is_under_folder(&alpha));

    let beta = VaultPath::new("projects/beta/").unwrap();
    assert!(!path.is_under_folder(&beta));

    let other = VaultPath::new("other/").unwrap();
    assert!(!path.is_under_folder(&other));
}

#[test]
fn vault_path_is_under_folder_no_partial_match() {
    let path = VaultPath::new("projects-old/note.md").unwrap();
    let projects = VaultPath::new("projects/").unwrap();
    assert!(!path.is_under_folder(&projects));
}

#[test]
fn is_under_folder_requires_folder() {
    let path = VaultPath::new("projects/note.md").unwrap();
    let file = VaultPath::new("projects").unwrap();
    assert!(!path.is_under_folder(&file));
}

#[test]
fn section_is_under_folder() {
    let section = VaultPath::new("projects/alpha/note.md#Goals").unwrap();
    let projects = VaultPath::new("projects/").unwrap();
    assert!(section.is_under_folder(&projects));

    let other = VaultPath::new("other/").unwrap();
    assert!(!section.is_under_folder(&other));
}

#[test]
fn vault_path_from_path_relative() {
    let root = Path::new("/vault");
    let path = Path::new("/vault/projects/note.md");
    let vault_path = VaultPath::from_path(path, root).unwrap();
    assert_eq!(vault_path.as_str(), "projects/note.md");
}

#[test]
fn from_path_not_under_root() {
    let root = Path::new("/vault");
    let path = Path::new("/other/note.md");
    let err = VaultPath::from_path(path, root).unwrap_err();
    assert_eq!(err, VaultPathError::NotUnderRoot);
}

#[test]
fn vault_path_display_and_to_string() {
    let path = VaultPath::new("projects/note.md").unwrap();
    assert_eq!(path.to_string(), "projects/note.md");
    assert_eq!(format!("{}", path.to_string()), "projects/note.md");
}

#[test]
fn vault_path_to_path_buf() {
    let path = VaultPath::new("projects/note.md").unwrap();
    let pb = path.as_path_buf();
    assert_eq!(pb, PathBuf::from("projects/note.md"));

    // Section returns note portion only
    let section = VaultPath::new("projects/note.md#Goals").unwrap();
    assert_eq!(section.as_path_buf(), PathBuf::from("projects/note.md"));
}

#[test]
fn vault_path_parse_from_str() {
    let path: VaultPath = "daily/2024-03-14.md".parse().unwrap();
    assert_eq!(path.as_str(), "daily/2024-03-14.md");
}

#[test]
fn vault_path_try_from_implementations() {
    let from_string: VaultPath = String::from("note.md").try_into().unwrap();
    assert_eq!(from_string.as_str(), "note.md");

    let from_str: VaultPath = "note.md".try_into().unwrap();
    assert_eq!(from_str.as_str(), "note.md");

    let from_pathbuf: VaultPath = PathBuf::from("note.md").try_into().unwrap();
    assert_eq!(from_pathbuf.as_str(), "note.md");
}

#[test]
fn is_note_image_folder() {
    let note = VaultPath::new("test.md").unwrap();
    assert!(note.is_note());
    assert!(!note.is_image());
    assert!(!note.is_folder());

    let img = VaultPath::new("test.png").unwrap();
    assert!(!img.is_note());
    assert!(img.is_image());
    assert!(!img.is_folder());

    let folder = VaultPath::new("test/").unwrap();
    assert!(!folder.is_note());
    assert!(!folder.is_image());
    assert!(folder.is_folder());

    let other = VaultPath::new("test.json").unwrap();
    assert!(!other.is_note());
    assert!(!other.is_image());
    assert!(!other.is_folder());
}

#[test]
fn folder_stem() {
    let folder = VaultPath::new("projects/").unwrap();
    assert_eq!(folder.stem(), "projects");

    let nested = VaultPath::new("projects/alpha/").unwrap();
    assert_eq!(nested.stem(), "alpha");
}

#[test]
fn section_stem() {
    let section = VaultPath::new("projects/note.md#Goals").unwrap();
    assert_eq!(section.stem(), "note");
}

#[test]
fn ends_with_suffix() {
    let path = VaultPath::new("projects/design.md").unwrap();
    assert!(path.ends_with(".md"));
    assert!(path.ends_with("design.md"));
    assert!(!path.ends_with(".txt"));
}

#[test]
fn is_under_root_folder() {
    let root = VaultPath::new("").unwrap();
    let path = VaultPath::new("projects/note.md").unwrap();
    assert!(path.is_under_folder(&root));

    let folder = VaultPath::new("projects/").unwrap();
    assert!(folder.is_under_folder(&root));
}

#[test]
fn try_from_path_ref() {
    let path = std::path::Path::new("note.md");
    let vault_path: VaultPath = path.try_into().unwrap();
    assert_eq!(vault_path.as_str(), "note.md");
}

#[test]
fn extension_is_lowercased() {
    let v = VaultPath::new("Data.JSON").unwrap();
    assert_eq!(v.extension().as_deref(), Some("json"));
    assert_eq!(VaultPath::new("photo.PNG").unwrap().extension().as_deref(), Some("png"));
}

#[test]
fn from_path_never_gives_section_or_block() {
    let root = Path::new("/vault");
    let err = VaultPath::from_path(Path::new("/vault/note.md#x"), root).unwrap_err();
    assert!(matches!(err, VaultPathError::InvalidSubNotePath(_)));
    let err = VaultPath::from_path(Path::new("/vault/note.md#^b"), root).unwrap_err();
    assert!(matches!(err, VaultPathError::InvalidSubNotePath(_)));
    assert_eq!(VaultPath::from_path(Path::new("/vault/a/b.md"), root).unwrap().as_str(), "a/b.md");
}

#[test]
fn section_as_path_buf_is_its_note() {
    let b = VaultPath::new("x/n.md#^id").unwrap();
    assert_eq!(b.as_path_buf(), PathBuf::from("x/n.md"));
}
