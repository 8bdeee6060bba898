use tarn::core_logic::{replace_content, CoreError, UpdateMode};
use tarn::data_uri::DataURI;
use tarn::errors::NoteHandlerError;
use tarn::note_path::NotePath;
use tarn::section_store::IndexError;
use tarn::storage::StorageError;
use tarn::vault_path::{VaultPath, VaultPathError};

fn vp(s: &str) -> VaultPath {
    VaultPath::new(s).unwrap()
}

#[test]
fn index_error_messages() {
    assert_eq!(IndexError::NotFound(vp("a.md")).to_string(), "note not found: a.md");
    assert_eq!(IndexError::NotSupported.to_string(), "operation not supported by this backend");
    assert_eq!(IndexError::Corrupted("bad".to_string()).to_string(), "index corrupted: bad");
    assert_eq!(IndexError::Backend("down".to_string()).to_string(), "backend error: down");
}

#[test]
fn vault_and_note_path_error_messages() {
    assert_eq!(VaultPathError::Empty.to_string(), "vault path cannot be empty");
    assert_eq!(
        VaultPath::new("a/../b.md").unwrap_err().to_string(),
        "vault path cannot contain '..' traversal"
    );
    assert_eq!(
        VaultPathError::InvalidSubNotePath("x".to_string()).to_string(),
        "invalid sub-note path: x"
    );
    assert_eq!(NotePath::new("a.txt").unwrap_err().to_string(), "note path must have .md extension");
    assert_eq!(NotePath::new("").unwrap_err().to_string(), "note path cannot be empty");
}

#[test]
fn storage_error_wraps_path_error_message() {
    let e = StorageError::InvalidPath(VaultPathError::NotUnderRoot);
    assert_eq!(e.to_string(), "invalid path: path is not under root");
    let d = StorageError::InvalidData(vp("a.md"), "not utf-8".to_string());
    assert_eq!(d.to_string(), "invalid data at a.md: not utf-8");
}

#[test]
fn core_error_messages() {
    assert_eq!(CoreError::NoteNotFound(vp("n.md")).to_string(), "note not found: n.md");
    assert_eq!(CoreError::NotFolder(vp("n.md")).to_string(), "not a folder: n.md");
    assert_eq!(CoreError::NoMatch("zz".to_string()).to_string(), "no match found for: zz");
    assert_eq!(
        CoreError::Index(IndexError::NotSupported).to_string(),
        "operation not supported by this backend"
    );
    assert_eq!(
        CoreError::Parse(NoteHandlerError::InvalidLink).to_string(),
        "parse error: not a recognized link syntax"
    );
}

#[test]
fn invalid_regex_message_has_its_prefix() {
    let e = replace_content("text", "(", "x", UpdateMode::Regex).unwrap_err();
    let m = e.to_string();
    assert!(m.starts_with("invalid regex: "));
    assert!(m.len() > "invalid regex: ".len());
}

#[test]
fn data_uri_error_messages() {
    assert_eq!(DataURI::parse("text/plain;base64,AA==").unwrap_err().to_string(), "missing 'data:' prefix");
    assert_eq!(DataURI::parse("data:text/plain,AA==").unwrap_err().to_string(), "missing ';base64,' separator");
    assert_eq!(DataURI::parse("data:;base64,AA==").unwrap_err().to_string(), "empty MIME type");
    let m = DataURI::parse("data:image/png;base64,!!!").unwrap_err().to_string();
    assert!(m.starts_with("invalid base64 data: "));
    assert!(m.len() > "invalid base64 data: ".len());
}
