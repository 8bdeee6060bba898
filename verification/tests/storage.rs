use tarn::revisions::RevisionToken;
use tarn::storage::{error_for_kind, IoErrorKind, plan_write, WritePlan, check_token, map_io_error, mime_from_extension, revision_token, revision_token_of, AccessPolicy, StorageError};
use tarn::vault_path::{VaultPath, VaultPathError};

fn vp(s: &str) -> VaultPath {
    VaultPath::new(s).unwrap()
}

#[test]
fn mime_types_of_images() {
    assert_eq!(mime_from_extension("png"), "image/png");
    assert_eq!(mime_from_extension("jpg"), "image/jpeg");
    assert_eq!(mime_from_extension("jpeg"), "image/jpeg");
    assert_eq!(mime_from_extension("gif"), "image/gif");
    assert_eq!(mime_from_extension("bmp"), "image/bmp");
    assert_eq!(mime_from_extension("webp"), "image/webp");
    assert_eq!(mime_from_extension("svg"), "image/svg+xml");
    assert_eq!(mime_from_extension("ico"), "image/x-icon");
    assert_eq!(mime_from_extension("tiff"), "image/tiff");
    assert_eq!(mime_from_extension("tif"), "image/tiff");
}

#[test]
fn token_text_is_nanos_and_size() {
    assert_eq!(revision_token_of(1700000000123456789, 42).as_str(), "1700000000123456789:42");
    assert_eq!(revision_token_of(0, 0).as_str(), "0:0");
    assert_eq!(revision_token_of(10, 100).as_str(), "10:100");
}

#[test]
fn token_from_system_time() {
    let t = std::time::UNIX_EPOCH + std::time::Duration::from_nanos(1500);
    let tok = revision_token(&vp("a.md"), &t, 7).unwrap();
    assert_eq!(tok.as_str(), "1500:7");
}

#[test]
fn token_before_epoch_is_invalid_data() {
    let t = std::time::UNIX_EPOCH - std::time::Duration::from_secs(5);
    assert!(matches!(revision_token(&vp("a.md"), &t, 7), Err(StorageError::InvalidData(_, _))));
}

#[test]
fn check_token_conflict() {
    let p = vp("a.md");
    assert!(check_token(&p, &RevisionToken::from("1:1"), RevisionToken::from("1:1")).is_ok());
    match check_token(&p, &RevisionToken::from("1:1"), RevisionToken::from("2:2")) {
        Err(StorageError::Conflict(path, e, a)) => {
            assert_eq!(path.as_str(), "a.md");
            assert_eq!(e.as_str(), "1:1");
            assert_eq!(a.as_str(), "2:2");
        }
        other => panic!("expected conflict, got {:?}", other),
    }
}

#[test]
fn conflict_message() {
    let e = StorageError::Conflict(vp("a.md"), RevisionToken::from("1:1"), RevisionToken::from("2:2"));
    assert_eq!(e.to_string(), "write conflict: a.md (expected: 1:1, actual: 2:2)");
    assert_eq!(StorageError::NotFound(vp("x.md")).to_string(), "file not found: x.md");
    assert_eq!(StorageError::FileAlreadyExists(vp("x.md")).to_string(), "file x.md already exists");
}

#[test]
fn io_errors_are_mapped() {
    let p = vp("a.md");
    let nf = std::io::Error::new(std::io::ErrorKind::NotFound, "nope");
    assert!(matches!(map_io_error(&p, nf), StorageError::NotFound(_)));
    let pd = std::io::Error::new(std::io::ErrorKind::PermissionDenied, "nope");
    assert!(matches!(map_io_error(&p, pd), StorageError::PermissionDenied(_)));
    let other = std::io::Error::other("boom");
    assert!(matches!(map_io_error(&p, other), StorageError::Io(_, _)));
}

#[test]
fn invalid_path_converts() {
    let e: StorageError = VaultPathError::Empty.into();
    assert!(matches!(e, StorageError::InvalidPath(VaultPathError::Empty)));
}

#[test]
fn access_lists_guard_operations() {
    let mut policy = AccessPolicy::new();
    let secret = vp("secret.md");
    let ro = vp("ro.md");
    let free = vp("free.md");
    assert!(policy.check_write(&secret).is_ok());
    policy.deny_access(&vec![secret.clone()]);
    policy.read_only_access(&vec![ro.clone()]);
    assert!(policy.is_denied(&secret));
    assert!(!policy.is_denied(&ro));
    assert!(policy.is_read_only(&ro));
    assert!(matches!(policy.check_read(&secret), Err(StorageError::PermissionDenied(_))));
    assert!(policy.check_read(&ro).is_ok());
    assert!(matches!(policy.check_write(&ro), Err(StorageError::PermissionDenied(_))));
    assert!(policy.check_write(&free).is_ok());
    match policy.check_move(&free, &ro) {
        Err(StorageError::PermissionDenied(p)) => assert_eq!(p.as_str(), "ro.md"),
        other => panic!("unexpected {:?}", other),
    }
    assert!(policy.check_copy(&ro, &free).is_ok());
    assert!(policy.check_copy(&free, &ro).is_err());
    policy.deny_access(&vec![]);
    assert!(policy.check_read(&secret).is_ok());
}

#[test]
fn write_plans() {
    let p = vp("a.md");
    assert!(matches!(plan_write(&p, false, None), Ok(WritePlan::Create)));
    assert!(matches!(plan_write(&p, false, Some(RevisionToken::from("1:1"))), Ok(WritePlan::Create)));
    match plan_write(&p, true, Some(RevisionToken::from("1:1"))) {
        Ok(WritePlan::Overwrite(t)) => assert_eq!(t.as_str(), "1:1"),
        other => panic!("unexpected {:?}", other),
    }
    assert!(matches!(plan_write(&p, true, None), Err(StorageError::FileAlreadyExists(_))));
}

#[test]
fn error_for_kind_by_each_kind() {
    let p = vp("n.md");
    let e = || std::io::Error::new(std::io::ErrorKind::Other, "x");
    assert!(matches!(error_for_kind(&p, IoErrorKind::NotFound, e()), StorageError::NotFound(_)));
    assert!(matches!(error_for_kind(&p, IoErrorKind::PermissionDenied, e()), StorageError::PermissionDenied(_)));
    match error_for_kind(&p, IoErrorKind::Other, e()) {
        StorageError::Io(q, err) => {
            assert_eq!(q, p);
            assert_eq!(err.to_string(), "x");
        },
        other => panic!("unexpected {:?}", other),
    }
}
