//! What the vault storage decides and reports: its errors, file metadata and
//! content, revision tokens (`<mtime nanos>:<size>`), the MIME types of images,
//! and the deny and read-only lists that guard every operation.
use vstd::prelude::*;

use crate::data_uri::DataURI;
use crate::revisions::{PathKey, RevisionToken};
use crate::text::owned;
use crate::vault_path::{is_image_ext, VaultPath, VaultPathError};

verus! {

#[verifier::external_type_specification]
#[verifier::external_body]
pub struct ExIoError(std::io::Error);

#[verifier::external_type_specification]
#[verifier::external_body]
pub struct ExSystemTime(std::time::SystemTime);

// ---------------------------------------------------------------------------
// Errors
// ---------------------------------------------------------------------------

/// Errors from storage operations.
#[derive(Debug)]
pub enum StorageError {
    NotFound(VaultPath),
    FileAlreadyExists(VaultPath),
    PermissionDenied(VaultPath),
    /// The path, the token the caller expected, the token on disk.
    Conflict(VaultPath, RevisionToken, RevisionToken),
    Io(VaultPath, std::io::Error),
    InvalidData(VaultPath, String),
    InvalidPath(VaultPathError),
}

/// The kinds of storage errors, with the paths and tokens they name.
pub enum StorageFault {
    NotFound(PathKey),
    FileAlreadyExists(PathKey),
    PermissionDenied(PathKey),
    Conflict(PathKey, Seq<char>, Seq<char>),
    Io(PathKey),
    InvalidData(PathKey, Seq<char>),
    InvalidPath,
}

impl StorageError {
    pub open spec fn fault(&self) -> StorageFault {
        match self {
            StorageError::NotFound(p) => StorageFault::NotFound(p@),
            StorageError::FileAlreadyExists(p) => StorageFault::FileAlreadyExists(p@),
            StorageError::PermissionDenied(p) => StorageFault::PermissionDenied(p@),
            StorageError::Conflict(p, e, a) => StorageFault::Conflict(p@, e@, a@),
            StorageError::Io(p, _) => StorageFault::Io(p@),
            StorageError::InvalidData(p, m) => StorageFault::InvalidData(p@, m@),
            StorageError::InvalidPath(_) => StorageFault::InvalidPath,
        }
    }

    /// The message of the error; `detail` stands for the I/O error's own
    /// message, which only `Io` holds.
    pub open spec fn message(&self, detail: Seq<char>) -> Seq<char> {
        match self {
            StorageError::NotFound(p) => "file not found: "@ + p@.1,
            StorageError::FileAlreadyExists(p) => "file "@ + p@.1 + " already exists"@,
            StorageError::PermissionDenied(p) => "permission denied: "@ + p@.1,
            StorageError::Conflict(p, e, a) => "write conflict: "@ + p@.1 + " (expected: "@ + e@
                + ", actual: "@ + a@ + ")"@,
            StorageError::Io(p, _) => "IO error on "@ + p@.1 + ": "@ + detail,
            StorageError::InvalidData(p, m) => "invalid data at "@ + p@.1 + ": "@ + m@,
            StorageError::InvalidPath(e) => "invalid path: "@ + e.message(),
        }
    }

    /// The message of the error. What the system says of an I/O error is not
    /// stated.
    pub fn to_string(&self) -> (r: String)
        ensures
            self is Io ==> exists|d: Seq<char>| r@ == self.message(d),
            !(self is Io) ==> r@ == self.message(Seq::empty()),
    {
        match self {
            StorageError::NotFound(p) => {
                let mut s = owned("file not found: ");
                s.append(p.as_str());
                s
            },
            StorageError::FileAlreadyExists(p) => {
                let mut s = owned("file ");
                s.append(p.as_str());
                s.append(" already exists");
                s
            },
            StorageError::PermissionDenied(p) => {
                let mut s = owned("permission denied: ");
                s.append(p.as_str());
                s
            },
            StorageError::Conflict(p, e, a) => {
                let mut s = owned("write conflict: ");
                s.append(p.as_str());
                s.append(" (expected: ");
                s.append(e.as_str());
                s.append(", actual: ");
                s.append(a.as_str());
                s.append(")");
                s
            },
            StorageError::Io(p, e) => {
                let mut s = owned("IO error on ");
                s.append(p.as_str());
                s.append(": ");
                let m = io_error_message(e);
                s.append(m.as_str());
                assert(s@ == self.message(m@));
                s
            },
            StorageError::InvalidData(p, m) => {
                let mut s = owned("invalid data at ");
                s.append(p.as_str());
                s.append(": ");
                s.append(m.as_str());
                s
            },
            StorageError::InvalidPath(e) => {
                let mut s = owned("invalid path: ");
                let m = e.to_string();
                s.append(m.as_str());
                s
            },
        }
    }
}

impl From<VaultPathError> for StorageError {
    fn from(e: VaultPathError) -> (r: StorageError)
        ensures
            r == StorageError::InvalidPath(e),
    {
        StorageError::InvalidPath(e)
    }
}

impl vstd::std_specs::convert::FromSpecImpl<VaultPathError> for StorageError {
    open spec fn obeys_from_spec() -> bool {
        true
    }

    open spec fn from_spec(e: VaultPathError) -> StorageError {
        StorageError::InvalidPath(e)
    }
}

/// The message of an I/O error (its `Display`).
#[verifier::external_body]
fn io_error_message(e: &std::io::Error) -> String {
    e.to_string()
}

/// The kinds of I/O error that storage reports on their own.
pub enum IoErrorKind {
    NotFound,
    PermissionDenied,
    Other,
}

/// `std::io::Error::kind`, with `NotFound` and `PermissionDenied` told apart
/// from the rest. Nothing is stated of which kind an error has.
#[verifier::external_body]
fn io_error_kind(e: &std::io::Error) -> IoErrorKind {
    match e.kind() {
        std::io::ErrorKind::NotFound => IoErrorKind::NotFound,
        std::io::ErrorKind::PermissionDenied => IoErrorKind::PermissionDenied,
        _ => IoErrorKind::Other,
    }
}

/// The storage error for an I/O failure of kind `kind` on `path`: not found
/// and permission denied become their own errors, anything else an I/O error
/// on `path` that keeps `err`.
pub fn error_for_kind(path: &VaultPath, kind: IoErrorKind, err: std::io::Error) -> (r: StorageError)
    ensures
        match kind {
            IoErrorKind::NotFound => r.fault() == StorageFault::NotFound(path@),
            IoErrorKind::PermissionDenied => r.fault() == StorageFault::PermissionDenied(path@),
            IoErrorKind::Other => r matches StorageError::Io(p, e) && p@ == path@ && e == err,
        },
{
    match kind {
        IoErrorKind::NotFound => StorageError::NotFound(path.clone()),
        IoErrorKind::PermissionDenied => StorageError::PermissionDenied(path.clone()),
        IoErrorKind::Other => StorageError::Io(path.clone(), err),
    }
}

/// The storage error for an I/O failure on `path`, by the error's kind (see
/// `error_for_kind`). Which kind the system gave is not stated.
pub fn map_io_error(path: &VaultPath, err: std::io::Error) -> (r: StorageError)
    ensures
        r.fault() == StorageFault::NotFound(path@) || r.fault() == StorageFault::PermissionDenied(path@)
            || r.fault() == StorageFault::Io(path@),
{
    let kind = io_error_kind(&err);
    error_for_kind(path, kind, err)
}

// ---------------------------------------------------------------------------
// Files
// ---------------------------------------------------------------------------

/// A file's path, size, modification time and revision token.
#[derive(Debug)]
pub struct FileMeta {
    pub path: VaultPath,
    pub size: u64,
    pub modified: std::time::SystemTime,
    pub revision_token: RevisionToken,
}

impl Clone for FileMeta {
    fn clone(&self) -> (r: Self)
        ensures
            r.path@ == self.path@,
            r.size == self.size,
            r.modified == self.modified,
            r.revision_token@ == self.revision_token@,
    {
        FileMeta {
            path: self.path.clone(),
            size: self.size,
            modified: self.modified,
            revision_token: self.revision_token.clone(),
        }
    }
}

/// The content of a file: markdown text, or an image as a data URI.
#[derive(Debug, Clone)]
pub enum FileContent {
    Markdown(String),
    Image(DataURI),
}

/// A file's metadata with its content.
#[derive(Debug)]
pub struct File {
    pub meta: FileMeta,
    pub content: FileContent,
}

// ---------------------------------------------------------------------------
// Revision tokens
// ---------------------------------------------------------------------------

pub open spec fn digit(d: int) -> char {
    (48 + d) as char
}

/// The decimal digits of `n`, without leading zeros.
pub open spec fn decimal(n: nat) -> Seq<char>
    decreases n,
{
    if n < 10 {
        seq![digit(n as int)]
    } else {
        decimal(n / 10) + seq![digit((n % 10) as int)]
    }
}

fn digit_char(d: u8) -> (c: char)
    requires
        d < 10,
    ensures
        c == digit(d as int),
{
    (48u8 + d) as char
}

pub fn push_decimal(n: u128, out: &mut Vec<char>)
    ensures
        final(out)@ == old(out)@ + decimal(n as nat),
    decreases n,
{
    if n >= 10 {
        push_decimal(n / 10, out);
    }
    out.push(digit_char((n % 10) as u8));
    assert(out@ =~= old(out)@ + decimal(n as nat));
}

/// The token text `<nanos>:<size>`.
pub open spec fn token_text(nanos: nat, size: nat) -> Seq<char> {
    decimal(nanos) + seq![':'] + decimal(size)
}

/// The revision token of a file modified `nanos` nanoseconds after the Unix
/// epoch with `size` bytes.
pub fn revision_token_of(nanos: u128, size: u64) -> (r: RevisionToken)
    ensures
        r@ == token_text(nanos as nat, size as nat),
{
    let mut v: Vec<char> = Vec::new();
    push_decimal(nanos, &mut v);
    v.push(':');
    push_decimal(size as u128, &mut v);
    assert(v@ =~= token_text(nanos as nat, size as nat));
    let s = crate::text::string_from(&v, 0, v.len());
    assert(v@.subrange(0, v.len() as int) =~= v@);
    RevisionToken::from(s)
}

/// What `SystemTime::duration_since(UNIX_EPOCH)` gives for the time `t`: the
/// whole duration in nanoseconds, or the message of the error when `t` lies
/// before the epoch. A function of the time value alone.
pub uninterp spec fn nanos_since_epoch_of(t: &std::time::SystemTime) -> Result<u128, Seq<char>>;

/// `SystemTime::duration_since(UNIX_EPOCH)` in nanoseconds (`Duration::as_nanos`),
/// or the message of the error (its `Display`) when the time lies before the
/// epoch. Stated: the result is `nanos_since_epoch_of` of the time.
#[verifier::external_body]
fn nanos_since_epoch(t: &std::time::SystemTime) -> (r: Result<u128, String>)
    ensures
        match r {
            Ok(n) => nanos_since_epoch_of(t) == Ok::<u128, Seq<char>>(n),
            Err(m) => nanos_since_epoch_of(t) == Err::<u128, Seq<char>>(m@),
        },
{
    match t.duration_since(std::time::UNIX_EPOCH) {
        Ok(d) => Ok(d.as_nanos()),
        Err(e) => Err(e.to_string()),
    }
}

/// The revision token of a file at `path` with modification time `modified`
/// and `size` bytes: `<nanos since the epoch>:<size>`; a time before the Unix
/// epoch is invalid data, with the clock's message.
pub fn revision_token(path: &VaultPath, modified: &std::time::SystemTime, size: u64) -> (r: Result<
    RevisionToken,
    StorageError,
>)
    ensures
        match nanos_since_epoch_of(modified) {
            Ok(n) => r matches Ok(t) && t@ == token_text(n as nat, size as nat),
            Err(m) => r matches Err(e) && e.fault() == StorageFault::InvalidData(path@, m),
        },
{
    match nanos_since_epoch(modified) {
        Ok(n) => Ok(revision_token_of(n, size)),
        Err(m) => Err(StorageError::InvalidData(path.clone(), m)),
    }
}

/// The check of a write against the token on disk: a conflict when the caller
/// expected another one.
pub fn check_token(path: &VaultPath, expected: &RevisionToken, actual: RevisionToken) -> (r: Result<(), StorageError>)
    ensures
        r is Ok <==> expected@ == actual@,
        r matches Err(e) ==> e.fault() == StorageFault::Conflict(path@, expected@, actual@),
{
    if expected.same_as(&actual) {
        Ok(())
    } else {
        Err(StorageError::Conflict(path.clone(), expected.clone(), actual))
    }
}

// ---------------------------------------------------------------------------
// Images
// ---------------------------------------------------------------------------

/// The MIME type of an image extension.
pub open spec fn mime_of(ext: Seq<char>) -> Seq<char> {
    if ext == "png"@ {
        "image/png"@
    } else if ext == "jpg"@ || ext == "jpeg"@ {
        "image/jpeg"@
    } else if ext == "gif"@ {
        "image/gif"@
    } else if ext == "bmp"@ {
        "image/bmp"@
    } else if ext == "webp"@ {
        "image/webp"@
    } else if ext == "svg"@ {
        "image/svg+xml"@
    } else if ext == "ico"@ {
        "image/x-icon"@
    } else {
        "image/tiff"@
    }
}

/// The MIME type of a recognised image extension.
pub fn mime_from_extension(ext: &str) -> (r: &'static str)
    requires
        is_image_ext(ext@),
    ensures
        r@ == mime_of(ext@),
{
    let v = crate::text::chars_of(ext);
    let n = v.len();
    assert(v@.subrange(0, n as int) =~= v@);
    if crate::text::range_is(&v, 0, n, "png") {
        "image/png"
    } else if crate::text::range_is(&v, 0, n, "jpg") || crate::text::range_is(&v, 0, n, "jpeg") {
        "image/jpeg"
    } else if crate::text::range_is(&v, 0, n, "gif") {
        "image/gif"
    } else if crate::text::range_is(&v, 0, n, "bmp") {
        "image/bmp"
    } else if crate::text::range_is(&v, 0, n, "webp") {
        "image/webp"
    } else if crate::text::range_is(&v, 0, n, "svg") {
        "image/svg+xml"
    } else if crate::text::range_is(&v, 0, n, "ico") {
        "image/x-icon"
    } else {
        "image/tiff"
    }
}

// ---------------------------------------------------------------------------
// Access lists
// ---------------------------------------------------------------------------

pub open spec fn keys_of(ps: Seq<VaultPath>) -> Seq<PathKey> {
    ps.map_values(|p: VaultPath| p@)
}

/// The paths a storage refuses to touch, and those it only reads.
pub struct AccessPolicy {
    denied: Vec<VaultPath>,
    read_only: Vec<VaultPath>,
}

impl View for AccessPolicy {
    type V = (Seq<PathKey>, Seq<PathKey>);

    closed spec fn view(&self) -> (Seq<PathKey>, Seq<PathKey>) {
        (keys_of(self.denied@), keys_of(self.read_only@))
    }
}

fn contains_path(ps: &Vec<VaultPath>, path: &VaultPath) -> (b: bool)
    ensures
        b == keys_of(ps@).contains(path@),
{
    let mut i: usize = 0;
    while i < ps.len()
        invariant
            i <= ps.len(),
            forall|j: int| 0 <= j < i ==> (#[trigger] ps@[j])@ != path@,
        decreases ps.len() - i,
    {
        if ps[i].same_as(path) {
            assert(keys_of(ps@)[i as int] == path@);
            return true;
        }
        i = i + 1;
    }
    proof {
        if keys_of(ps@).contains(path@) {
            let j = choose|j: int| 0 <= j < keys_of(ps@).len() && keys_of(ps@)[j] == path@;
            assert(ps@[j]@ == path@);
        }
    }
    false
}

fn clone_paths(ps: &Vec<VaultPath>) -> (r: Vec<VaultPath>)
    ensures
        keys_of(r@) == keys_of(ps@),
{
    let mut out: Vec<VaultPath> = Vec::new();
    let mut i: usize = 0;
    while i < ps.len()
        invariant
            i <= ps.len(),
            out@.len() == i,
            forall|j: int| 0 <= j < i ==> (#[trigger] out@[j])@ == ps@[j]@,
        decreases ps.len() - i,
    {
        out.push(ps[i].clone());
        i = i + 1;
    }
    assert(keys_of(out@) =~= keys_of(ps@));
    out
}

impl AccessPolicy {
    /// No path denied, none read-only.
    pub fn new() -> (r: AccessPolicy)
        ensures
            r@.0.len() == 0,
            r@.1.len() == 0,
    {
        let r = AccessPolicy { denied: Vec::new(), read_only: Vec::new() };
        assert(keys_of(r.denied@) =~= Seq::<PathKey>::empty());
        assert(keys_of(r.read_only@) =~= Seq::<PathKey>::empty());
        r
    }

    /// Replaces the deny list with `paths`.
    pub fn deny_access(&mut self, paths: &Vec<VaultPath>)
        ensures
            final(self)@ == (keys_of(paths@), old(self)@.1),
    {
        self.denied = clone_paths(paths);
    }

    /// Replaces the read-only list with `paths`.
    pub fn read_only_access(&mut self, paths: &Vec<VaultPath>)
        ensures
            final(self)@ == (old(self)@.0, keys_of(paths@)),
    {
        self.read_only = clone_paths(paths);
    }

    pub fn is_denied(&self, path: &VaultPath) -> (b: bool)
        ensures
            b == self@.0.contains(path@),
    {
        contains_path(&self.denied, path)
    }

    pub fn is_read_only(&self, path: &VaultPath) -> (b: bool)
        ensures
            b == self@.1.contains(path@),
    {
        contains_path(&self.read_only, path)
    }

    /// Reading `path` is refused when it is denied.
    pub fn check_read(&self, path: &VaultPath) -> (r: Result<(), StorageError>)
        ensures
            r is Ok <==> !self@.0.contains(path@),
            r matches Err(e) ==> e.fault() == StorageFault::PermissionDenied(path@),
    {
        if self.is_denied(path) {
            Err(StorageError::PermissionDenied(path.clone()))
        } else {
            Ok(())
        }
    }

    /// Changing `path` (writing, deleting, moving from or to it) is refused
    /// when it is denied or read-only.
    pub fn check_write(&self, path: &VaultPath) -> (r: Result<(), StorageError>)
        ensures
            r is Ok <==> !self@.0.contains(path@) && !self@.1.contains(path@),
            r matches Err(e) ==> e.fault() == StorageFault::PermissionDenied(path@),
    {
        if self.is_denied(path) || self.is_read_only(path) {
            Err(StorageError::PermissionDenied(path.clone()))
        } else {
            Ok(())
        }
    }

    /// A move needs both ends writable; the source is checked first.
    pub fn check_move(&self, from: &VaultPath, to: &VaultPath) -> (r: Result<(), StorageError>)
        ensures
            r is Ok <==> !self@.0.contains(from@) && !self@.1.contains(from@) && !self@.0.contains(to@)
                && !self@.1.contains(to@),
            r matches Err(e) ==> if self@.0.contains(from@) || self@.1.contains(from@) {
                e.fault() == StorageFault::PermissionDenied(from@)
            } else {
                e.fault() == StorageFault::PermissionDenied(to@)
            },
    {
        self.check_write(from)?;
        self.check_write(to)
    }

    /// A copy needs a readable source and a writable target.
    pub fn check_copy(&self, from: &VaultPath, to: &VaultPath) -> (r: Result<(), StorageError>)
        ensures
            r is Ok <==> !self@.0.contains(from@) && !self@.0.contains(to@) && !self@.1.contains(to@),
            r matches Err(e) ==> if self@.0.contains(from@) {
                e.fault() == StorageFault::PermissionDenied(from@)
            } else {
                e.fault() == StorageFault::PermissionDenied(to@)
            },
    {
        self.check_read(from)?;
        self.check_write(to)
    }
}

/// What a write does with the file at its path.
#[derive(Debug)]
pub enum WritePlan {
    /// There is no file yet: it is created.
    Create,
    /// There is a file: it is overwritten if its token is still this one.
    Overwrite(RevisionToken),
}

/// The plan of a write to `path`: a new file is created; an existing file is
/// overwritten only against the token the writer expects, and refused when
/// the writer expects none (it would create a file that exists).
pub fn plan_write(path: &VaultPath, exists: bool, expected: Option<RevisionToken>) -> (r: Result<WritePlan, StorageError>)
    ensures
        !exists ==> r matches Ok(WritePlan::Create),
        exists ==> match expected {
            Some(t) => r matches Ok(WritePlan::Overwrite(u)) && u@ == t@,
            None => r matches Err(e) && e.fault() == StorageFault::FileAlreadyExists(path@),
        },
{
    if !exists {
        Ok(WritePlan::Create)
    } else {
        match expected {
            Some(t) => Ok(WritePlan::Overwrite(t)),
            None => Err(StorageError::FileAlreadyExists(path.clone())),
        }
    }
}

} // verus!
