//! Validated, platform-independent vault paths: the root, folders, notes,
//! sections and blocks of notes, images and other files.
use vstd::prelude::*;
use vstd::string::StrSliceExecFns;

use crate::native::{path_buf_text_of, path_text_of, relative_text_of};
use crate::tokenizer::{ascii_lower, is_ascii_text, lowercase_text};
use crate::paths::{
    has_parent_segment, has_parent_segment_exec, is_normalized, lemma_normalize_is_normalized, lemma_normalized_fixpoint,
    md_suffix, normalize_separators, normalize_separators_exec, parent_segment_at,
};
use crate::text::{
    chars_of, ends_with, find_from, find_last_in, first_index_of, has_char, last_index_of,
    lemma_first_index_of_bounds, lemma_last_index_of_bounds, lemma_last_index_of_is, owned, range_eq, range_is,
    starts_with, string_from, trim_end_bound, trim_end_char, trim_start_char,
};

verus! {

/// Why a text is not a vault path.
#[derive(Debug, Clone, PartialEq, Eq)]
pub enum VaultPathError {
    Empty,
    PathTraversal,
    InvalidRoot,
    NotUnderRoot,
    InvalidSubNotePath(String),
}

/// The kind of a vault path, without its text.
#[derive(Debug, Clone, Copy, PartialEq, Eq, Structural)]
pub enum VaultPathKind {
    Root,
    Folder,
    Note,
    Section,
    Block,
    Image,
    Other,
}

/// The kind of a vault-path error, without its message.
#[derive(Debug, Clone, Copy, PartialEq, Eq, Structural)]
pub enum VaultPathFault {
    Empty,
    PathTraversal,
    InvalidRoot,
    NotUnderRoot,
    InvalidSubNotePath,
}

impl VaultPathError {
    pub open spec fn fault(&self) -> VaultPathFault {
        match self {
            VaultPathError::Empty => VaultPathFault::Empty,
            VaultPathError::PathTraversal => VaultPathFault::PathTraversal,
            VaultPathError::InvalidRoot => VaultPathFault::InvalidRoot,
            VaultPathError::NotUnderRoot => VaultPathFault::NotUnderRoot,
            VaultPathError::InvalidSubNotePath(_) => VaultPathFault::InvalidSubNotePath,
        }
    }

    /// The error's message.
    pub open spec fn message(&self) -> Seq<char> {
        match self {
            VaultPathError::Empty => "vault path cannot be empty"@,
            VaultPathError::PathTraversal => "vault path cannot contain '..' traversal"@,
            VaultPathError::InvalidRoot => "only empty string represents root, '/' is not allowed"@,
            VaultPathError::NotUnderRoot => "path is not under root"@,
            VaultPathError::InvalidSubNotePath(m) => "invalid sub-note path: "@ + m@,
        }
    }

    /// The error's message.
    pub fn to_string(&self) -> (r: String)
        ensures
            r@ == self.message(),
    {
        match self {
            VaultPathError::Empty => owned("vault path cannot be empty"),
            VaultPathError::PathTraversal => owned("vault path cannot contain '..' traversal"),
            VaultPathError::InvalidRoot => owned(
                "only empty string represents root, '/' is not allowed",
            ),
            VaultPathError::NotUnderRoot => owned("path is not under root"),
            VaultPathError::InvalidSubNotePath(m) => {
                let mut s = owned("invalid sub-note path: ");
                s.append(m.as_str());
                s
            },
        }
    }
}

/// A validated vault path. Texts use `/`; folders end with `/`; sections and
/// blocks are `note.md#fragment`, blocks with a fragment that starts with `^`.
#[derive(Debug, PartialEq, Eq, Hash)]
pub enum VaultPath {
    Root,
    Folder(String),
    Note(String),
    Section(String),
    Block(String),
    Image(String),
    Other(String),
}

impl Clone for VaultPath {
    fn clone(&self) -> (r: Self)
        ensures
            r@ == self@,
    {
        match self {
            VaultPath::Root => VaultPath::Root,
            VaultPath::Folder(s) => VaultPath::Folder(s.clone()),
            VaultPath::Note(s) => VaultPath::Note(s.clone()),
            VaultPath::Section(s) => VaultPath::Section(s.clone()),
            VaultPath::Block(s) => VaultPath::Block(s.clone()),
            VaultPath::Image(s) => VaultPath::Image(s.clone()),
            VaultPath::Other(s) => VaultPath::Other(s.clone()),
        }
    }
}

impl View for VaultPath {
    type V = (VaultPathKind, Seq<char>);

    open spec fn view(&self) -> (VaultPathKind, Seq<char>) {
        match self {
            VaultPath::Root => (VaultPathKind::Root, Seq::empty()),
            VaultPath::Folder(s) => (VaultPathKind::Folder, s@),
            VaultPath::Note(s) => (VaultPathKind::Note, s@),
            VaultPath::Section(s) => (VaultPathKind::Section, s@),
            VaultPath::Block(s) => (VaultPathKind::Block, s@),
            VaultPath::Image(s) => (VaultPathKind::Image, s@),
            VaultPath::Other(s) => (VaultPathKind::Other, s@),
        }
    }
}

/// The image extensions a vault recognises.
pub open spec fn is_image_ext(e: Seq<char>) -> bool {
    ||| e == "png"@
    ||| e == "jpg"@
    ||| e == "jpeg"@
    ||| e == "gif"@
    ||| e == "bmp"@
    ||| e == "webp"@
    ||| e == "svg"@
    ||| e == "ico"@
    ||| e == "tiff"@
    ||| e == "tif"@
}

/// The file name of a path text: what follows its last `/` once trailing `/` are dropped.
pub open spec fn file_name(s: Seq<char>) -> Seq<char> {
    let p = trim_end_char(s, '/');
    p.subrange(last_index_of(p, '/') + 1, p.len() as int)
}

/// The extension of a path text: what follows the last `.` of its file name,
/// except for hidden files like `.gitignore`.
pub open spec fn file_extension(s: Seq<char>) -> Option<Seq<char>> {
    let name = file_name(s);
    let k = last_index_of(name, '.');
    if k < 0 {
        None
    } else if name[0] == '.' && !has_char(name.subrange(1, name.len() as int), '.') {
        None
    } else {
        Some(name.subrange(k + 1, name.len() as int))
    }
}

/// What a file path's relative text `t` gives: its vault path, except that a
/// section or a block is refused as an invalid sub-note path.
pub open spec fn from_file_text(t: Seq<char>) -> Result<(VaultPathKind, Seq<char>), VaultPathFault> {
    match vault_path_spec(t) {
        Ok(k) => if k.0 == VaultPathKind::Section || k.0 == VaultPathKind::Block {
            Err(VaultPathFault::InvalidSubNotePath)
        } else {
            Ok(k)
        },
        Err(f) => Err(f),
    }
}

/// The file stem of a path text: its file name up to its last `.`.
pub open spec fn file_stem(s: Seq<char>) -> Seq<char> {
    let name = file_name(s);
    let k = last_index_of(name, '.');
    if k < 0 {
        name
    } else {
        name.subrange(0, k)
    }
}

/// The note part of a section or block text: what precedes the first `#`.
pub open spec fn note_part(s: Seq<char>) -> Seq<char> {
    s.subrange(0, first_index_of(s, '#'))
}

/// The fragment of a section or block text: what follows the first `#`.
pub open spec fn fragment(s: Seq<char>) -> Seq<char> {
    if first_index_of(s, '#') < s.len() {
        s.subrange(first_index_of(s, '#') + 1, s.len() as int)
    } else {
        Seq::empty()
    }
}

/// The message of the error for a fragment on something that is not a note.
pub open spec fn sub_note_message() -> Seq<char> {
    "must reference a .md note"@
}

/// What `VaultPath::new` gives for the text `s`: the kind and normalised text, or the error.
pub open spec fn vault_path_spec(s: Seq<char>) -> Result<(VaultPathKind, Seq<char>), VaultPathFault> {
    let n = normalize_separators(s);
    if n.len() == 0 {
        if s.len() == 0 {
            Ok((VaultPathKind::Root, n))
        } else {
            Err(VaultPathFault::InvalidRoot)
        }
    } else if has_parent_segment(n) {
        Err(VaultPathFault::PathTraversal)
    } else if has_char(n, '#') {
        if note_part(n).len() == 0 || !ends_with(note_part(n), md_suffix()) {
            Err(VaultPathFault::InvalidSubNotePath)
        } else if fragment(n).len() > 0 && fragment(n)[0] == '^' {
            Ok((VaultPathKind::Block, n))
        } else {
            Ok((VaultPathKind::Section, n))
        }
    } else if n.last() == '/' {
        Ok((VaultPathKind::Folder, n))
    } else {
        match file_extension(n) {
            Some(e) => if e == "md"@ {
                Ok((VaultPathKind::Note, n))
            } else if is_image_ext(e) {
                Ok((VaultPathKind::Image, n))
            } else {
                Ok((VaultPathKind::Other, n))
            },
            None => Ok((VaultPathKind::Other, n)),
        }
    }
}

/// The file part of a vault path: the note part for sections and blocks, the text otherwise.
pub open spec fn file_part(v: (VaultPathKind, Seq<char>)) -> Seq<char> {
    if v.0 == VaultPathKind::Section || v.0 == VaultPathKind::Block {
        note_part(v.1)
    } else {
        v.1
    }
}

/// The parent of a vault path, as kind and text.
pub open spec fn parent_spec(v: (VaultPathKind, Seq<char>)) -> Option<(VaultPathKind, Seq<char>)> {
    let s = v.1;
    if v.0 == VaultPathKind::Root {
        None
    } else if v.0 == VaultPathKind::Section || v.0 == VaultPathKind::Block {
        Some((VaultPathKind::Note, note_part(s)))
    } else if v.0 == VaultPathKind::Folder {
        let p = trim_end_char(s, '/');
        if last_index_of(p, '/') < 0 {
            Some((VaultPathKind::Root, Seq::empty()))
        } else {
            Some((VaultPathKind::Folder, p.subrange(0, last_index_of(p, '/')).push('/')))
        }
    } else if last_index_of(s, '/') < 0 {
        None
    } else {
        Some((VaultPathKind::Folder, s.subrange(0, last_index_of(s, '/')).push('/')))
    }
}

/// The path lies in `folder` or below it.
pub open spec fn under_folder_spec(v: (VaultPathKind, Seq<char>), folder: (VaultPathKind, Seq<char>)) -> bool {
    if !(folder.0 == VaultPathKind::Root || folder.0 == VaultPathKind::Folder) {
        false
    } else if v.0 == VaultPathKind::Root {
        false
    } else if folder.0 == VaultPathKind::Root {
        true
    } else {
        let f = trim_end_char(folder.1, '/');
        let p = trim_end_char(file_part(v), '/');
        f.len() == 0 || (starts_with(p, f) && p.len() > f.len() && p[f.len() as int] == '/')
    }
}

/// The heading names of a section text: its fragment split on `/`; none for an empty fragment.
pub open spec fn split_on(s: Seq<char>, c: char) -> Seq<Seq<char>>
    decreases s.len(),
{
    if first_index_of(s, c) >= s.len() {
        seq![s]
    } else {
        proof {
            crate::text::lemma_first_index_of_bounds(s, c);
        }
        seq![s.subrange(0, first_index_of(s, c))] + split_on(
            s.subrange(first_index_of(s, c) + 1, s.len() as int),
            c,
        )
    }
}

/// Index of the first `#` in `v`, and its note part is `note_part(v)`.
fn hash_index(v: &Vec<char>) -> (i: usize)
    ensures
        i == first_index_of(v@, '#'),
        i <= v.len(),
        v@.subrange(0, i as int) == note_part(v@),
{
    let i = find_from(v, '#', 0);
    assert(v@.subrange(0, v.len() as int) =~= v@);
    i
}

/// Bounds of the file name within `v[0..hi]`.
fn file_name_bounds(v: &Vec<char>, hi: usize) -> (r: (usize, usize))
    requires
        hi <= v.len(),
    ensures
        r.0 <= r.1 <= hi,
        v@.subrange(r.0 as int, r.1 as int) == file_name(v@.subrange(0, hi as int)),
{
    let e = trim_end_bound(v, 0, hi, '/');
    let ghost p = v@.subrange(0, e as int);
    proof {
        lemma_last_index_of_bounds(p, '/');
    }
    let start = match find_last_in(v, 0, e, '/') {
        Some(j) => j + 1,
        None => 0,
    };
    assert(v@.subrange(start as int, e as int) =~= p.subrange(last_index_of(p, '/') + 1, p.len() as int));
    (start, e)
}

/// Bounds of the extension within `v[0..hi]`, when there is one.
fn extension_bounds(v: &Vec<char>, hi: usize) -> (r: Option<(usize, usize)>)
    requires
        hi <= v.len(),
    ensures
        match r {
            Some((a, b)) => a <= b <= hi && file_extension(v@.subrange(0, hi as int)) == Some(
                v@.subrange(a as int, b as int),
            ),
            None => file_extension(v@.subrange(0, hi as int)) is None,
        },
{
    let (a, b) = file_name_bounds(v, hi);
    let ghost name = v@.subrange(a as int, b as int);
    proof {
        lemma_last_index_of_bounds(name, '.');
    }
    match find_last_in(v, a, b, '.') {
        None => None,
        Some(k) => {
            let hidden = v[a] == '.' && !crate::text::contains_in(v, '.', a + 1, b);
            assert(name[0] == v@[a as int]);
            assert(name.subrange(1, name.len() as int) =~= v@.subrange(a + 1, b as int));
            if hidden {
                None
            } else {
                assert(name.subrange(k - a + 1, name.len() as int) =~= v@.subrange(k + 1, b as int));
                Some((k + 1, b))
            }
        },
    }
}

/// Whether `v[a..b]` is one of the image extensions.
fn is_image_ext_exec(v: &Vec<char>, a: usize, b: usize) -> (r: bool)
    requires
        a <= b <= v.len(),
    ensures
        r == is_image_ext(v@.subrange(a as int, b as int)),
{
    range_is(v, a, b, "png") || range_is(v, a, b, "jpg") || range_is(v, a, b, "jpeg")
        || range_is(v, a, b, "gif") || range_is(v, a, b, "bmp") || range_is(v, a, b, "webp")
        || range_is(v, a, b, "svg") || range_is(v, a, b, "ico") || range_is(v, a, b, "tiff")
        || range_is(v, a, b, "tif")
}

impl VaultPath {
    /// Validates and normalises `path` and finds its kind. The empty text is the root.
    pub fn new(path: &str) -> (r: Result<VaultPath, VaultPathError>)
        ensures
            match r {
                Ok(p) => vault_path_spec(path@) == Ok::<_, VaultPathFault>(p@),
                Err(e) => vault_path_spec(path@) == Err::<(VaultPathKind, Seq<char>), _>(e.fault())
                    && (e matches VaultPathError::InvalidSubNotePath(m) ==> m@
                    == sub_note_message()),
            },
    {
        let input = chars_of(path);
        let n = normalize_separators_exec(&input);
        let len = n.len();
        assert(n@.subrange(0, len as int) =~= n@);
        if len == 0 {
            if input.len() == 0 {
                assert(Seq::<char>::empty() =~= n@);
                return Ok(VaultPath::Root);
            }
            return Err(VaultPathError::InvalidRoot);
        }
        if has_parent_segment_exec(&n) {
            return Err(VaultPathError::PathTraversal);
        }
        let text = string_from(&n, 0, len);
        let h = hash_index(&n);
        proof {
            lemma_first_index_of_bounds(n@, '#');
        }
        if h < len {
            assert(has_char(n@, '#'));
            let note_ok = h >= 3 && n[h - 3] == '.' && n[h - 2] == 'm' && n[h - 1] == 'd';
            let ghost np = note_part(n@);
            assert(note_ok == (np.len() > 0 && ends_with(np, md_suffix()))) by {
                if h >= 3 {
                    assert(np.subrange(np.len() - 3, np.len() as int)[0] == n@[h - 3]);
                    assert(np.subrange(np.len() - 3, np.len() as int)[1] == n@[h - 2]);
                    assert(np.subrange(np.len() - 3, np.len() as int)[2] == n@[h - 1]);
                    assert(note_ok ==> np.subrange(np.len() - 3, np.len() as int) =~= md_suffix());
                }
            }
            if !note_ok {
                return Err(VaultPathError::InvalidSubNotePath(owned("must reference a .md note")));
            }
            assert(fragment(n@) =~= n@.subrange(h + 1, len as int));
            if h + 1 < len && n[h + 1] == '^' {
                return Ok(VaultPath::Block(text));
            }
            return Ok(VaultPath::Section(text));
        }
        assert(!has_char(n@, '#'));
        if n[len - 1] == '/' {
            return Ok(VaultPath::Folder(text));
        }
        match extension_bounds(&n, len) {
            Some((a, b)) => {
                if range_is(&n, a, b, "md") {
                    Ok(VaultPath::Note(text))
                } else if is_image_ext_exec(&n, a, b) {
                    Ok(VaultPath::Image(text))
                } else {
                    Ok(VaultPath::Other(text))
                }
            },
            None => Ok(VaultPath::Other(text)),
        }
    }

    pub fn is_root(&self) -> (b: bool)
        ensures
            b == (self@.0 == VaultPathKind::Root),
    {
        matches!(self, VaultPath::Root)
    }

    /// A folder or the root.
    pub fn is_folder(&self) -> (b: bool)
        ensures
            b == (self@.0 == VaultPathKind::Root || self@.0 == VaultPathKind::Folder),
    {
        matches!(self, VaultPath::Root | VaultPath::Folder(_))
    }

    pub fn is_note(&self) -> (b: bool)
        ensures
            b == (self@.0 == VaultPathKind::Note),
    {
        matches!(self, VaultPath::Note(_))
    }

    pub fn is_section(&self) -> (b: bool)
        ensures
            b == (self@.0 == VaultPathKind::Section),
    {
        matches!(self, VaultPath::Section(_))
    }

    pub fn is_block(&self) -> (b: bool)
        ensures
            b == (self@.0 == VaultPathKind::Block),
    {
        matches!(self, VaultPath::Block(_))
    }

    pub fn is_image(&self) -> (b: bool)
        ensures
            b == (self@.0 == VaultPathKind::Image),
    {
        matches!(self, VaultPath::Image(_))
    }

    /// The normalised text; empty for the root.
    pub fn as_str(&self) -> (r: &str)
        ensures
            r@ == self@.1,
    {
        match self {
            VaultPath::Root => {
                proof {
                    reveal_strlit("");
                }
                assert(""@ =~= Seq::<char>::empty());
                ""
            },
            VaultPath::Folder(s) | VaultPath::Note(s) | VaultPath::Section(s) | VaultPath::Block(s)
            | VaultPath::Image(s) | VaultPath::Other(s) => s.as_str(),
        }
    }

    /// The file part: the note part for sections and blocks, the text otherwise.
    fn file_part_str(&self) -> (r: &str)
        ensures
            r@ == file_part(self@),
    {
        match self {
            VaultPath::Section(s) | VaultPath::Block(s) => {
                let v = chars_of(s.as_str());
                let h = hash_index(&v);
                s.as_str().substring_char(0, h)
            },
            _ => self.as_str(),
        }
    }

    /// The path as a platform path; sections and blocks give their note.
    pub fn as_path_buf(&self) -> (r: std::path::PathBuf)
        ensures
            path_buf_text_of(&r) == file_part(self@),
    {
        crate::native::path_buf_from(self.file_part_str())
    }

    /// The vault path of `path` relative to `root`: `NotUnderRoot` when `path`
    /// is not under `root`; otherwise the vault path of the relative text. A
    /// file path never gives a section or a block: a relative text that reads
    /// as one (a `#` in a file name) is `InvalidSubNotePath`.
    pub fn from_path(path: &std::path::Path, root: &std::path::Path) -> (r: Result<VaultPath, VaultPathError>)
        ensures
            match relative_text_of(path, root) {
                None => r matches Err(e) && e.fault() == VaultPathFault::NotUnderRoot,
                Some(t) => from_file_text(t) == match r {
                    Ok(p) => Ok::<(VaultPathKind, Seq<char>), VaultPathFault>(p@),
                    Err(e) => Err(e.fault()),
                },
            },
            r matches Ok(p) ==> p@.0 != VaultPathKind::Section && p@.0 != VaultPathKind::Block,
    {
        match crate::native::relative_text(path, root) {
            Some(t) => match VaultPath::new(t.as_str()) {
                Ok(VaultPath::Section(_)) | Ok(VaultPath::Block(_)) => Err(
                    VaultPathError::InvalidSubNotePath(owned("a file path cannot name a section or a block")),
                ),
                other => other,
            },
            None => Err(VaultPathError::NotUnderRoot),
        }
    }

    /// The extension of the file part in lowercase, if it has one.
    pub fn extension(&self) -> (r: Option<String>)
        ensures
            match r {
                Some(e) => self@.0 != VaultPathKind::Root && (file_extension(file_part(self@)) matches Some(x)
                    && e@ == lowercase_text(x) && (is_ascii_text(x) ==> e@ == ascii_lower(x))),
                None => self@.0 == VaultPathKind::Root || file_extension(file_part(self@)) is None,
            },
    {
        if self.is_root() {
            return None;
        }
        let s = self.file_part_str();
        let v = chars_of(s);
        assert(v@.subrange(0, v.len() as int) =~= v@);
        match extension_bounds(&v, v.len()) {
            Some((a, b)) => Some(s.substring_char(a, b).to_lowercase()),
            None => None,
        }
    }

    /// The file name of the file part without its extension; empty for the root.
    pub fn stem(&self) -> (r: &str)
        ensures
            r@ == (if self@.0 == VaultPathKind::Root { Seq::empty() } else { file_stem(file_part(self@)) }),
    {
        if self.is_root() {
            return self.as_str();
        }
        let s = self.file_part_str();
        let v = chars_of(s);
        assert(v@.subrange(0, v.len() as int) =~= v@);
        let (a, b) = file_name_bounds(&v, v.len());
        let ghost name = v@.subrange(a as int, b as int);
        proof {
            lemma_last_index_of_bounds(name, '.');
        }
        match find_last_in(&v, a, b, '.') {
            Some(k) => {
                assert(name.subrange(0, k - a) =~= v@.subrange(a as int, k as int));
                s.substring_char(a, k)
            },
            None => s.substring_char(a, b),
        }
    }

    /// The parent: the note of a section or block, the folder of a file or
    /// folder, `None` for the root and for files at the root.
    pub fn parent(&self) -> (r: Option<VaultPath>)
        ensures
            match r {
                Some(p) => parent_spec(self@) == Some(p@),
                None => parent_spec(self@) is None,
            },
    {
        match self {
            VaultPath::Root => None,
            VaultPath::Section(s) | VaultPath::Block(s) => {
                let v = chars_of(s.as_str());
                let h = hash_index(&v);
                Some(VaultPath::Note(string_from(&v, 0, h)))
            },
            VaultPath::Folder(s) => {
                let v = chars_of(s.as_str());
                let e = trim_end_bound(&v, 0, v.len(), '/');
                assert(v@.subrange(0, v.len() as int) =~= v@);
                let ghost p = v@.subrange(0, e as int);
                match find_last_in(&v, 0, e, '/') {
                    Some(j) => {
                        let mut t = string_from(&v, 0, j);
                        t.push('/');
                        assert(p.subrange(0, j as int) =~= v@.subrange(0, j as int));
                        Some(VaultPath::Folder(t))
                    },
                    None => Some(VaultPath::Root),
                }
            },
            VaultPath::Note(s) | VaultPath::Image(s) | VaultPath::Other(s) => {
                let v = chars_of(s.as_str());
                assert(v@.subrange(0, v.len() as int) =~= v@);
                match find_last_in(&v, 0, v.len(), '/') {
                    Some(j) => {
                        let mut t = string_from(&v, 0, j);
                        t.push('/');
                        Some(VaultPath::Folder(t))
                    },
                    None => None,
                }
            },
        }
    }

    /// The note of a section or block, the note itself, `None` otherwise.
    pub fn note_path(&self) -> (r: Option<VaultPath>)
        ensures
            match r {
                Some(p) => (self@.0 == VaultPathKind::Section || self@.0 == VaultPathKind::Block
                    || self@.0 == VaultPathKind::Note) && p@ == (VaultPathKind::Note, file_part(self@)),
                None => !(self@.0 == VaultPathKind::Section || self@.0 == VaultPathKind::Block
                    || self@.0 == VaultPathKind::Note),
            },
    {
        match self {
            VaultPath::Section(s) | VaultPath::Block(s) => {
                let v = chars_of(s.as_str());
                let h = hash_index(&v);
                Some(VaultPath::Note(string_from(&v, 0, h)))
            },
            VaultPath::Note(s) => Some(VaultPath::Note(s.clone())),
            _ => None,
        }
    }

    /// The identifier of a block (its fragment without leading `^`); `None` otherwise.
    pub fn block_id(&self) -> (r: Option<&str>)
        ensures
            match r {
                Some(id) => self@.0 == VaultPathKind::Block && id@ == trim_start_char(fragment(self@.1), '^'),
                None => self@.0 != VaultPathKind::Block,
            },
    {
        match self {
            VaultPath::Block(s) => {
                let v = chars_of(s.as_str());
                let n = v.len();
                let h = hash_index(&v);
                proof {
                    lemma_first_index_of_bounds(v@, '#');
                }
                let mut a = if h < n { h + 1 } else { n };
                assert(fragment(v@) =~= v@.subrange(a as int, n as int));
                while a < n && v[a] == '^'
                    invariant
                        a <= n == v.len(),
                        trim_start_char(fragment(v@), '^') == trim_start_char(v@.subrange(a as int, n as int), '^'),
                    decreases n - a,
                {
                    assert(v@.subrange(a as int, n as int).drop_first() =~= v@.subrange(a + 1, n as int));
                    a = a + 1;
                }
                Some(s.as_str().substring_char(a, n))
            },
            _ => None,
        }
    }

    /// The heading names of a section (its fragment split on `/`); empty otherwise.
    pub fn section_headings(&self) -> (r: Vec<String>)
        ensures
            self@.0 == VaultPathKind::Section && fragment(self@.1).len() > 0 ==> r@.map_values(
                |h: String| h@,
            ) == split_on(fragment(self@.1), '/'),
            !(self@.0 == VaultPathKind::Section && fragment(self@.1).len() > 0) ==> r@.len() == 0,
    {
        match self {
            VaultPath::Section(s) => {
                let v = chars_of(s.as_str());
                let n = v.len();
                let h = hash_index(&v);
                proof {
                    lemma_first_index_of_bounds(v@, '#');
                }
                let a = if h < n { h + 1 } else { n };
                assert(fragment(v@) =~= v@.subrange(a as int, n as int));
                if a == n {
                    return Vec::new();
                }
                split_range(&v, a, n, '/')
            },
            _ => Vec::new(),
        }
    }

    /// Whether the parent of this path is `folder`.
    pub fn is_in_folder(&self, folder: &VaultPath) -> (b: bool)
        ensures
            b == (parent_spec(self@) == Some(folder@)),
    {
        match self.parent() {
            Some(p) => p.same_as(folder),
            None => false,
        }
    }

    /// Whether both paths have the same kind and text.
    pub fn same_as(&self, other: &VaultPath) -> (b: bool)
        ensures
            b == (self@ == other@),
    {
        let a = chars_of(self.as_str());
        let c = chars_of(other.as_str());
        let same_kind = match (self, other) {
            (VaultPath::Root, VaultPath::Root) => true,
            (VaultPath::Folder(_), VaultPath::Folder(_)) => true,
            (VaultPath::Note(_), VaultPath::Note(_)) => true,
            (VaultPath::Section(_), VaultPath::Section(_)) => true,
            (VaultPath::Block(_), VaultPath::Block(_)) => true,
            (VaultPath::Image(_), VaultPath::Image(_)) => true,
            (VaultPath::Other(_), VaultPath::Other(_)) => true,
            _ => false,
        };
        assert(a@.subrange(0, a.len() as int) =~= a@);
        assert(c@.subrange(0, c.len() as int) =~= c@);
        same_kind && range_eq(&a, 0, a.len(), &c, 0, c.len())
    }

    /// Whether this path lies in the folder (or root) `folder` or below it.
    pub fn is_under_folder(&self, folder: &VaultPath) -> (b: bool)
        ensures
            b == under_folder_spec(self@, folder@),
    {
        if !folder.is_folder() {
            return false;
        }
        if self.is_root() {
            return false;
        }
        let fv = match folder {
            VaultPath::Root => {
                return true;
            },
            VaultPath::Folder(f) => chars_of(f.as_str()),
            _ => {
                return false;
            },
        };
        let fe = trim_end_bound(&fv, 0, fv.len(), '/');
        assert(fv@.subrange(0, fv.len() as int) =~= fv@);
        if fe == 0 {
            return true;
        }
        let pv = chars_of(self.file_part_str());
        let pe = trim_end_bound(&pv, 0, pv.len(), '/');
        assert(pv@.subrange(0, pv.len() as int) =~= pv@);
        let ghost p = pv@.subrange(0, pe as int);
        let ghost f = fv@.subrange(0, fe as int);
        if pe <= fe {
            return false;
        }
        let r = range_eq(&pv, 0, fe, &fv, 0, fe) && pv[fe] == '/';
        assert(p.subrange(0, fe as int) =~= pv@.subrange(0, fe as int));
        r
    }

    /// Whether the text ends with `suffix`.
    pub fn ends_with(&self, suffix: &str) -> (b: bool)
        ensures
            b == ends_with(self@.1, suffix@),
    {
        let v = chars_of(self.as_str());
        let w = chars_of(suffix);
        if w.len() > v.len() {
            return false;
        }
        assert(w@.subrange(0, w.len() as int) =~= w@);
        range_eq(&v, v.len() - w.len(), v.len(), &w, 0, w.len())
    }
}

/// The pieces of `v[lo..hi]` split on `c`.
fn split_range(v: &Vec<char>, lo: usize, hi: usize, c: char) -> (r: Vec<String>)
    requires
        lo <= hi <= v.len(),
    ensures
        r@.map_values(|h: String| h@) == split_on(v@.subrange(lo as int, hi as int), c),
    decreases hi - lo,
{
    let j = find_from_in(v, lo, hi, c);
    let piece = string_from(v, lo, j);
    let ghost s = v@.subrange(lo as int, hi as int);
    if j >= hi {
        let mut r = Vec::new();
        r.push(piece);
        assert(r@.map_values(|h: String| h@) =~= seq![s]);
        r
    } else {
        let rest = split_range(v, j + 1, hi, c);
        let mut r = Vec::new();
        r.push(piece);
        let mut r2 = rest;
        let ghost rest_view = r2@.map_values(|h: String| h@);
        assert(s.subrange(first_index_of(s, c) + 1, s.len() as int) =~= v@.subrange(j + 1, hi as int));
        assert(s.subrange(0, first_index_of(s, c)) =~= v@.subrange(lo as int, j as int));
        r.append(&mut r2);
        assert(r@.map_values(|h: String| h@) =~= seq![s.subrange(0, first_index_of(s, c))] + rest_view);
        r
    }
}

/// Index of the first `c` in `v[lo..hi]` (absolute), or `hi`.
fn find_from_in(v: &Vec<char>, lo: usize, hi: usize, c: char) -> (j: usize)
    requires
        lo <= hi <= v.len(),
    ensures
        lo <= j <= hi,
        j - lo == first_index_of(v@.subrange(lo as int, hi as int), c),
{
    let ghost s = v@.subrange(lo as int, hi as int);
    let mut i = lo;
    while i < hi && v[i] != c
        invariant
            lo <= i <= hi <= v.len(),
            forall|k: int| lo <= k < i ==> v@[k] != c,
        decreases hi - i,
    {
        i = i + 1;
    }
    proof {
        assert forall|k: int| 0 <= k < i - lo implies s[k] != c by {
            assert(s[k] == v@[lo + k]);
        }
        if i < hi {
            assert(s[i - lo] == v@[i as int]);
        }
        crate::text::lemma_first_index_of_is(s, c, i - lo);
    }
    i
}

} // verus!

verus! {

/// Parsing the text of a parsed vault path gives the same vault path.
pub proof fn law_vault_path_roundtrip(input: Seq<char>)
    requires
        vault_path_spec(input) is Ok,
    ensures
        vault_path_spec((vault_path_spec(input)->Ok_0).1) == vault_path_spec(input),
{
    lemma_normalize_is_normalized(input);
    lemma_normalized_fixpoint(normalize_separators(input));
}

/// `trim_end_char(s, c)` is a prefix of `s` that does not end with `c`, and
/// shorter than `s` when `s` ends with `c`.
proof fn lemma_trim_end_prefix(s: Seq<char>, c: char)
    ensures
        trim_end_char(s, c).len() <= s.len(),
        trim_end_char(s, c) == s.subrange(0, trim_end_char(s, c).len() as int),
        s.len() > 0 && s.last() == c ==> trim_end_char(s, c).len() < s.len(),
        s.len() > 0 && s[0] != c ==> trim_end_char(s, c).len() > 0,
    decreases s.len(),
{
    if s.len() > 0 && s.last() == c {
        lemma_trim_end_prefix(s.drop_last(), c);
        let t = trim_end_char(s.drop_last(), c);
        assert(s.drop_last().subrange(0, t.len() as int) =~= s.subrange(0, t.len() as int));
        if s.len() > 1 && s[0] != c {
            assert(s.drop_last()[0] == s[0]);
        }
    } else {
        assert(s.subrange(0, s.len() as int) =~= s);
    }
}

/// The folder `s[..k]/` of a valid text `s` with `s[k] == '/'` is a valid folder
/// text that `s` begins with.
proof fn lemma_folder_prefix(s: Seq<char>, k: int)
    requires
        is_normalized(s),
        !has_char(s, '#'),
        !has_parent_segment(s),
        1 <= k < s.len(),
        s[k] == '/',
    ensures
        vault_path_spec(s.subrange(0, k).push('/')) == Ok::<_, VaultPathFault>(
            (VaultPathKind::Folder, s.subrange(0, k).push('/')),
        ),
        starts_with(s, s.subrange(0, k).push('/')),
{
    let f = s.subrange(0, k).push('/');
    assert(f =~= s.subrange(0, k + 1));
    assert(is_normalized(f)) by {
        assert(f[0] == s[0]);
        assert forall|i: int| 0 <= i < f.len() implies f[i] != '\\' by {
            assert(f[i] == s[i]);
        }
    }
    lemma_normalized_fixpoint(f);
    if has_char(f, '#') {
        let i = choose|i: int| 0 <= i < f.len() && f[i] == '#';
        assert(s[i] == f[i]);
    }
    if has_parent_segment(f) {
        let i = choose|i: int| #[trigger] parent_segment_at(f, i);
        if i > 0 {
            assert(s[i - 1] == f[i - 1]);
        }
        assert(s[i] == f[i] && s[i + 1] == f[i + 1]);
        if i + 2 < f.len() {
            assert(s[i + 2] == f[i + 2]);
        }
        assert(i + 2 < f.len() || f[i + 1] == '/');
        assert(parent_segment_at(s, i));
    }
}

/// Whether `v` is a section or block of a note whose file name is just `.md`:
/// that note's text reads back as an other file, not as a note.
pub open spec fn bare_md_note_of(v: (VaultPathKind, Seq<char>)) -> bool {
    (v.0 == VaultPathKind::Section || v.0 == VaultPathKind::Block) && file_name(note_part(v.1)) == md_suffix()
}

/// The parent of a valid path reads back as itself through `new`, is a
/// shorter text that the path begins with, and is the root, a folder or
/// (exactly for sections and blocks) a note; so following parents from any
/// valid path ends after at most its length plus one steps. Left out: a
/// section or block of a note whose file name is just `.md` (see
/// `bare_md_note_of`).
pub proof fn law_parent_reads_back(input: Seq<char>)
    requires
        vault_path_spec(input) is Ok,
        parent_spec(vault_path_spec(input)->Ok_0) is Some,
        !bare_md_note_of(vault_path_spec(input)->Ok_0),
    ensures
        ({
            let v = vault_path_spec(input)->Ok_0;
            let p = parent_spec(v)->Some_0;
            &&& vault_path_spec(p.1) == Ok::<_, VaultPathFault>(p)
            &&& starts_with(v.1, p.1)
            &&& p.1.len() < v.1.len()
            &&& (p.0 == VaultPathKind::Root || p.0 == VaultPathKind::Folder || p.0 == VaultPathKind::Note)
            &&& (p.0 == VaultPathKind::Note <==> (v.0 == VaultPathKind::Section || v.0 == VaultPathKind::Block))
        }),
{
    let v = vault_path_spec(input)->Ok_0;
    let n = normalize_separators(input);
    lemma_normalize_is_normalized(input);
    assert(v.1 == n);
    law_vault_path_roundtrip(input);
    let p = parent_spec(v)->Some_0;
    if v.0 == VaultPathKind::Section || v.0 == VaultPathKind::Block {
        lemma_note_part_reads_back(n);
        assert(p == (VaultPathKind::Note, note_part(n)));
    } else if v.0 == VaultPathKind::Folder {
        assert(!has_char(n, '#'));
        assert(n.last() == '/');
        let q = trim_end_char(n, '/');
        lemma_trim_end_prefix(n, '/');
        let k = last_index_of(q, '/');
        lemma_last_index_of_bounds(q, '/');
        if k >= 0 {
            assert(q[k] == n[k]);
            assert(q[0] == n[0]);
            lemma_folder_prefix(n, k);
            assert(q.subrange(0, k) =~= n.subrange(0, k));
            assert(p == (VaultPathKind::Folder, n.subrange(0, k).push('/')));
        } else {
            assert(n.subrange(0, 0) =~= Seq::<char>::empty());
            lemma_normalized_fixpoint(Seq::<char>::empty());
            assert(vault_path_spec(Seq::<char>::empty()) == Ok::<_, VaultPathFault>(
                (VaultPathKind::Root, Seq::<char>::empty()),
            ));
            assert(p == (VaultPathKind::Root, Seq::<char>::empty()));
        }
    } else {
        assert(!has_char(n, '#'));
        assert(n.last() != '/');
        let k = last_index_of(n, '/');
        lemma_last_index_of_bounds(n, '/');
        assert(k >= 1);
        lemma_folder_prefix(n, k);
        assert(p == (VaultPathKind::Folder, n.subrange(0, k).push('/')));
    }
}

/// The note part of a valid section or block text (whose file name is not
/// just `.md`) is a valid note text that the text begins with.
proof fn lemma_note_part_reads_back(n: Seq<char>)
    requires
        vault_path_spec(n) is Ok,
        (vault_path_spec(n)->Ok_0).0 == VaultPathKind::Section || (vault_path_spec(n)->Ok_0).0
            == VaultPathKind::Block,
        file_name(note_part(n)) != md_suffix(),
        is_normalized(n),
    ensures
        vault_path_spec(note_part(n)) == Ok::<_, VaultPathFault>((VaultPathKind::Note, note_part(n))),
        starts_with(n, note_part(n)),
        note_part(n).len() < n.len(),
{
    lemma_normalized_fixpoint(n);
    let h = first_index_of(n, '#');
    lemma_first_index_of_bounds(n, '#');
    let m = note_part(n);
    assert(h < n.len());
    assert(m.len() == h);
    assert(ends_with(m, md_suffix()));
    let l = m.len();
    assert(m[l - 1] == 'd' && m[l - 2] == 'm' && m[l - 3] == '.') by {
        assert(m.subrange(l - 3, l as int)[0] == m[l - 3]);
        assert(m.subrange(l - 3, l as int)[1] == m[l - 2]);
        assert(m.subrange(l - 3, l as int)[2] == m[l - 1]);
    }
    assert(is_normalized(m)) by {
        assert(m[0] == n[0]);
        assert forall|i: int| 0 <= i < m.len() implies m[i] != '\\' by {
            assert(m[i] == n[i]);
        }
    }
    lemma_normalized_fixpoint(m);
    if has_char(m, '#') {
        let i = choose|i: int| 0 <= i < m.len() && m[i] == '#';
        assert(n[i] == m[i]);
    }
    if has_parent_segment(m) {
        let i = choose|i: int| #[trigger] parent_segment_at(m, i);
        if i > 0 {
            assert(n[i - 1] == m[i - 1]);
        }
        assert(n[i] == m[i] && n[i + 1] == m[i + 1]);
        if i + 2 < m.len() {
            assert(n[i + 2] == m[i + 2]);
            assert(parent_segment_at(n, i));
        }
    }
    // The file name and its extension.
    let p = trim_end_char(m, '/');
    assert(p == m);
    let k = last_index_of(p, '/');
    lemma_last_index_of_bounds(p, '/');
    let name = p.subrange(k + 1, p.len() as int);
    assert(name.len() >= 3) by {
        assert(m[l - 1] != '/' && m[l - 2] != '/' && m[l - 3] != '/');
    }
    let nl = name.len();
    assert(name[nl - 1] == 'd' && name[nl - 2] == 'm' && name[nl - 3] == '.');
    lemma_last_index_of_is(name, '.', nl - 3);
    if name[0] == '.' {
        assert(name != md_suffix());
        assert(nl > 3) by {
            if nl == 3 {
                assert(name =~= md_suffix());
            }
        }
        assert(name.subrange(1, nl as int)[nl - 4] == '.');
    }
    reveal_strlit("md");
    assert(name.subrange(nl - 2, nl as int) =~= "md"@);
    assert(m.subrange(0, h) =~= m);
    assert(starts_with(n, m));
}

/// The parent of a section or block is the note it belongs to.
pub proof fn law_sub_note_parent_is_note(input: Seq<char>)
    requires
        vault_path_spec(input) is Ok,
        (vault_path_spec(input)->Ok_0).0 == VaultPathKind::Section
            || (vault_path_spec(input)->Ok_0).0 == VaultPathKind::Block,
    ensures
        parent_spec(vault_path_spec(input)->Ok_0) == Some(
            (VaultPathKind::Note, note_part((vault_path_spec(input)->Ok_0).1)),
        ),
        ends_with(note_part((vault_path_spec(input)->Ok_0).1), md_suffix()),
{
}

} // verus!

verus! {

impl std::str::FromStr for VaultPath {
    type Err = VaultPathError;

    fn from_str(s: &str) -> (r: Result<Self, Self::Err>)
        ensures
            match r {
                Ok(p) => vault_path_spec(s@) == Ok::<_, VaultPathFault>(p@),
                Err(e) => vault_path_spec(s@) == Err::<(VaultPathKind, Seq<char>), _>(e.fault()),
            },
    {
        VaultPath::new(s)
    }
}

impl vstd::std_specs::convert::TryFromSpecImpl<&str> for VaultPath {
    open spec fn obeys_try_from_spec() -> bool {
        false
    }

    /// Not used: `try_from` is `VaultPath::new`, whose contract states the result.
    closed spec fn try_from_spec(v: &str) -> Result<VaultPath, VaultPathError> {
        Err(VaultPathError::Empty)
    }
}

impl TryFrom<&str> for VaultPath {
    type Error = VaultPathError;

    fn try_from(value: &str) -> (r: Result<Self, Self::Error>)
        ensures
            match r {
                Ok(p) => vault_path_spec(value@) == Ok::<_, VaultPathFault>(p@),
                Err(e) => vault_path_spec(value@) == Err::<(VaultPathKind, Seq<char>), _>(e.fault()),
            },
    {
        VaultPath::new(value)
    }
}

impl vstd::std_specs::convert::TryFromSpecImpl<String> for VaultPath {
    open spec fn obeys_try_from_spec() -> bool {
        false
    }

    /// Not used: `try_from` is `VaultPath::new`, whose contract states the result.
    closed spec fn try_from_spec(v: String) -> Result<VaultPath, VaultPathError> {
        Err(VaultPathError::Empty)
    }
}

impl TryFrom<String> for VaultPath {
    type Error = VaultPathError;

    fn try_from(value: String) -> (r: Result<Self, Self::Error>)
        ensures
            match r {
                Ok(p) => vault_path_spec(value@) == Ok::<_, VaultPathFault>(p@),
                Err(e) => vault_path_spec(value@) == Err::<(VaultPathKind, Seq<char>), _>(e.fault()),
            },
    {
        VaultPath::new(value.as_str())
    }
}

impl vstd::std_specs::convert::TryFromSpecImpl<std::path::PathBuf> for VaultPath {
    open spec fn obeys_try_from_spec() -> bool {
        false
    }

    /// Not used: `try_from` is `VaultPath::new`, whose contract states the result.
    closed spec fn try_from_spec(v: std::path::PathBuf) -> Result<VaultPath, VaultPathError> {
        Err(VaultPathError::Empty)
    }
}

impl TryFrom<std::path::PathBuf> for VaultPath {
    type Error = VaultPathError;

    fn try_from(value: std::path::PathBuf) -> (r: Result<Self, Self::Error>)
        ensures
            match r {
                Ok(p) => vault_path_spec(path_buf_text_of(&value)) == Ok::<_, VaultPathFault>(p@),
                Err(e) => vault_path_spec(path_buf_text_of(&value)) == Err::<(VaultPathKind, Seq<char>), _>(e.fault()),
            },
    {
        let t = crate::native::path_buf_text(&value);
        VaultPath::new(t.as_str())
    }
}

impl<'a> vstd::std_specs::convert::TryFromSpecImpl<&'a std::path::Path> for VaultPath {
    open spec fn obeys_try_from_spec() -> bool {
        false
    }

    /// Not used: `try_from` is `VaultPath::new`, whose contract states the result.
    closed spec fn try_from_spec(v: &'a std::path::Path) -> Result<VaultPath, VaultPathError> {
        Err(VaultPathError::Empty)
    }
}

impl<'a> TryFrom<&'a std::path::Path> for VaultPath {
    type Error = VaultPathError;

    fn try_from(value: &'a std::path::Path) -> (r: Result<Self, Self::Error>)
        ensures
            match r {
                Ok(p) => vault_path_spec(path_text_of(value)) == Ok::<_, VaultPathFault>(p@),
                Err(e) => vault_path_spec(path_text_of(value)) == Err::<(VaultPathKind, Seq<char>), _>(e.fault()),
            },
    {
        let t = crate::native::path_text(value);
        VaultPath::new(t.as_str())
    }
}

impl VaultPath {
    /// The text (the same as `as_str`, owned).
    pub fn to_string(&self) -> (r: String)
        ensures
            r@ == self@.1,
    {
        let v = chars_of(self.as_str());
        let s = string_from(&v, 0, v.len());
        assert(v@.subrange(0, v.len() as int) =~= v@);
        s
    }
}

} // verus!
