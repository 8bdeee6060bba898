//! Validated, platform-independent note paths (`projects/alpha/design.md`).
use vstd::prelude::*;
use vstd::string::StrSliceExecFns;

use crate::native::{path_buf_text_of, path_text_of, relative_text_of};
use crate::paths::{
    has_parent_segment, has_parent_segment_exec, is_normalized, lemma_normalize_is_normalized,
    lemma_normalized_fixpoint, md_suffix, normalize_separators, normalize_separators_exec,
    ends_with_md,
};
use crate::text::{
    chars_of, ends_with, find_last, owned, last_index_of, lemma_last_index_of_bounds, range_eq,
    starts_with, string_from, trim_end_char, trim_matches_bounds, trim_matches_char, trim_start_char,
};

verus! {

/// Why a text is not a note path.
#[derive(Debug, Clone, Copy, PartialEq, Eq, Structural)]
pub enum NotePathError {
    /// The normalised text does not end with `.md`.
    InvalidExtension,
    /// The text is empty.
    Empty,
    /// One segment is `..`.
    PathTraversal,
    /// A file path is not under the vault's root.
    NotUnderRoot,
}

impl NotePathError {
    /// The error's message.
    pub open spec fn message(&self) -> Seq<char> {
        match self {
            NotePathError::InvalidExtension => "note path must have .md extension"@,
            NotePathError::Empty => "note path cannot be empty"@,
            NotePathError::PathTraversal => "note path cannot contain '..' traversal"@,
            NotePathError::NotUnderRoot => "path is not under root"@,
        }
    }

    /// The error's message.
    pub fn to_string(&self) -> (r: String)
        ensures
            r@ == self.message(),
    {
        match self {
            NotePathError::InvalidExtension => owned("note path must have .md extension"),
            NotePathError::Empty => owned("note path cannot be empty"),
            NotePathError::PathTraversal => owned("note path cannot contain '..' traversal"),
            NotePathError::NotUnderRoot => owned("path is not under root"),
        }
    }
}

/// What `NotePath::new` gives for the text `s`: the normalised text, or the error.
pub open spec fn note_path_spec(s: Seq<char>) -> Result<Seq<char>, NotePathError> {
    if s.len() == 0 {
        Err(NotePathError::Empty)
    } else if has_parent_segment(normalize_separators(s)) {
        Err(NotePathError::PathTraversal)
    } else if !ends_with(normalize_separators(s), md_suffix()) {
        Err(NotePathError::InvalidExtension)
    } else {
        Ok(normalize_separators(s))
    }
}

/// The texts that a `NotePath` can hold.
pub open spec fn valid_note_text(s: Seq<char>) -> bool {
    &&& ends_with(s, md_suffix())
    &&& !has_parent_segment(s)
    &&& is_normalized(s)
}

/// The folder part of a note text: what precedes its last `/`.
pub open spec fn note_parent(s: Seq<char>) -> Option<Seq<char>> {
    if last_index_of(s, '/') < 0 {
        None
    } else {
        Some(s.subrange(0, last_index_of(s, '/')))
    }
}

/// The file name of a note text without `.md`; the whole text if its last segment lacks `.md`.
pub open spec fn note_stem(s: Seq<char>) -> Seq<char> {
    let seg = s.subrange(last_index_of(s, '/') + 1, s.len() as int);
    if ends_with(seg, md_suffix()) {
        seg.subrange(0, seg.len() - 3)
    } else {
        s
    }
}

/// The folder argument of the folder queries, with surrounding `/` removed.
pub open spec fn folder_key(folder: Seq<char>) -> Seq<char> {
    trim_matches_char(folder, '/')
}

/// The note text lies directly in `folder`.
pub open spec fn note_in_folder(s: Seq<char>, folder: Seq<char>) -> bool {
    match note_parent(s) {
        Some(p) => p == folder_key(folder),
        None => folder_key(folder).len() == 0,
    }
}

/// The note text lies in `folder` or one of its sub-folders.
pub open spec fn note_under_folder(s: Seq<char>, folder: Seq<char>) -> bool {
    let f = folder_key(folder);
    f.len() == 0 || (starts_with(s, f) && s.len() > f.len() && s[f.len() as int] == '/')
}

/// A validated note path; separators are always `/`.
#[derive(Debug, PartialEq, Eq, Hash)]
pub struct NotePath(String);

impl Clone for NotePath {
    fn clone(&self) -> (r: Self)
        ensures
            r@ == self@,
    {
        proof {
            use_type_invariant(self);
        }
        NotePath(self.0.clone())
    }
}

impl View for NotePath {
    type V = Seq<char>;

    closed spec fn view(&self) -> Seq<char> {
        self.0@
    }
}

impl NotePath {
    #[verifier::type_invariant]
    closed spec fn inv(self) -> bool {
        valid_note_text(self.0@)
    }

    /// Validates and normalises `path`: separators become `/`, leading ones are dropped.
    pub fn new(path: &str) -> (r: Result<NotePath, NotePathError>)
        ensures
            match r {
                Ok(p) => note_path_spec(path@) == Ok::<Seq<char>, NotePathError>(p@),
                Err(e) => note_path_spec(path@) == Err::<Seq<char>, NotePathError>(e),
            },
    {
        let chars = chars_of(path);
        if chars.len() == 0 {
            return Err(NotePathError::Empty);
        }
        let normalized = normalize_separators_exec(&chars);
        if has_parent_segment_exec(&normalized) {
            return Err(NotePathError::PathTraversal);
        }
        if !ends_with_md(&normalized) {
            return Err(NotePathError::InvalidExtension);
        }
        proof {
            lemma_normalize_is_normalized(path@);
        }
        let s = string_from(&normalized, 0, normalized.len());
        assert(normalized@.subrange(0, normalized@.len() as int) =~= normalized@);
        Ok(NotePath(s))
    }

    /// The normalised text.
    pub fn as_str(&self) -> (r: &str)
        ensures
            r@ == self@,
    {
        self.0.as_str()
    }

    /// The note's title: its file name without `.md`.
    pub fn stem(&self) -> (r: &str)
        ensures
            r@ == note_stem(self@),
    {
        proof {
            use_type_invariant(self);
        }
        let v = chars_of(self.0.as_str());
        let n = v.len();
        let start = match find_last(&v, '/') {
            Some(i) => i + 1,
            None => 0,
        };
        proof {
            lemma_last_index_of_bounds(v@, '/');
        }
        let seg_len = n - start;
        if seg_len >= 3 && v[n - 3] == '.' && v[n - 2] == 'm' && v[n - 1] == 'd' {
            let ghost seg = v@.subrange(start as int, n as int);
            assert(seg.subrange(seg.len() - 3, seg.len() as int) =~= md_suffix());
            assert(seg.subrange(0, seg.len() - 3) =~= v@.subrange(start as int, n - 3));
            self.0.as_str().substring_char(start, n - 3)
        } else {
            let ghost seg = v@.subrange(start as int, n as int);
            assert(!ends_with(seg, md_suffix())) by {
                if ends_with(seg, md_suffix()) {
                    assert(seg.subrange(seg.len() - 3, seg.len() as int)[0] == v@[n - 3]);
                    assert(seg.subrange(seg.len() - 3, seg.len() as int)[1] == v@[n - 2]);
                    assert(seg.subrange(seg.len() - 3, seg.len() as int)[2] == v@[n - 1]);
                }
            }
            self.0.as_str()
        }
    }

    /// The folder that holds the note, or `None` at the vault root.
    pub fn parent(&self) -> (r: Option<&str>)
        ensures
            match r {
                Some(p) => note_parent(self@) == Some(p@),
                None => note_parent(self@) is None,
            },
    {
        let v = chars_of(self.0.as_str());
        match find_last(&v, '/') {
            Some(i) => Some(self.0.as_str().substring_char(0, i)),
            None => None,
        }
    }

    /// Whether the note lies directly in `folder` (surrounding `/` ignored).
    pub fn is_in_folder(&self, folder: &str) -> (b: bool)
        ensures
            b == note_in_folder(self@, folder@),
    {
        let f = chars_of(folder);
        let (lo, hi) = trim_matches_bounds(&f, '/');
        let v = chars_of(self.0.as_str());
        match find_last(&v, '/') {
            Some(i) => range_eq(&v, 0, i, &f, lo, hi),
            None => lo == hi,
        }
    }

    /// Whether the note lies in `folder` or below it (surrounding `/` ignored).
    pub fn is_under_folder(&self, folder: &str) -> (b: bool)
        ensures
            b == note_under_folder(self@, folder@),
    {
        let f = chars_of(folder);
        let (lo, hi) = trim_matches_bounds(&f, '/');
        if lo == hi {
            return true;
        }
        let v = chars_of(self.0.as_str());
        let flen = hi - lo;
        if v.len() <= flen {
            return false;
        }
        range_eq(&v, 0, flen, &f, lo, hi) && v[flen] == '/'
    }
}

/// Parsing the text of a parsed note path gives the same note path.
pub proof fn law_note_path_roundtrip(input: Seq<char>)
    requires
        note_path_spec(input) is Ok,
    ensures
        note_path_spec(note_path_spec(input)->Ok_0) == note_path_spec(input),
{
    lemma_normalize_is_normalized(input);
    lemma_normalized_fixpoint(normalize_separators(input));
}

proof fn lemma_trim_start_front(x: Seq<char>, c: char)
    ensures
        trim_start_char(seq![c] + x, c) == trim_start_char(x, c),
{
    assert((seq![c] + x).drop_first() =~= x);
}

proof fn lemma_trim_end_back(y: Seq<char>, c: char)
    ensures
        trim_end_char(y + seq![c], c) == trim_end_char(y, c),
{
    assert((y + seq![c]).drop_last() =~= y);
}

proof fn lemma_trim_both_back(x: Seq<char>, c: char)
    ensures
        trim_end_char(trim_start_char(x + seq![c], c), c) == trim_end_char(trim_start_char(x, c), c),
    decreases x.len(),
{
    let e = Seq::<char>::empty();
    if x.len() == 0 {
        assert(x + seq![c] =~= seq![c]);
        assert(seq![c].drop_first() =~= e);
        assert(trim_start_char(e, c) == e);
        assert(trim_start_char(seq![c], c) == trim_start_char(e, c));
        assert(x =~= e);
        assert(trim_end_char(e, c) == e);
    } else if x[0] == c {
        assert((x + seq![c]).drop_first() =~= x.drop_first() + seq![c]);
        assert(trim_start_char(x + seq![c], c) == trim_start_char(x.drop_first() + seq![c], c));
        assert(trim_start_char(x, c) == trim_start_char(x.drop_first(), c));
        lemma_trim_both_back(x.drop_first(), c);
    } else {
        assert((x + seq![c])[0] == x[0]);
        assert(trim_start_char(x + seq![c], c) == x + seq![c]);
        assert(trim_start_char(x, c) == x);
        lemma_trim_end_back(x, c);
    }
}

/// Being under a folder ignores the folder's surrounding `/`: the note lies
/// under `folder` exactly when the folder's text without them is empty, or the
/// note's text begins with it followed by `/`; `/folder/` gives the same answer;
/// and a note directly in a folder is under it.
pub proof fn law_note_under_folder(s: Seq<char>, folder: Seq<char>)
    ensures
        note_under_folder(s, folder) == ({
            let g = trim_matches_char(folder, '/');
            g.len() == 0 || (starts_with(s, g) && s.len() > g.len() && s[g.len() as int] == '/')
        }),
        note_under_folder(s, seq!['/'] + folder + seq!['/']) == note_under_folder(s, folder),
        note_in_folder(s, folder) ==> note_under_folder(s, folder),
{
    lemma_trim_start_front(folder + seq!['/'], '/');
    assert(seq!['/'] + folder + seq!['/'] =~= seq!['/'] + (folder + seq!['/']));
    lemma_trim_both_back(folder, '/');
    if note_in_folder(s, folder) {
        law_note_in_folder_is_under(s, folder);
    }
}

/// A note that lies directly in a folder also lies under it.
pub proof fn law_note_in_folder_is_under(s: Seq<char>, folder: Seq<char>)
    requires
        note_in_folder(s, folder),
    ensures
        note_under_folder(s, folder),
{
    let f = folder_key(folder);
    lemma_last_index_of_bounds(s, '/');
    if last_index_of(s, '/') >= 0 {
        assert(s.subrange(0, f.len() as int) == f);
    }
}

} // verus!

verus! {

impl NotePath {
    /// The path as a platform path.
    pub fn as_path_buf(&self) -> (r: std::path::PathBuf)
        ensures
            path_buf_text_of(&r) == self@,
    {
        crate::native::path_buf_from(self.0.as_str())
    }

    /// The note path of `path` relative to `root`; `NotUnderRoot` when `path`
    /// is not under `root`.
    pub fn from_path(path: &std::path::Path, root: &std::path::Path) -> (r: Result<NotePath, NotePathError>)
        ensures
            match relative_text_of(path, root) {
                None => r == Err::<NotePath, NotePathError>(NotePathError::NotUnderRoot),
                Some(t) => match r {
                    Ok(p) => note_path_spec(t) == Ok::<Seq<char>, NotePathError>(p@),
                    Err(e) => note_path_spec(t) == Err::<Seq<char>, NotePathError>(e),
                },
            },
    {
        match crate::native::relative_text(path, root) {
            Some(t) => NotePath::new(t.as_str()),
            None => Err(NotePathError::NotUnderRoot),
        }
    }
}

impl std::str::FromStr for NotePath {
    type Err = NotePathError;

    fn from_str(s: &str) -> (r: Result<Self, Self::Err>)
        ensures
            match r {
                Ok(p) => note_path_spec(s@) == Ok::<Seq<char>, NotePathError>(p@),
                Err(e) => note_path_spec(s@) == Err::<Seq<char>, NotePathError>(e),
            },
    {
        NotePath::new(s)
    }
}

impl vstd::std_specs::convert::TryFromSpecImpl<&str> for NotePath {
    open spec fn obeys_try_from_spec() -> bool {
        false
    }

    /// Not used: `try_from` is `NotePath::new`, whose contract states the result.
    closed spec fn try_from_spec(v: &str) -> Result<NotePath, NotePathError> {
        Err(NotePathError::Empty)
    }
}

impl TryFrom<&str> for NotePath {
    type Error = NotePathError;

    fn try_from(value: &str) -> (r: Result<Self, Self::Error>)
        ensures
            match r {
                Ok(p) => note_path_spec(value@) == Ok::<Seq<char>, NotePathError>(p@),
                Err(e) => note_path_spec(value@) == Err::<Seq<char>, NotePathError>(e),
            },
    {
        NotePath::new(value)
    }
}

impl vstd::std_specs::convert::TryFromSpecImpl<String> for NotePath {
    open spec fn obeys_try_from_spec() -> bool {
        false
    }

    /// Not used: `try_from` is `NotePath::new`, whose contract states the result.
    closed spec fn try_from_spec(v: String) -> Result<NotePath, NotePathError> {
        Err(NotePathError::Empty)
    }
}

impl TryFrom<String> for NotePath {
    type Error = NotePathError;

    fn try_from(value: String) -> (r: Result<Self, Self::Error>)
        ensures
            match r {
                Ok(p) => note_path_spec(value@) == Ok::<Seq<char>, NotePathError>(p@),
                Err(e) => note_path_spec(value@) == Err::<Seq<char>, NotePathError>(e),
            },
    {
        NotePath::new(value.as_str())
    }
}

impl vstd::std_specs::convert::TryFromSpecImpl<std::path::PathBuf> for NotePath {
    open spec fn obeys_try_from_spec() -> bool {
        false
    }

    /// Not used: `try_from` is `NotePath::new`, whose contract states the result.
    closed spec fn try_from_spec(v: std::path::PathBuf) -> Result<NotePath, NotePathError> {
        Err(NotePathError::Empty)
    }
}

impl TryFrom<std::path::PathBuf> for NotePath {
    type Error = NotePathError;

    fn try_from(value: std::path::PathBuf) -> (r: Result<Self, Self::Error>)
        ensures
            match r {
                Ok(p) => note_path_spec(path_buf_text_of(&value)) == Ok::<Seq<char>, NotePathError>(p@),
                Err(e) => note_path_spec(path_buf_text_of(&value)) == Err::<Seq<char>, NotePathError>(e),
            },
    {
        let t = crate::native::path_buf_text(&value);
        NotePath::new(t.as_str())
    }
}

impl<'a> vstd::std_specs::convert::TryFromSpecImpl<&'a std::path::Path> for NotePath {
    open spec fn obeys_try_from_spec() -> bool {
        false
    }

    /// Not used: `try_from` is `NotePath::new`, whose contract states the result.
    closed spec fn try_from_spec(v: &'a std::path::Path) -> Result<NotePath, NotePathError> {
        Err(NotePathError::Empty)
    }
}

impl<'a> TryFrom<&'a std::path::Path> for NotePath {
    type Error = NotePathError;

    fn try_from(value: &'a std::path::Path) -> (r: Result<Self, Self::Error>)
        ensures
            match r {
                Ok(p) => note_path_spec(path_text_of(value)) == Ok::<Seq<char>, NotePathError>(p@),
                Err(e) => note_path_spec(path_text_of(value)) == Err::<Seq<char>, NotePathError>(e),
            },
    {
        let t = crate::native::path_text(value);
        NotePath::new(t.as_str())
    }
}

impl AsRef<str> for NotePath {
    fn as_ref(&self) -> &str {
        self.0.as_str()
    }
}

impl From<NotePath> for String {
    fn from(path: NotePath) -> (r: String) {
        path.0
    }
}

impl vstd::std_specs::convert::FromSpecImpl<NotePath> for String {
    open spec fn obeys_from_spec() -> bool {
        true
    }

    closed spec fn from_spec(path: NotePath) -> String {
        path.0
    }
}

} // verus!

verus! {

impl NotePath {
    /// The text (the same as `as_str`, owned).
    pub fn to_string(&self) -> (r: String)
        ensures
            r@ == self@,
    {
        let v = chars_of(self.0.as_str());
        let s = string_from(&v, 0, v.len());
        assert(v@.subrange(0, v.len() as int) =~= v@);
        s
    }
}

} // verus!
