//! Image content as a `data:` URI: a MIME type and base64 text.
use vstd::prelude::*;

use base64::Engine;

use crate::scan::{find_seq, find_seq_exec, lemma_find_seq_bounds, match_at};
use crate::text::{chars_of, range_is, string_from, sub_vec};

verus! {

#[verifier::external_type_specification]
#[verifier::external_body]
pub struct ExDecodeError(base64::DecodeError);

/// The standard base64 text (with padding) of some bytes.
pub uninterp spec fn base64_encoded(bytes: Seq<u8>) -> Seq<char>;

/// The bytes a text decodes to under standard base64, when it is valid.
pub uninterp spec fn base64_decoded(text: Seq<char>) -> Option<Seq<u8>>;

/// `STANDARD.encode` of the base64 crate. The result is named, and decoding it
/// gives the bytes back, as the crate documents for its standard engine.
#[verifier::external_body]
fn encode_base64(data: &[u8]) -> (r: String)
    ensures
        r@ == base64_encoded(data@),
        base64_decoded(r@) == Some(data@),
{
    base64::engine::general_purpose::STANDARD.encode(data)
}

/// `STANDARD.decode` of the base64 crate: it fails exactly when the text is not
/// valid standard base64, and otherwise gives the named bytes.
#[verifier::external_body]
fn decode_base64(text: &str) -> (r: Result<Vec<u8>, base64::DecodeError>)
    ensures
        r is Ok <==> base64_decoded(text@) is Some,
        r matches Ok(b) ==> Some(b@) == base64_decoded(text@),
{
    base64::engine::general_purpose::STANDARD.decode(text)
}

/// Why a text is not a `data:` URI.
#[derive(Debug)]
pub enum DataURIError {
    MissingPrefix,
    MissingSeparator,
    EmptyMime,
    InvalidBase64(base64::DecodeError),
}

/// The error kinds of `DataURIError`, without the decoder's details.
pub enum DataUriFault {
    MissingPrefix,
    MissingSeparator,
    EmptyMime,
    InvalidBase64,
}

impl DataURIError {
    pub open spec fn fault(&self) -> DataUriFault {
        match self {
            DataURIError::MissingPrefix => DataUriFault::MissingPrefix,
            DataURIError::MissingSeparator => DataUriFault::MissingSeparator,
            DataURIError::EmptyMime => DataUriFault::EmptyMime,
            DataURIError::InvalidBase64(_) => DataUriFault::InvalidBase64,
        }
    }

    /// The message of the error.
    pub open spec fn message(&self) -> Seq<char> {
        match self {
            DataURIError::MissingPrefix => "missing 'data:' prefix"@,
            DataURIError::MissingSeparator => "missing ';base64,' separator"@,
            DataURIError::EmptyMime => "empty MIME type"@,
            DataURIError::InvalidBase64(e) => "invalid base64 data: "@ + decode_error_text_of(e),
        }
    }

    /// The message of the error.
    pub fn to_string(&self) -> (r: String)
        ensures
            r@ == self.message(),
    {
        match self {
            DataURIError::MissingPrefix => crate::text::owned("missing 'data:' prefix"),
            DataURIError::MissingSeparator => crate::text::owned("missing ';base64,' separator"),
            DataURIError::EmptyMime => crate::text::owned("empty MIME type"),
            DataURIError::InvalidBase64(e) => {
                let mut s = crate::text::owned("invalid base64 data: ");
                let m = decode_error_message(e);
                s.append(m.as_str());
                s
            },
        }
    }
}

/// The decoder's message for its error (its `Display`), a function of the
/// error value alone.
pub uninterp spec fn decode_error_text_of(e: &base64::DecodeError) -> Seq<char>;

/// The decoder's own message for its error (its `Display`). Stated: the text
/// is `decode_error_text_of` of the error.
#[verifier::external_body]
fn decode_error_message(e: &base64::DecodeError) -> (r: String)
    ensures
        r@ == decode_error_text_of(e),
{
    e.to_string()
}

/// A MIME type with base64-encoded data.
#[derive(Debug, Clone, PartialEq, Eq)]
pub struct DataURI {
    mime: String,
    data: String,
}

impl View for DataURI {
    type V = (Seq<char>, Seq<char>);

    closed spec fn view(&self) -> (Seq<char>, Seq<char>) {
        (self.mime@, self.data@)
    }
}

pub open spec fn prefix_text() -> Seq<char> {
    seq!['d', 'a', 't', 'a', ':']
}

pub open spec fn separator_text() -> Seq<char> {
    seq![';', 'b', 'a', 's', 'e', '6', '4', ',']
}

/// What parsing `s` as a `data:` URI gives: the MIME type and the data text, or
/// the first thing that is wrong with it.
pub open spec fn data_uri_spec(s: Seq<char>) -> Result<(Seq<char>, Seq<char>), DataUriFault> {
    if !match_at(s, 0, prefix_text()) {
        Err(DataUriFault::MissingPrefix)
    } else {
        let rest = s.skip(5);
        let k = find_seq(rest, 0, separator_text());
        if k < 0 {
            Err(DataUriFault::MissingSeparator)
        } else if k == 0 {
            Err(DataUriFault::EmptyMime)
        } else if base64_decoded(rest.skip(k + 8)) is None {
            Err(DataUriFault::InvalidBase64)
        } else {
            Ok((rest.take(k), rest.skip(k + 8)))
        }
    }
}

impl DataURI {
    /// The URI of `data` with type `mime`.
    pub fn new(mime: String, data: &[u8]) -> (r: DataURI)
        ensures
            r@ == (mime@, base64_encoded(data@)),
            base64_decoded(r@.1) == Some(data@),
    {
        DataURI { mime, data: encode_base64(data) }
    }

    /// The bytes of the data.
    pub fn decode(&self) -> (r: Result<Vec<u8>, DataURIError>)
        ensures
            match r {
                Ok(b) => base64_decoded(self@.1) == Some(b@),
                Err(e) => base64_decoded(self@.1) is None && e.fault() == DataUriFault::InvalidBase64,
            },
    {
        match decode_base64(self.data.as_str()) {
            Ok(b) => Ok(b),
            Err(e) => Err(DataURIError::InvalidBase64(e)),
        }
    }

    /// The MIME type.
    pub fn mime(&self) -> (r: &str)
        ensures
            r@ == self@.0,
    {
        self.mime.as_str()
    }

    /// Parses `data:<mime>;base64,<data>`.
    pub fn parse(s: &str) -> (r: Result<DataURI, DataURIError>)
        ensures
            match r {
                Ok(u) => data_uri_spec(s@) == Ok::<(Seq<char>, Seq<char>), DataUriFault>(u@),
                Err(e) => data_uri_spec(s@) == Err::<(Seq<char>, Seq<char>), DataUriFault>(e.fault()),
            },
    {
        proof {
            reveal_strlit("data:");
            reveal_strlit(";base64,");
        }
        let v = chars_of(s);
        let n = v.len();
        assert("data:"@ =~= prefix_text());
        if n < 5 || !range_is(&v, 0, 5, "data:") {
            return Err(DataURIError::MissingPrefix);
        }
        let rest = sub_vec(&v, 5, n);
        assert(rest@ =~= v@.skip(5));
        let sep = chars_of(";base64,");
        assert(sep@ =~= separator_text());
        proof {
            lemma_find_seq_bounds(rest@, 0, separator_text());
        }
        let k = match find_seq_exec(&rest, 0, &sep) {
            None => {
                return Err(DataURIError::MissingSeparator);
            },
            Some(k) => k,
        };
        if k == 0 {
            return Err(DataURIError::EmptyMime);
        }
        let data = string_from(&rest, k + 8, rest.len());
        assert(data@ =~= rest@.skip(k + 8));
        match decode_base64(data.as_str()) {
            Err(e) => Err(DataURIError::InvalidBase64(e)),
            Ok(_) => {
                let mime = string_from(&rest, 0, k);
                assert(mime@ =~= rest@.take(k as int));
                Ok(DataURI { mime, data })
            },
        }
    }

    /// `data:<mime>;base64,<data>`.
    pub fn to_string(&self) -> (r: String)
        ensures
            r@ == prefix_text() + self@.0 + separator_text() + self@.1,
    {
        proof {
            reveal_strlit("data:");
            reveal_strlit(";base64,");
        }
        let mut s = crate::text::owned("data:");
        s.append(self.mime.as_str());
        s.append(";base64,");
        s.append(self.data.as_str());
        assert(s@ =~= prefix_text() + self@.0 + separator_text() + self@.1);
        s
    }
}

impl core::str::FromStr for DataURI {
    type Err = DataURIError;

    fn from_str(s: &str) -> (r: Result<DataURI, DataURIError>)
        ensures
            match r {
                Ok(u) => data_uri_spec(s@) == Ok::<(Seq<char>, Seq<char>), DataUriFault>(u@),
                Err(e) => data_uri_spec(s@) == Err::<(Seq<char>, Seq<char>), DataUriFault>(e.fault()),
            },
    {
        DataURI::parse(s)
    }
}

proof fn lemma_find_seq_first(s: Seq<char>, pat: Seq<char>, i: int, k: int)
    requires
        0 <= i <= k,
        pat.len() > 0,
        match_at(s, k, pat),
        forall|j: int| 0 <= j < k ==> !match_at(s, j, pat),
    ensures
        find_seq(s, i, pat) == k,
    decreases k - i,
{
    if i < k {
        lemma_find_seq_first(s, pat, i + 1, k);
    }
}

/// The text of a URI parses back to the same URI, when its type is not empty
/// and the separator does not occur before the one that follows the type.
pub proof fn law_text_parses_back(mime: Seq<char>, data: Seq<char>)
    requires
        mime.len() > 0,
        base64_decoded(data) is Some,
        forall|j: int| 0 <= j < mime.len() ==> !match_at(mime + separator_text() + data, j, separator_text()),
    ensures
        data_uri_spec(prefix_text() + mime + separator_text() + data) == Ok::<(Seq<char>, Seq<char>), DataUriFault>(
            (mime, data),
        ),
{
    let s = prefix_text() + mime + separator_text() + data;
    let rest = mime + separator_text() + data;
    assert(s.subrange(0, 5) =~= prefix_text());
    assert(s.skip(5) =~= rest);
    let k = mime.len() as int;
    assert(rest.subrange(k, k + 8) =~= separator_text());
    lemma_find_seq_first(rest, separator_text(), 0, k);
    assert(rest.take(k) =~= mime);
    assert(rest.skip(k + 8) =~= data);
}

} // verus!
