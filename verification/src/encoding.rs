//! Character encodings: the label of the settings, and the conversion between
//! the strings that content handlers see and the bytes of the document.

use vstd::prelude::*;
use vstd::string::StringSliceAdditionalSpecFns;
use crate::errors::EncodingError;

verus! {

/// The longest text, in bytes, that is handed to the encoder or the decoder.
/// Their buffer size calculations stay far from overflow below it.
pub const MAX_TEXT_LEN: usize = usize::MAX / 16;

/// What `encoding_rs::Encoding::for_label_no_replacement` finds for a label:
/// the name of the encoding, and whether `is_ascii_compatible` holds of it.
pub uninterp spec fn encoding_for_label(label: Seq<char>) -> Option<(Seq<char>, bool)>;

/// What `encoding_rs::Encoding::encode` gives for a text in the encoding that
/// `encoding_rs::Encoding::for_label` finds for the given name, and in UTF-8
/// if the name is no label of an encoding: the bytes, and whether a character
/// had no mapping and was written as a numeric character reference.
pub uninterp spec fn encoded_text(encoding_name: Seq<char>, text: Seq<char>) -> (Seq<u8>, bool);

/// What `encoding_rs::Encoding::decode_without_bom_handling` gives for bytes
/// in the encoding that `encoding_rs::Encoding::for_label` finds for the
/// given name, and in UTF-8 if the name is no label of an encoding.
pub uninterp spec fn decoded_text(encoding_name: Seq<char>, bytes: Seq<u8>) -> Seq<char>;

/// Whether the lookup found an encoding that is ASCII-compatible.
pub open spec fn found_ascii_compatible(found: Option<(&'static str, bool)>) -> bool {
    found matches Some(f) && f.1
}

/// Calls `encoding_rs::Encoding::for_label_no_replacement` and reads `name` and
/// `is_ascii_compatible` of the encoding found. The result is the one that
/// [`encoding_for_label`] names. Of the labels only this is claimed: `utf-8` is
/// the label of an encoding, and that encoding is ASCII-compatible.
#[verifier::external_body]
fn lookup_label(label: &str) -> (r: Option<(&'static str, bool)>)
    ensures
        r matches Some(found) ==> encoding_for_label(label@) == Some((found.0@, found.1)),
        r is None ==> encoding_for_label(label@) is None,
        label@ == "utf-8"@ ==> found_ascii_compatible(r),
{
    encoding_rs::Encoding::for_label_no_replacement(label.as_bytes()).map(
        |e| (e.name(), e.is_ascii_compatible()),
    )
}

/// Calls `encoding_rs::Encoding::encode` on the encoding that `for_label` finds
/// for `encoding_name` (UTF-8 if it finds none). The result is the one that
/// [`encoded_text`] names. The bound on the length keeps the call away from the
/// overflow on which it panics.
#[verifier::external_body]
fn encode_in(encoding_name: &str, text: &str) -> (r: (Vec<u8>, bool))
    requires
        text.spec_bytes().len() <= MAX_TEXT_LEN,
    ensures
        (r.0@, r.1) == encoded_text(encoding_name@, text@),
{
    let encoding = encoding_rs::Encoding::for_label(encoding_name.as_bytes()).unwrap_or(
        encoding_rs::UTF_8,
    );
    let (bytes, _, unmappable) = encoding.encode(text);
    (bytes.into_owned(), unmappable)
}

/// Calls `encoding_rs::Encoding::decode_without_bom_handling` on the encoding
/// that `for_label` finds for `encoding_name` (UTF-8 if it finds none). The
/// result is the one that [`decoded_text`] names. The bound on the length keeps
/// the call away from the overflow on which it panics.
#[verifier::external_body]
fn decode_in(encoding_name: &str, bytes: &[u8]) -> (r: String)
    requires
        bytes@.len() <= MAX_TEXT_LEN,
    ensures
        r@ == decoded_text(encoding_name@, bytes@),
{
    let encoding = encoding_rs::Encoding::for_label(encoding_name.as_bytes()).unwrap_or(
        encoding_rs::UTF_8,
    );
    encoding.decode_without_bom_handling(bytes).0.into_owned()
}

/// An encoding in which the bytes `0x00..=0x7F` stand for the ASCII characters
/// and nothing else does, known by its name.
#[derive(Clone, Copy, Debug)]
pub struct AsciiCompatibleEncoding {
    name: &'static str,
}

impl AsciiCompatibleEncoding {
    /// The name of the encoding.
    pub closed spec fn view(&self) -> Seq<char> {
        self.name@
    }

    /// The name of the encoding, as the Encoding Standard writes it.
    pub fn name(&self) -> (r: &'static str)
        ensures
            r@ == self@,
    {
        self.name
    }

    /// The bytes of `text` in this encoding, and whether some character had no
    /// mapping. `None` for a text longer than [`MAX_TEXT_LEN`].
    pub fn encode(&self, text: &str) -> (r: Option<(Vec<u8>, bool)>)
        ensures
            r is Some <==> text.spec_bytes().len() <= MAX_TEXT_LEN,
            r matches Some(e) ==> (e.0@, e.1) == encoded_text(self@, text@),
    {
        if text.as_bytes().len() <= MAX_TEXT_LEN {
            Some(encode_in(self.name, text))
        } else {
            None
        }
    }

    /// The text that `bytes` stand for in this encoding, malformed sequences
    /// replaced. `None` for more than [`MAX_TEXT_LEN`] bytes.
    pub fn decode(&self, bytes: &[u8]) -> (r: Option<String>)
        ensures
            r is Some <==> bytes@.len() <= MAX_TEXT_LEN,
            r matches Some(s) ==> s@ == decoded_text(self@, bytes@),
    {
        if bytes.len() <= MAX_TEXT_LEN {
            Some(decode_in(self.name, bytes))
        } else {
            None
        }
    }
}

/// What [`try_encoding_from_str`] returns for a label, given what the lookup
/// found for it.
pub open spec fn encoding_choice(found: Option<(Seq<char>, bool)>) -> Result<Seq<char>, EncodingError> {
    match found {
        None => Err(EncodingError::UnknownEncoding),
        Some((name, ascii_compatible)) => if ascii_compatible {
            Ok(name)
        } else {
            Err(EncodingError::NonAsciiCompatibleEncoding)
        },
    }
}

/// Accepts what the lookup of a label found if it is an ASCII-compatible
/// encoding, and says why not otherwise.
pub fn check_encoding(found: Option<(&'static str, bool)>) -> (r: Result<
    AsciiCompatibleEncoding,
    EncodingError,
>)
    ensures
        match (r, encoding_choice(
            match found {
                Some(f) => Some((f.0@, f.1)),
                None => None,
            },
        )) {
            (Ok(e), Ok(name)) => e@ == name,
            (Err(e), Err(expected)) => e == expected,
            _ => false,
        },
{
    match found {
        None => Err(EncodingError::UnknownEncoding),
        Some((name, ascii_compatible)) => {
            if ascii_compatible {
                Ok(AsciiCompatibleEncoding { name })
            } else {
                Err(EncodingError::NonAsciiCompatibleEncoding)
            }
        },
    }
}

/// The encoding that a label of the settings stands for.
///
/// Fails with `UnknownEncoding` if the label names no encoding (or names the
/// replacement encoding), and with `NonAsciiCompatibleEncoding` if it names one
/// that is not ASCII-compatible.
pub fn try_encoding_from_str(label: &str) -> (r: Result<AsciiCompatibleEncoding, EncodingError>)
    ensures
        match (r, encoding_choice(encoding_for_label(label@))) {
            (Ok(e), Ok(name)) => e@ == name,
            (Err(e), Err(expected)) => e == expected,
            _ => false,
        },
        label@ == "utf-8"@ ==> r is Ok,
{
    check_encoding(lookup_label(label))
}

} // verus!
