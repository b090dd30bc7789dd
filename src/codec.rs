//! Reversible text obfuscation for credentials at rest.
//!
//! The transform is standard base64 over the UTF-8 bytes of the text. It hides
//! nothing from anyone who can read the stored form: it is obfuscation, not
//! encryption, and a real cipher can take its place behind the same two
//! functions.
use vstd::prelude::*;
use vstd::utf8::{decode_utf8, encode_utf8, valid_utf8};

verus! {

#[verifier::external_type_specification]
#[verifier::external_body]
pub struct ExDecodeError(base64::DecodeError);

#[verifier::external_type_specification]
#[verifier::external_body]
pub struct ExFromUtf8Error(std::string::FromUtf8Error);

/// The base64 text (standard alphabet, padded) of a byte sequence.
pub uninterp spec fn base64_of(b: Seq<u8>) -> Seq<char>;

/// The bytes that a base64 text decodes to, if it is valid base64.
pub uninterp spec fn base64_decoded(s: Seq<char>) -> Option<Seq<u8>>;

/// Relies on `base64::encode` (standard alphabet, padded): the text depends on
/// the bytes alone.
#[verifier::external_body]
fn base64_encode(b: &[u8]) -> (r: String)
    ensures
        r@ == base64_of(b@),
{
    base64::encode(b)
}

/// Relies on `base64::decode` (standard alphabet, padded): the outcome depends
/// on the text alone, and the text that `base64::encode` made of some bytes
/// decodes back to exactly those bytes.
#[verifier::external_body]
fn base64_decode(s: &str) -> (r: Result<Vec<u8>, base64::DecodeError>)
    ensures
        r is Ok ==> base64_decoded(s@) == Some(r->Ok_0@),
        r is Err ==> base64_decoded(s@) is None,
        forall|b: Seq<u8>| #[trigger] base64_of(b) == s@ ==> r is Ok && r->Ok_0@ == b,
{
    base64::decode(s)
}

/// Relies on `String::from_utf8`: it succeeds exactly on valid UTF-8 and then
/// holds the characters that the bytes encode.
#[verifier::external_body]
fn string_from_utf8(b: Vec<u8>) -> (r: Result<String, std::string::FromUtf8Error>)
    ensures
        r is Ok <==> valid_utf8(b@),
        r is Ok ==> r->Ok_0@ == decode_utf8(b@),
{
    String::from_utf8(b)
}

/// Why a stored form could not be turned back into text.
#[derive(Debug, PartialEq, Eq, Clone, Copy, Structural)]
pub enum CodecError {
    /// The stored form is not valid base64.
    MalformedEncoding,
    /// The stored form decodes to bytes that are not UTF-8.
    InvalidUtf8,
}

/// The stored form of a plaintext.
pub open spec fn encoded(p: Seq<char>) -> Seq<char> {
    base64_of(encode_utf8(p))
}

/// The text held by the outcome of a base64 decode.
pub open spec fn text_of_decoded(d: Option<Seq<u8>>) -> Result<Seq<char>, CodecError> {
    match d {
        None => Err(CodecError::MalformedEncoding),
        Some(b) => if valid_utf8(b) {
            Ok(decode_utf8(b))
        } else {
            Err(CodecError::InvalidUtf8)
        },
    }
}

/// The plaintext of a stored form.
pub open spec fn decoded(s: Seq<char>) -> Result<Seq<char>, CodecError> {
    text_of_decoded(base64_decoded(s))
}

pub open spec fn text_result_view(r: Result<String, CodecError>) -> Result<Seq<char>, CodecError> {
    match r {
        Ok(t) => Ok(t@),
        Err(e) => Err(e),
    }
}

pub open spec fn bytes_option_view(d: Option<Vec<u8>>) -> Option<Seq<u8>> {
    match d {
        Some(b) => Some(b@),
        None => None,
    }
}

/// Turns plaintext into its stored form.
pub fn encode(p: &str) -> (r: String)
    ensures
        r@ == encoded(p@),
{
    base64_encode(p.as_bytes())
}

/// Turns the outcome of a base64 decode into text.
pub fn text_from_decoded(d: Option<Vec<u8>>) -> (r: Result<String, CodecError>)
    ensures
        text_result_view(r) == text_of_decoded(bytes_option_view(d)),
{
    match d {
        None => Err(CodecError::MalformedEncoding),
        Some(b) => match string_from_utf8(b) {
            Ok(t) => Ok(t),
            Err(_) => Err(CodecError::InvalidUtf8),
        },
    }
}

/// Turns a stored form back into plaintext. Every stored form that `encode`
/// produced comes back as the plaintext it was made from.
pub fn decode(s: &str) -> (r: Result<String, CodecError>)
    ensures
        text_result_view(r) == decoded(s@),
        forall|p: Seq<char>| #[trigger] encoded(p) == s@ ==> (r matches Ok(t) && t@ == p),
{
    let d = base64_decode(s);
    let ghost dv = d;
    let bytes = match d {
        Ok(b) => Some(b),
        Err(_) => None,
    };
    let r = text_from_decoded(bytes);
    proof {
        assert forall|p: Seq<char>| #[trigger] encoded(p) == s@ implies (r matches Ok(t) && t@ == p) by {
            assert(base64_of(encode_utf8(p)) == s@);
            vstd::utf8::encode_utf8_valid_utf8(p);
            vstd::utf8::encode_utf8_decode_utf8(p);
        }
    }
    r
}

} // verus!
