//! JSON string literals, as `serde_json` writes and reads them.
//!
//! The two functions here are the only places where the message grammar
//! leans on `serde_json`. Their contracts are taken on trust.

use vstd::prelude::*;

verus! {

/// `serde_json::Error`, carried from a failed call to the place where it is
/// mapped to an error of this library.
#[verifier::external_type_specification]
#[verifier::external_body]
pub struct ExJsonError(serde_json::Error);

/// The JSON string literal that `serde_json::to_vec` writes for a text:
/// the text between double quotes, with quotes, backslashes and control
/// characters escaped.
pub uninterp spec fn json_literal(text: Seq<char>) -> Seq<u8>;

/// The text that `serde_json::from_slice` reads out of bytes that hold one
/// JSON string literal (white space around it allowed), `None` where the
/// bytes are anything else.
pub uninterp spec fn json_text(bytes: Seq<u8>) -> Option<Seq<char>>;

/// Calls `serde_json::to_vec` on a `str`.
///
/// Trusted: the call succeeds (the serializer fails only where a `Serialize`
/// impl fails, on a map with non-string keys, or where its writer fails; a
/// `str` written into a `Vec<u8>` meets none of these); the bytes are the
/// JSON string literal of `text`; the literal holds no line feed (every byte
/// below 0x20 is written as an escape sequence of printable characters); and
/// `serde_json::from_slice` reads the literal back as `text`.
#[verifier::external_body]
pub(crate) fn json_quote(text: &str) -> (r: Result<Vec<u8>, serde_json::Error>)
    ensures
        r is Ok,
        r->Ok_0@ == json_literal(text@),
        forall|i: int| 0 <= i < r->Ok_0@.len() ==> r->Ok_0@[i] != 10u8,
        json_text(r->Ok_0@) == Some(text@),
{
    serde_json::to_vec(text)
}

/// Calls `serde_json::from_slice::<String>`.
///
/// Trusted: the outcome is a function of the bytes alone; `Ok` holds the
/// text of the string literal that the bytes spell, `Err` comes exactly
/// where they spell none.
#[verifier::external_body]
pub(crate) fn json_unquote(bytes: &[u8]) -> (r: Result<String, serde_json::Error>)
    ensures
        match r {
            Ok(text) => json_text(bytes@) == Some(text@),
            Err(_) => json_text(bytes@) is None,
        },
{
    serde_json::from_slice::<String>(bytes)
}

} // verus!
