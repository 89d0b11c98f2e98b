//! The library's boundary with `serde_json`, `toon_format` and the parts of
//! std that vstd does not specify. Every item here is trusted: its contract
//! is believed, not proved.
use vstd::prelude::*;

verus! {

/// `serde_json::Value`, carried through the conversion as an opaque value.
#[verifier::external_type_specification]
#[verifier::external_body]
pub struct ExJsonValue(serde_json::Value);

/// `serde_json::Error`, the error of JSON parsing and printing.
#[verifier::external_type_specification]
#[verifier::external_body]
pub struct ExJsonError(serde_json::Error);

/// `toon_format::ToonError`, the error of TOON encoding and decoding.
#[verifier::external_type_specification]
#[verifier::external_body]
pub struct ExToonError(toon_format::ToonError);

/// `std::path::PathBuf`, carried as an opaque value.
#[verifier::external_type_specification]
#[verifier::external_body]
pub struct ExPathBuf(std::path::PathBuf);

/// The value that `serde_json::from_str::<Value>` reads from a text, or
/// `None` where it reports an error.
pub uninterp spec fn parsed_json(text: Seq<char>) -> Option<serde_json::Value>;

/// The value that `toon_format::decode_default` reads from a text, or `None`
/// where it reports an error.
pub uninterp spec fn decoded_toon(text: Seq<char>) -> Option<serde_json::Value>;

/// The text that `toon_format::encode_default` writes for a value, or `None`
/// where it reports an error.
pub uninterp spec fn encoded_toon(value: serde_json::Value) -> Option<Seq<char>>;

/// The text that `serde_json::to_string_pretty` writes for a value, or
/// `None` where it reports an error.
pub uninterp spec fn pretty_json(value: serde_json::Value) -> Option<Seq<char>>;

/// What `PartialEq::eq` on two `serde_json::Value`s answers.
pub uninterp spec fn json_equal(a: serde_json::Value, b: serde_json::Value) -> bool;

/// What `str::to_lowercase` returns for a text.
pub uninterp spec fn lowercase(text: Seq<char>) -> Seq<char>;

/// Calls `serde_json::from_str::<serde_json::Value>`. Claimed: the result is
/// a function of the text, `Ok` exactly where `parsed_json` is `Some`.
#[verifier::external_body]
pub(crate) fn json_from_str(text: &str) -> (r: Result<serde_json::Value, serde_json::Error>)
    ensures
        match r {
            Ok(v) => parsed_json(text@) == Some(v),
            Err(_) => parsed_json(text@) is None,
        },
{
    serde_json::from_str(text)
}

/// Calls `serde_json::to_string_pretty` on a value. Claimed: the result is a
/// function of the value, `Ok` exactly where `pretty_json` is `Some`.
#[verifier::external_body]
pub(crate) fn json_to_string_pretty(value: &serde_json::Value) -> (r: Result<String, serde_json::Error>)
    ensures
        match r {
            Ok(s) => pretty_json(*value) == Some(s@),
            Err(_) => pretty_json(*value) is None,
        },
{
    serde_json::to_string_pretty(value)
}

/// Calls `toon_format::decode_default`. Claimed: the result is a function of
/// the text, `Ok` exactly where `decoded_toon` is `Some`.
#[verifier::external_body]
pub(crate) fn toon_decode(text: &str) -> (r: Result<serde_json::Value, toon_format::ToonError>)
    ensures
        match r {
            Ok(v) => decoded_toon(text@) == Some(v),
            Err(_) => decoded_toon(text@) is None,
        },
{
    toon_format::decode_default(text)
}

/// Calls `toon_format::encode_default` on a value. Claimed: the result is a
/// function of the value, `Ok` exactly where `encoded_toon` is `Some`.
#[verifier::external_body]
pub(crate) fn toon_encode(value: &serde_json::Value) -> (r: Result<String, toon_format::ToonError>)
    ensures
        match r {
            Ok(s) => encoded_toon(*value) == Some(s@),
            Err(_) => encoded_toon(*value) is None,
        },
{
    toon_format::encode_default(value)
}

/// Calls `PartialEq::eq` on two `serde_json::Value`s. Claimed: the answer is
/// `json_equal` of the two, and a value equals itself (the impl is derived,
/// and the numbers it holds are finite).
#[verifier::external_body]
pub(crate) fn json_values_equal(a: &serde_json::Value, b: &serde_json::Value) -> (r: bool)
    ensures
        r == json_equal(*a, *b),
        *a == *b ==> r,
{
    a == b
}

/// Appends one character to a string.
/// Calls `String::push`, which the standard library documents as appending
/// the given char to the end of the string.
#[verifier::external_body]
pub(crate) fn push_char(s: &mut String, c: char)
    ensures
        final(s)@ == old(s)@.push(c),
{
    s.push(c);
}

/// Calls `str::to_lowercase`. Claimed: the result is `lowercase` of the text.
#[verifier::external_body]
pub(crate) fn to_lowercase(text: &str) -> (r: String)
    ensures
        r@ == lowercase(text@),
{
    text.to_lowercase()
}

} // verus!
