//! Declarations of the outside types and calls the codec relies on. Verus
//! believes the contracts here without proof; each names what it relies on.

use vstd::prelude::*;
use vstd::utf8::{valid_utf8, decode_utf8};

verus! {

/// A parsed JSON document of `serde_json`, carried through unopened.
#[verifier::external_type_specification]
#[verifier::external_body]
pub struct ExJsonValue(serde_json::Value);

/// The parse error of `serde_json`, carried through unopened.
#[verifier::external_type_specification]
#[verifier::external_body]
pub struct ExJsonError(serde_json::Error);

/// A UUID of the `uuid` crate, carried through unopened.
#[verifier::external_type_specification]
#[verifier::external_body]
pub struct ExUuid(uuid::Uuid);

/// The error of the `uuid` crate, carried through unopened.
#[verifier::external_type_specification]
#[verifier::external_body]
pub struct ExUuidError(uuid::Error);

/// Whether `serde_json` accepts the text as one JSON document.
pub uninterp spec fn json_accepts(text: Seq<char>) -> bool;

/// The document that `serde_json` parses from a text it accepts.
pub uninterp spec fn json_value_of(text: Seq<char>) -> serde_json::Value;

/// The UUID that the `uuid` crate builds from sixteen bytes.
pub uninterp spec fn uuid_of(bytes: Seq<u8>) -> uuid::Uuid;

/// Relies on `String::from_utf8`: it succeeds exactly on valid UTF-8, and
/// then holds the characters that the bytes encode, none replaced.
#[verifier::external_body]
pub(crate) fn string_from_utf8(bytes: Vec<u8>) -> (r: Option<String>)
    ensures
        r is Some <==> valid_utf8(bytes@),
        r matches Some(s) ==> s@ == decode_utf8(bytes@),
{
    String::from_utf8(bytes).ok()
}

/// Relies on `serde_json::from_str` into a `serde_json::Value`: whether it
/// succeeds, and the document it gives, depend on the text alone.
#[verifier::external_body]
pub(crate) fn parse_json(text: &str) -> (r: Result<serde_json::Value, serde_json::Error>)
    ensures
        r is Ok <==> json_accepts(text@),
        r matches Ok(v) ==> v == json_value_of(text@),
{
    serde_json::from_str::<serde_json::Value>(text)
}

/// Relies on `uuid::Uuid::from_slice`: it fails exactly when the slice is not
/// sixteen bytes long, and otherwise builds the UUID from the bytes alone, the
/// most significant byte first (uuid 1.x, `builder.rs`).
#[verifier::external_body]
pub(crate) fn uuid_from_slice(bytes: &[u8]) -> (r: Result<uuid::Uuid, uuid::Error>)
    ensures
        r is Ok <==> bytes@.len() == 16,
        r matches Ok(u) ==> u == uuid_of(bytes@),
{
    uuid::Uuid::from_slice(bytes)
}

} // verus!
