//! The JSON reader and writer that event records rely on.
use vstd::prelude::*;
use crate::lines::NEWLINE;

verus! {

/// serde_json's parsed JSON value, carried through without looking inside.
#[verifier::external_type_specification]
#[verifier::external_body]
pub struct ExJsonValue(serde_json::Value);

/// Whether `b` holds exactly one JSON value, as serde_json reads it.
pub uninterp spec fn is_json(b: Seq<u8>) -> bool;

/// The value that serde_json reads from `b`.
pub uninterp spec fn parsed_of(b: Seq<u8>) -> serde_json::Value;

/// The compact JSON text that serde_json writes for `v`.
pub uninterp spec fn compact_of(v: serde_json::Value) -> Seq<u8>;

/// Relies on serde_json::from_slice: it succeeds on exactly the byte strings that hold
/// one JSON value, and what it reads depends on the bytes alone.
#[verifier::external_body]
pub(crate) fn parse_json(b: &[u8]) -> (r: Option<serde_json::Value>)
    ensures
        r is Some <==> is_json(b@),
        r matches Some(v) ==> v == parsed_of(b@),
{
    serde_json::from_slice(b).ok()
}

/// Relies on serde_json::to_vec: a `Value` has only string keys and the output is a
/// `Vec`, so writing it cannot fail; the compact form has no whitespace between tokens,
/// and every control character inside a string is escaped, so no newline byte occurs
/// in it.
#[verifier::external_body]
pub(crate) fn compact_json(v: &serde_json::Value) -> (r: Option<Vec<u8>>)
    ensures
        r is Some,
        r matches Some(b) ==> b@ == compact_of(*v) && !b@.contains(NEWLINE),
{
    serde_json::to_vec(v).ok()
}

} // verus!
