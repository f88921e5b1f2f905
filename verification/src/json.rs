//! The JSON text of an index, as `serde_json` writes and reads it.

use vstd::prelude::*;

verus! {

/// The JSON text that `serde_json::to_string` writes for an index, or `None`
/// where it fails.
pub uninterp spec fn json_text(index: Seq<(Seq<char>, Seq<char>)>) -> Option<Seq<char>>;

/// The index that `serde_json::from_slice` reads from `bytes`, or `None`
/// where it fails.
pub uninterp spec fn json_index(bytes: Seq<u8>) -> Option<Seq<(Seq<char>, Seq<char>)>>;

/// The error type of `serde_json`.
#[verifier::external_type_specification]
#[verifier::external_body]
pub struct ExJsonError(serde_json::Error);

/// Calls `serde_json::to_string` on the index. The contract only gives the
/// outcome its name: it depends on the texts in the index and on nothing
/// else.
#[verifier::external_body]
pub(crate) fn to_json(index: &Vec<(String, String)>) -> (r: Result<String, serde_json::Error>)
    ensures
        match r {
            Ok(text) => json_text(index.deep_view()) == Some(text@),
            Err(_) => json_text(index.deep_view()) is None,
        },
{
    serde_json::to_string(index)
}

/// Calls `serde_json::from_slice` for a list of pairs of strings. The
/// contract only gives the outcome its name: it depends on the bytes and on
/// nothing else.
#[verifier::external_body]
pub(crate) fn from_json(bytes: &[u8]) -> (r: Result<Vec<(String, String)>, serde_json::Error>)
    ensures
        match r {
            Ok(index) => json_index(bytes@) == Some(index.deep_view()),
            Err(_) => json_index(bytes@) is None,
        },
{
    serde_json::from_slice(bytes)
}

} // verus!
