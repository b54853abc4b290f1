//! The stored form of a record: one JSON object that maps each value to its
//! timestamp. Reading and writing JSON is left to `serde_json`; what this
//! module says of it is taken on trust.

use crate::store::{distinct_values, pairs_map};
use std::collections::HashMap;
use vstd::prelude::*;

verus! {

/// What `serde_json::from_reader` makes of `text` when asked for a map from
/// strings to unsigned 64-bit numbers: the mapping that it reads, or, where
/// it reports an error, the description of that error.
pub uninterp spec fn json_mapping(text: Seq<u8>) -> Result<Map<Seq<char>, u64>, Seq<char>>;

/// Calls `serde_json::from_reader` on `text` for a `HashMap<String, u64>` and
/// hands out the pairs of that map, in no particular order, or the error as
/// its description.
///
/// Trusted: the pairs stand for the mapping that `json_mapping` names, and
/// an error comes back exactly where `json_mapping` is one, with the same
/// description.
#[verifier::external_body]
pub(crate) fn parse_pairs(text: &[u8]) -> (parsed: Result<Vec<(String, u64)>, String>)
    ensures
        match parsed {
            Ok(pairs) => json_mapping(text@) matches Ok(mapping) && mapping == pairs_map(pairs@),
            Err(detail) => json_mapping(text@) matches Err(described) && described == detail@,
        },
{
    match serde_json::from_reader::<&[u8], HashMap<String, u64>>(text) {
        Ok(table) => Ok(table.into_iter().collect()),
        Err(error) => Err(error.to_string()),
    }
}

/// Calls `serde_json::to_writer` on a `HashMap<String, u64>` that holds the
/// pairs, writing into a byte vector.
///
/// Trusted: text always comes back, since a byte vector takes every write
/// and the keys are strings, and `serde_json::from_reader` reads from that
/// text the mapping that the pairs stand for.
#[verifier::external_body]
pub(crate) fn render_pairs(pairs: &Vec<(String, u64)>) -> (rendered: Result<Vec<u8>, String>)
    requires
        distinct_values(pairs@),
    ensures
        rendered is Ok,
        rendered matches Ok(text) ==> json_mapping(text@) matches Ok(mapping) && mapping
            == pairs_map(pairs@),
{
    let table: HashMap<String, u64> = pairs.iter().cloned().collect();
    let mut text: Vec<u8> = Vec::new();
    match serde_json::to_writer(&mut text, &table) {
        Ok(()) => Ok(text),
        Err(error) => Err(error.to_string()),
    }
}

} // verus!
