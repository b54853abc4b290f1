//! Loading a realm's record from what was found at its location, and the
//! `use` command from there to the text that is written back. Reading the
//! location and the clock, and writing the text, are the caller's part.

use crate::codec::json_mapping;
use crate::error::MruError;
use crate::store::MruRecord;
use vstd::prelude::*;

verus! {

/// What the caller found at a realm's location.
#[derive(Debug)]
pub enum Backing {
    /// Nothing is stored there yet: the realm was never used.
    Absent,
    /// Something is there, but it could not be read.
    Unreadable { cause: String },
    /// What is stored there.
    Present { text: Vec<u8> },
}

/// The mapping that is stored at the location, if one can be had from it. A
/// realm that was never used holds the empty mapping.
pub open spec fn stored(backing: Backing) -> Option<Map<Seq<char>, u64>> {
    match backing {
        Backing::Absent => Some(Map::empty()),
        Backing::Unreadable { .. } => None,
        Backing::Present { text } => match json_mapping(text@) {
            Ok(mapping) => Some(mapping),
            Err(_) => None,
        },
    }
}

/// `error` is the error that loading from `backing` fails with: a location
/// that could not be read is unavailable, for the caller's reason, and text
/// that does not hold a mapping is corrupt, for the reason that reading it
/// gave.
pub open spec fn load_fails_with(backing: Backing, error: MruError) -> bool {
    match backing {
        Backing::Absent => false,
        Backing::Unreadable { cause } => error matches MruError::StoreUnavailable { detail }
            && detail@ == cause@,
        Backing::Present { text } => json_mapping(text@) matches Err(described)
            && error matches MruError::StoreCorrupt { detail } && detail@ == described,
    }
}

/// Loads a realm's record from what was found at its location.
///
/// A realm that was never used has the empty record; this is no error.
pub fn load(backing: Backing) -> (loaded: Result<MruRecord, MruError>)
    ensures
        match stored(backing) {
            Some(mapping) => loaded matches Ok(record) && record@ == mapping,
            None => loaded matches Err(error) && load_fails_with(backing, error),
        },
{
    match backing {
        Backing::Absent => Ok(MruRecord::new()),
        Backing::Unreadable { cause } => Err(MruError::StoreUnavailable { detail: cause }),
        Backing::Present { text } => MruRecord::decode(text.as_slice()),
    }
}

/// The `use` command: records that `value` was used at `now` and gives the
/// text to store in place of what was there.
///
/// The command succeeds whenever the store loads and the clock gave a time.
/// Nothing is to be written unless text comes back: a store that cannot be
/// loaded fails the command as loading does, and a clock that gave no time
/// fails it as a whole.
pub fn record_usage(backing: Backing, value: String, now: Option<u64>) -> (written: Result<
    Vec<u8>,
    MruError,
>)
    ensures
        match (stored(backing), now) {
            (None, _) => written matches Err(error) && load_fails_with(backing, error),
            (Some(_), None) => written matches Err(MruError::ClockFailure),
            (Some(before), Some(seconds)) => written matches Ok(text) && json_mapping(text@)
                matches Ok(mapping) && mapping == before.insert(value@, seconds),
        },
{
    let mut record = load(backing)?;
    match now {
        None => Err(MruError::ClockFailure),
        Some(seconds) => {
            record.record_use(value, seconds);
            record.encode()
        },
    }
}

/// Round trip: text that reads as a mapping loads as a record of exactly
/// that mapping, and never fails. `MruRecord::encode` gives such text for
/// every record, so storing a record and loading it again gives it back.
pub proof fn lemma_round_trip(record: Map<Seq<char>, u64>, text: Vec<u8>)
    requires
        json_mapping(text@) == Ok::<Map<Seq<char>, u64>, Seq<char>>(record),
    ensures
        stored(Backing::Present { text }) == Some(record),
        forall|error: MruError| !load_fails_with(Backing::Present { text }, error),
{
}

/// A realm that was never used loads as the empty record, and never fails.
pub proof fn lemma_absent_is_empty()
    ensures
        stored(Backing::Absent) == Some(Map::<Seq<char>, u64>::empty()),
        forall|error: MruError| !load_fails_with(Backing::Absent, error),
{
}

} // verus!
