//! What can go wrong with a realm's store.

use vstd::prelude::*;
use vstd::string::StringExecFns;

verus! {

/// Why a command could not be carried out. None of these is recovered from:
/// the command fails as a whole.
#[derive(Debug)]
pub enum MruError {
    /// The backing data exists but is not a mapping from values to
    /// timestamps.
    StoreCorrupt { detail: String },
    /// The backing location cannot be read, written or created.
    StoreUnavailable { detail: String },
    /// The current time cannot be had as seconds since the Unix epoch.
    ClockFailure,
}

impl MruError {
    /// The one-line diagnostic for this error.
    pub open spec fn message_text(self) -> Seq<char> {
        match self {
            MruError::StoreCorrupt { detail } => "mru parsing failed: "@ + detail@,
            MruError::StoreUnavailable { detail } => "mru store unavailable: "@ + detail@,
            MruError::ClockFailure => "system clock is before the Unix epoch"@,
        }
    }

    /// The one-line diagnostic for this error.
    pub fn message(&self) -> (line: String)
        ensures
            line@ == self.message_text(),
    {
        match self {
            MruError::StoreCorrupt { detail } => {
                String::from_str("mru parsing failed: ").concat(detail.as_str())
            },
            MruError::StoreUnavailable { detail } => {
                String::from_str("mru store unavailable: ").concat(detail.as_str())
            },
            MruError::ClockFailure => String::from_str("system clock is before the Unix epoch"),
        }
    }
}

} // verus!
