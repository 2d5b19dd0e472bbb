//! The ways in which a journal operation can fail.

use vstd::prelude::*;

verus! {

/// Why an operation stopped. Nothing is retried and nothing is applied in
/// part: an operation either returns its result or one of these.
#[derive(Debug, Clone, Copy, PartialEq, Eq, Structural)]
pub enum BujoError {
    /// The place where the journal is kept does not exist yet.
    StorageMissing,
    /// The stored journal cannot be read as a journal.
    MalformedDocument,
    /// A date was not written as eight digits, year, month and day, or names
    /// a day that cannot be placed on the local clock.
    DateFormatInvalid,
    /// A stable key or a daily identifier names no record.
    ReferenceNotFound,
    /// The journal could not be written back.
    IoFailure,
}

impl BujoError {
    /// The sentence shown to the user for this error.
    pub open spec fn text(self) -> Seq<char> {
        match self {
            BujoError::StorageMissing =>
                "It appears that the data directory does not exist yet. Try run `bujo init` first"@,
            BujoError::MalformedDocument => "The journal file could not be read"@,
            BujoError::DateFormatInvalid => "The date must be written as YYYYMMDD"@,
            BujoError::ReferenceNotFound => "No record carries that identifier"@,
            BujoError::IoFailure => "There was no data directory to write to"@,
        }
    }

    /// Returns the sentence shown to the user for this error.
    pub fn message(&self) -> (s: String)
        ensures
            s@ == self.text(),
    {
        match self {
            BujoError::StorageMissing => String::from_str(
                "It appears that the data directory does not exist yet. Try run `bujo init` first",
            ),
            BujoError::MalformedDocument => String::from_str("The journal file could not be read"),
            BujoError::DateFormatInvalid => String::from_str("The date must be written as YYYYMMDD"),
            BujoError::ReferenceNotFound => String::from_str("No record carries that identifier"),
            BujoError::IoFailure => String::from_str("There was no data directory to write to"),
        }
    }
}

} // verus!
