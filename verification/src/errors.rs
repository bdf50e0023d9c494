//! Failure and outcome kinds shared by the store operations.

use vstd::prelude::*;

verus! {

/// Why an operation could not complete.
#[derive(Clone, Copy, Debug, PartialEq, Eq, Structural)]
pub enum StoreError {
    /// A supplied path does not exist or is not a directory.
    InvalidPath,
    /// The requested bookmark name is absent from the store.
    NotFound,
    /// The persisted document could not be parsed or re-encoded.
    Persistence,
    /// No bookmark name could be derived from the inputs.
    Resolution,
}

impl StoreError {
    /// A short description of the failure, for display.
    pub fn message(&self) -> (r: &'static str)
        ensures
            *self is InvalidPath ==> r@ == "invalid path provided"@,
            *self is NotFound ==> r@ == "bookmark not found"@,
            *self is Persistence ==> r@ == "failed to read or write bookmarks"@,
            *self is Resolution ==> r@ == "couldn't derive a bookmark name"@,
    {
        match self {
            StoreError::InvalidPath => "invalid path provided",
            StoreError::NotFound => "bookmark not found",
            StoreError::Persistence => "failed to read or write bookmarks",
            StoreError::Resolution => "couldn't derive a bookmark name",
        }
    }
}

/// What a mark operation did to the store.
#[derive(Clone, Copy, Debug, PartialEq, Eq, Structural)]
pub enum Outcome {
    /// A new entry was inserted.
    Created,
    /// An existing entry's path was overwritten.
    Updated,
    /// The user declined the overwrite; the store is unchanged.
    Cancelled,
}

impl Outcome {
    /// A short description of the outcome, for display.
    pub fn message(&self) -> (r: &'static str)
        ensures
            *self is Created ==> r@ == "bookmarked"@,
            *self is Updated ==> r@ == "bookmark entry updated"@,
            *self is Cancelled ==> r@ == "bookmark operation cancelled"@,
    {
        match self {
            Outcome::Created => "bookmarked",
            Outcome::Updated => "bookmark entry updated",
            Outcome::Cancelled => "bookmark operation cancelled",
        }
    }
}

} // verus!
