use vstd::prelude::*;
use vstd::string::StringExecFns;
use crate::model::Inconsistency;

verus! {

/// What can go wrong between the command line and the store.
#[derive(Clone, Debug, PartialEq, Eq)]
pub enum Error {
    /// The configuration could not be read; the text says why.
    Configuration(String),
    /// The store failed; the text says during what.
    Database(String),
    /// What was to be changed or removed was not found, or was modified meanwhile; the
    /// text says during what.
    NotFound(String),
    /// The store handed the engine tasks and segments that do not fit together.
    Inconsistent(Inconsistency),
    /// The importance given is no whole number.
    InvalidImportance,
    /// The task id given is no whole number.
    InvalidId,
    /// The command line names no known command, property or strategy, or lacks a value.
    Usage,
}

impl Error {
    /// What the user is told, as a sequence of characters.
    pub open spec fn text(self) -> Seq<char> {
        match self {
            Error::Configuration(reason) => reason@,
            Error::Database(during) => "A database error occurred "@ + during@,
            Error::NotFound(during) => "Nothing was found, or it was already modified, "@
                + during@,
            Error::Inconsistent(Inconsistency::EmptyRange) =>
                "A time segment has a range that does not end after it starts"@,
            Error::Inconsistent(Inconsistency::UnknownSegment) =>
                "A task belongs to a time segment that does not exist"@,
            Error::InvalidImportance => "Please supply a valid integer as importance factor."@,
            Error::InvalidId => "Please supply a valid integer as id."@,
            Error::Usage => "Please supply a known command with the values it needs"@,
        }
    }

    /// What the user is told.
    pub fn message(&self) -> (told: String)
        ensures
            told@ == self.text(),
    {
        match self {
            Error::Configuration(reason) => reason.clone(),
            Error::Database(during) => String::from_str("A database error occurred ").concat(
                during.as_str(),
            ),
            Error::NotFound(during) => String::from_str(
                "Nothing was found, or it was already modified, ",
            ).concat(during.as_str()),
            Error::Inconsistent(Inconsistency::EmptyRange) => String::from_str(
                "A time segment has a range that does not end after it starts",
            ),
            Error::Inconsistent(Inconsistency::UnknownSegment) => String::from_str(
                "A task belongs to a time segment that does not exist",
            ),
            Error::InvalidImportance => String::from_str(
                "Please supply a valid integer as importance factor.",
            ),
            Error::InvalidId => String::from_str("Please supply a valid integer as id."),
            Error::Usage => String::from_str(
                "Please supply a known command with the values it needs",
            ),
        }
    }
}

} // verus!
