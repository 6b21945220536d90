//! Why a lookup found nothing to read.

use vstd::prelude::*;

verus! {

/// A lookup that could not read what it needs.
#[derive(Debug, Clone, Copy, PartialEq, Eq, Structural)]
pub enum LookupError {
    /// None of the mailcap files could be opened.
    DatabaseNotFound,
    /// None of the mime.types files could be opened.
    MimeTypesNotFound,
    /// The `file` command could not be run, or it failed.
    FileCommandFailed,
}

/// The text that describes `error`.
pub open spec fn message_of(error: LookupError) -> Seq<char> {
    match error {
        LookupError::DatabaseNotFound => "No usable mailcap file found"@,
        LookupError::MimeTypesNotFound => "No usable mime.types file found"@,
        LookupError::FileCommandFailed => "Error executing file command"@,
    }
}

impl LookupError {
    /// The text that describes this error.
    pub fn message(&self) -> (text: String)
        ensures
            text@ == message_of(*self),
    {
        match self {
            LookupError::DatabaseNotFound => "No usable mailcap file found".to_owned(),
            LookupError::MimeTypesNotFound => "No usable mime.types file found".to_owned(),
            LookupError::FileCommandFailed => "Error executing file command".to_owned(),
        }
    }
}

} // verus!
