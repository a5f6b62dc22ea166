//! The failures that the store reports.

use vstd::prelude::*;

verus! {

/// What can go wrong while serving a request.
#[derive(Debug, Clone, Copy, PartialEq, Eq, Structural)]
pub enum KvsError {
    /// A removal named a key that the store does not hold.
    KeyNotFound,
    /// A record was read where only a `Set` record may stand.
    UnexpectedCommandType,
    /// Bytes that do not decode to a record.
    Bincode,
    /// The alternative backend failed.
    Sled,
    /// A segment could not be read, written or created.
    Io,
    /// A stored value is not valid UTF-8.
    Utf8,
}

impl KvsError {
    /// The text shown to a client for this error.
    pub open spec fn spec_message(self) -> Seq<char> {
        match self {
            KvsError::KeyNotFound => "Key Not Found"@,
            KvsError::UnexpectedCommandType => "Unexpected command type"@,
            KvsError::Bincode => "Error with de/serialization"@,
            KvsError::Sled => "Error with sled storage"@,
            KvsError::Io => "Problem with IO"@,
            KvsError::Utf8 => "Problem with Utf8"@,
        }
    }

    /// Renders the error as text.
    pub fn message(&self) -> (text: String)
        ensures
            text@ == self.spec_message(),
    {
        match self {
            KvsError::KeyNotFound => "Key Not Found".to_owned(),
            KvsError::UnexpectedCommandType => "Unexpected command type".to_owned(),
            KvsError::Bincode => "Error with de/serialization".to_owned(),
            KvsError::Sled => "Error with sled storage".to_owned(),
            KvsError::Io => "Problem with IO".to_owned(),
            KvsError::Utf8 => "Problem with Utf8".to_owned(),
        }
    }
}

} // verus!
