use vstd::prelude::*;

verus! {

/// The ways in which an operation on a repository can fail.
#[derive(Clone, Copy, Debug, PartialEq, Eq, Structural)]
pub enum Error {
    /// A name, a handle or a chunk is absent.
    NotFound,
    /// An object with the given name already exists.
    AlreadyExists,
    /// Stored data does not decode, or does not match its checksum.
    InvalidData,
    /// An argument is outside of the range an operation accepts.
    InvalidInput,
    /// A value could not be encoded.
    Serialize,
    /// Stored bytes could not be decoded as a value.
    Deserialize,
    /// The repository was written in a format this library does not read.
    UnsupportedFormat,
    /// The repository is locked by another instance.
    AlreadyLocked,
    /// The blob store reported a failure of its own.
    Store,
    /// A reader or writer outside of the repository failed.
    Io,
}

impl Error {
    /// A short description of the error.
    pub fn message(&self) -> (text: &'static str)
        ensures
            text@ == self.spec_message()@,
    {
        match self {
            Error::NotFound => "not found",
            Error::AlreadyExists => "already exists",
            Error::InvalidData => "invalid data",
            Error::InvalidInput => "invalid input",
            Error::Serialize => "value could not be serialized",
            Error::Deserialize => "value could not be deserialized",
            Error::UnsupportedFormat => "unsupported format",
            Error::AlreadyLocked => "already locked",
            Error::Store => "data store failure",
            Error::Io => "input or output failure",
        }
    }

    /// The text that `message` yields for each kind of error.
    pub open spec fn spec_message(&self) -> &'static str {
        match self {
            Error::NotFound => "not found",
            Error::AlreadyExists => "already exists",
            Error::InvalidData => "invalid data",
            Error::InvalidInput => "invalid input",
            Error::Serialize => "value could not be serialized",
            Error::Deserialize => "value could not be deserialized",
            Error::UnsupportedFormat => "unsupported format",
            Error::AlreadyLocked => "already locked",
            Error::Store => "data store failure",
            Error::Io => "input or output failure",
        }
    }
}

} // verus!
