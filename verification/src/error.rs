//! The ways in which one exchange with the server can fail.

use vstd::prelude::*;

verus! {

/// Why an exchange produced no reply.
#[derive(Debug, Clone, Copy, PartialEq, Eq, Structural)]
pub enum Error {
    /// The stream ended where more of a reply was expected.
    ReadEmptyData,
    /// The transport failed while reading, or text in a reply was not UTF-8.
    FailedDataRead,
    /// A reply line began with a byte that names no reply type.
    UnknownType,
    /// A declared length or count was no integer, was below `-1`, or did not
    /// lead to the terminator of its payload.
    MalformedLength,
    /// The command could not be sent or flushed.
    WriteFailed,
    /// Arrays were nested deeper than the decoder allows.
    NestingTooDeep,
}

impl Error {
    /// The text that describes each error.
    pub open spec fn spec_message(self) -> Seq<char> {
        match self {
            Error::ReadEmptyData => "Read empty data"@,
            Error::FailedDataRead => "Failed to read data"@,
            Error::UnknownType => "Unknown return type"@,
            Error::MalformedLength => "Malformed length"@,
            Error::WriteFailed => "Failed to write data"@,
            Error::NestingTooDeep => "Arrays nested too deep"@,
        }
    }

    /// A short description of the error, fit for display.
    pub fn message(&self) -> (text: &'static str)
        ensures
            text@ == self.spec_message(),
    {
        match self {
            Error::ReadEmptyData => "Read empty data",
            Error::FailedDataRead => "Failed to read data",
            Error::UnknownType => "Unknown return type",
            Error::MalformedLength => "Malformed length",
            Error::WriteFailed => "Failed to write data",
            Error::NestingTooDeep => "Arrays nested too deep",
        }
    }
}

} // verus!
