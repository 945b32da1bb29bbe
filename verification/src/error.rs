//! What the library refuses.

use vstd::prelude::*;

verus! {

/// What the codec, the snapshots and the service refuse.
#[derive(Debug, Clone, Copy, PartialEq, Eq, Structural)]
pub enum Error {
    /// The value is too large for its encoding: a message that does not
    /// fit in one frame, or a table that no snapshot can hold.
    Encode,
    /// The bytes are not the encoding of a value.
    Decode,
    /// The message is not one that may open a connection.
    Protocol,
}

impl Error {
    /// The error in words.
    pub open spec fn words(self) -> Seq<char> {
        match self {
            Error::Encode => "the value is too large for its encoding"@,
            Error::Decode => "the bytes are not the encoding of a value"@,
            Error::Protocol => "the message is not one that may open a connection"@,
        }
    }

    /// The error in words.
    pub fn describe(&self) -> (text: &'static str)
        ensures
            text@ == self.words(),
    {
        match self {
            Error::Encode => "the value is too large for its encoding",
            Error::Decode => "the bytes are not the encoding of a value",
            Error::Protocol => "the message is not one that may open a connection",
        }
    }
}

} // verus!
