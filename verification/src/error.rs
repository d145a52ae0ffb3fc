//! Failures of encoding and decoding.

use vstd::prelude::*;

verus! {

/// What is wrong with the text of a token.
#[derive(Clone, Copy, Debug, PartialEq, Eq, Structural)]
pub enum FormatFault {
    /// The token holds no `_`.
    MissingSeparator,
    /// The part after the last `_` is longer than 22 bytes.
    TailTooLong,
    /// The part after the last `_` is empty, holds a byte outside the base62
    /// alphabet, or denotes a number that does not fit in 128 bits.
    InvalidBase62,
}

/// Why an identifier could not be encoded or a token could not be decoded.
#[derive(Clone, Copy, Debug, PartialEq, Eq, Structural)]
pub enum IdError {
    /// The payload does not fit in 96 bits.
    Range,
    /// The token is malformed.
    Format(FormatFault),
    /// The derived key was refused by the cipher.
    KeyInit,
    /// The checksum inside the decrypted block does not match its payload.
    Integrity,
}

impl IdError {
    /// The message shown to a caller for this failure.
    pub fn message(&self) -> (msg: &'static str)
        ensures
            msg@ == Self::message_text(*self),
    {
        match self {
            IdError::Range => "Number is larger than 96 bits",
            IdError::Format(FormatFault::InvalidBase62) => "Failed to decode input.",
            IdError::Format(_) => "Invalid input format",
            IdError::KeyInit => "Failed to initialize cipher.",
            IdError::Integrity => "Integrity check failed.",
        }
    }

    /// The text of [`IdError::message`].
    pub open spec fn message_text(e: IdError) -> Seq<char> {
        match e {
            IdError::Range => "Number is larger than 96 bits"@,
            IdError::Format(FormatFault::InvalidBase62) => "Failed to decode input."@,
            IdError::Format(_) => "Invalid input format"@,
            IdError::KeyInit => "Failed to initialize cipher."@,
            IdError::Integrity => "Integrity check failed."@,
        }
    }
}

} // verus!
