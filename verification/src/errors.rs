use vstd::prelude::*;

verus! {

/// The error taxonomy of the pipeline. Every failure aborts the operation
/// that raised it; there is no retry or partial success.
#[derive(Debug, Clone, Copy, PartialEq, Eq, Structural)]
pub enum Error {
    /// A file could not be opened, read, written or stat'ed.
    FileAccess,
    /// The source file's base name does not fit the fixed metadata capacity.
    NameTooLong,
    /// An AEAD tag did not validate: wrong key, wrong nonce or tampering.
    AuthenticationFailure,
    /// A truncated length header, truncated entry body or invalid serialization.
    MalformedContainer,
    /// Staged chunk indices have a gap, a duplicate or an out-of-range value.
    SequenceError,
    /// A recovered file name is not valid text.
    EncodingError,
}

impl Error {
    /// A short description, for callers that print errors.
    pub fn describe(&self) -> (r: &'static str)
    {
        match self {
            Error::FileAccess => "file access failed",
            Error::NameTooLong => "file name too long",
            Error::AuthenticationFailure => "authentication failed",
            Error::MalformedContainer => "malformed container",
            Error::SequenceError => "staged chunks missing or out of order",
            Error::EncodingError => "recovered file name is not valid text",
        }
    }
}

} // verus!
