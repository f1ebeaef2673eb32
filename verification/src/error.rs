//! The error type shared by every fallible operation of the library.
use vstd::prelude::*;

verus! {

/// Unified error type returned by Silero VAD helpers.
#[derive(Debug)]
pub enum SileroError {
    /// Arbitrary message produced by a failed check.
    Message(String),
}

/// Builds a [`SileroError::Message`] carrying `message`.
pub fn make_error(message: String) -> (e: SileroError)
    ensures
        e == SileroError::Message(message),
{
    SileroError::Message(message)
}

impl SileroError {
    /// The text carried by the error.
    pub open spec fn text(&self) -> Seq<char> {
        match self {
            SileroError::Message(m) => m@,
        }
    }

    /// Returns the text carried by the error, as `Display` prints it.
    pub fn message(&self) -> (s: String)
        ensures
            s@ == self.text(),
    {
        match self {
            SileroError::Message(m) => m.clone(),
        }
    }
}

} // verus!
