//! The operational error of the table: a single kind carrying a
//! human-readable message, used for out-of-range area indices and for
//! lookups or removals that found nothing.

use vstd::prelude::*;

verus! {

/// An operational error, viewed in specifications as the character
/// sequence of its message.
#[derive(Debug)]
pub struct IBLTError {
    details: String,
}

impl View for IBLTError {
    type V = Seq<char>;

    closed spec fn view(&self) -> Seq<char> {
        self.details@
    }
}

impl IBLTError {
    /// Wraps a message in an error value.
    pub fn new(msg: &str) -> (e: IBLTError)
        ensures
            e@ == msg@,
    {
        IBLTError { details: msg.to_owned() }
    }

    /// The message carried by this error.
    pub fn message(&self) -> (m: &str)
        ensures
            m@ == self@,
    {
        self.details.as_str()
    }
}

} // verus!
