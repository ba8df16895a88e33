//! The error the codec reports on a malformed container.

use vstd::prelude::*;

verus! {

/// A structural mismatch in a container: bad magic, truncated chunk,
/// inconsistent size field, or an unknown object type code.
#[derive(Debug)]
pub struct ParseError {
    pub message: String,
}

impl ParseError {
    pub fn new(message: &str) -> (r: Self)
        ensures
            r.message@ == message@,
    {
        ParseError { message: message.to_owned() }
    }

    /// A human-readable description of the failure.
    pub fn describe(&self) -> (r: String)
        ensures
            r@ == self.message@,
    {
        self.message.clone()
    }
}

} // verus!
