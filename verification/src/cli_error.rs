//! The error type the command-line front end reports.

use vstd::prelude::*;

verus! {

/// A failure of a command: carries a human-readable message.
#[derive(Debug)]
pub struct CliError {
    pub message: String,
}

impl CliError {
    pub fn new(message: &str) -> (r: Self)
        ensures
            r.message@ == message@,
    {
        CliError { message: message.to_owned() }
    }

    /// A human-readable description of the failure.
    pub fn describe(&self) -> (r: String)
        ensures
            r@ == self.message@,
    {
        self.message.clone()
    }
}

} // verus!
