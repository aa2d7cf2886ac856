//! The error type the surrounding program reports before it exits.

use vstd::prelude::*;

verus! {

/// A fatal condition, carrying the message to print on the error stream.
#[derive(Debug)]
pub struct Error(pub String);

impl Error {
    /// Wrap a message.
    pub fn new(message: String) -> (r: Error)
        ensures
            r.0@ == message@,
    {
        Error(message)
    }

    /// The message to print.
    pub fn message(&self) -> (r: &String)
        ensures
            r@ == self.0@,
    {
        &self.0
    }
}

} // verus!
