//! The error that the library's fallible operations report.

use vstd::prelude::*;
use vstd::string::*;

verus! {

/// An error with a message that says what went wrong.
#[derive(Debug)]
pub enum Error {
    Other(String),
}

impl Error {
    /// The message, as a sequence of characters.
    pub open spec fn view(&self) -> Seq<char> {
        match self {
            Error::Other(msg) => msg@,
        }
    }

    /// An error with the given message.
    pub fn other(msg: &str) -> (e: Error)
        ensures
            e@ == msg@,
    {
        Error::Other(String::from_str(msg))
    }

    /// The message.
    pub fn message(&self) -> (msg: String)
        ensures
            msg@ == self@,
    {
        match self {
            Error::Other(msg) => msg.clone(),
        }
    }
}

} // verus!
