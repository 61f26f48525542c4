//! Errors of parsing.

use vstd::prelude::*;
use vstd::string::*;

verus! {

/// The kind of an error.
#[derive(Debug)]
pub enum ErrorKind {
    /// A line does not have the form that its file asks for.
    Parse(String),
}

/// An error of parsing, with the number of the line if it is known.
#[derive(Debug)]
pub struct Error {
    pub kind: ErrorKind,
    pub line: Option<u64>,
}

impl Error {
    /// A parse error with the message `msg`.
    pub fn parse(msg: &str) -> (e: Error)
        ensures
            e.line is None,
            e.kind matches ErrorKind::Parse(text) && text@ == msg@,
    {
        Error { kind: ErrorKind::Parse(String::from_str(msg)), line: None }
    }

    /// The kind of this error.
    pub fn kind(&self) -> (kind: &ErrorKind)
        ensures
            *kind == self.kind,
    {
        &self.kind
    }

    /// The number of the line at which the error occurred, if it is known.
    pub fn line(&self) -> (line: Option<u64>)
        ensures
            line == self.line,
    {
        self.line
    }

    /// The kind of this error, without the error.
    pub fn into_kind(self) -> (kind: ErrorKind)
        ensures
            kind == self.kind,
    {
        self.kind
    }

    /// The message of this error.
    pub fn message(&self) -> (msg: String)
        ensures
            self.kind matches ErrorKind::Parse(text) && text@ == msg@,
    {
        match &self.kind {
            ErrorKind::Parse(text) => text.clone(),
        }
    }
}

} // verus!
