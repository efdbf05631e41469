//! The error of the whole pipeline.

use crate::lexer;
use crate::parser;
use vstd::prelude::*;
use vstd::std_specs::convert::FromSpecImpl;

verus! {

/// A failure of one of the stages, wrapped as it came.
#[derive(Debug, Clone, PartialEq)]
pub enum Error {
    Lexer(lexer::Error),
    Parser(parser::Error),
}

impl Error {
    /// The error in words: those of the stage that failed.
    pub open spec fn text(self) -> Seq<char> {
        match self {
            Error::Lexer(err) => err.text(),
            Error::Parser(err) => err@.text(),
        }
    }

    /// The error in words: those of the stage that failed.
    pub fn message(&self) -> (text: String)
        ensures
            text@ == self.text(),
    {
        match self {
            Error::Lexer(err) => err.message(),
            Error::Parser(err) => err.message(),
        }
    }
}

impl From<lexer::Error> for Error {
    fn from(err: lexer::Error) -> (wrapped: Error) {
        Error::Lexer(err)
    }
}

impl FromSpecImpl<lexer::Error> for Error {
    open spec fn obeys_from_spec() -> bool {
        true
    }

    open spec fn from_spec(err: lexer::Error) -> Error {
        Error::Lexer(err)
    }
}

impl From<parser::Error> for Error {
    fn from(err: parser::Error) -> (wrapped: Error) {
        Error::Parser(err)
    }
}

impl FromSpecImpl<parser::Error> for Error {
    open spec fn obeys_from_spec() -> bool {
        true
    }

    open spec fn from_spec(err: parser::Error) -> Error {
        Error::Parser(err)
    }
}

} // verus!
