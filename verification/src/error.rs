//! The pipeline's combined error: a scan error or a parse error, whichever
//! stage failed first.

use vstd::prelude::*;

use crate::lexer;
use crate::parser;

verus! {

/// A failure of the pipeline: the scanner's error or the parser's.
#[derive(Debug, Clone, Copy, PartialEq)]
pub enum Error {
    Lexer(lexer::Error),
    Parser(parser::Error),
}

impl From<lexer::Error> for Error {
    fn from(e: lexer::Error) -> (r: Self) {
        Error::Lexer(e)
    }
}

impl vstd::std_specs::convert::FromSpecImpl<lexer::Error> for Error {
    open spec fn obeys_from_spec() -> bool {
        true
    }

    open spec fn from_spec(e: lexer::Error) -> Self {
        Error::Lexer(e)
    }
}

impl From<parser::Error> for Error {
    fn from(e: parser::Error) -> (r: Self) {
        Error::Parser(e)
    }
}

impl vstd::std_specs::convert::FromSpecImpl<parser::Error> for Error {
    open spec fn obeys_from_spec() -> bool {
        true
    }

    open spec fn from_spec(e: parser::Error) -> Self {
        Error::Parser(e)
    }
}

} // verus!
