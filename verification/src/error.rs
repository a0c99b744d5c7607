//! Errors the library's own logic can produce. Failures of lexing and
//! parsing carry their own positioned types ([`crate::lexer::LexError`]
//! and [`crate::parser::ParseError`]); this error covers the remaining
//! pure operations. I/O and network failures belong to the collaborators
//! that perform them.

use vstd::prelude::*;

verus! {

/// A failure of one of the library's pure operations.
#[derive(Debug, Clone, PartialEq, Eq, Structural)]
pub enum Error {
    /// A message link does not carry a numeric message id in the expected
    /// position.
    InvalidLink,
}

impl Error {
    /// A short description of the error.
    pub fn describe(&self) -> (r: String)
        ensures
            r@ == "invalid url"@,
    {
        "invalid url".to_owned()
    }
}

} // verus!
