//! # Parsers
//!
//! The shell parsers provided by this crate.

pub mod bash;
pub mod builtin_options;
pub mod options;
pub mod state;
pub mod tokenizer;

use crate::ParserError;
use crate::ParserErrorCode;
use vstd::prelude::*;

verus! {

impl ParserError {
    /// ## new
    ///
    /// Instantiates a new parser error.
    pub fn new(code: ParserErrorCode, message: String) -> (e: ParserError)
        ensures
            e.code == code,
            e.message@ == message@,
    {
        ParserError { code, message }
    }
}

} // verus!
