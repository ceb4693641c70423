//! Errors in the definition of a lexicon.

use vstd::prelude::*;

verus! {

/// The error that `regex` reports for a pattern that it cannot compile.
#[verifier::external_type_specification]
#[verifier::external_body]
pub struct ExRegexError(regex::Error);

/// Why a set of lexeme definitions was refused.
#[derive(Debug, PartialEq)]
pub enum LexanError {
    /// A tag is used twice (or is the end marker).
    DuplicateHandle(u32),
    /// A literal or regex pattern is given twice.
    DuplicatePattern(String),
    /// A pattern is empty.
    EmptyPattern(Option<u32>),
    /// A regex pattern does not compile.
    RegexError(regex::Error),
}

} // verus!
