//! The errors of the parser.

use crate::token::TokenType;
use vstd::prelude::*;

verus! {

/// Why a token stream is no program. Where a certain token was expected,
/// the error holds the kind of token that stood in its place.
#[derive(PartialEq, Eq, Structural, Clone, Copy, Debug)]
pub enum ParserError {
    /// `let` is not followed by a name.
    IdentifierExpected,
    /// The name of a `let` is not followed by `=`.
    AssignmentExpected(TokenType),
    /// An opening parenthesis is not closed behind its expression.
    ParenthesisExpected(TokenType),
    /// No expression starts with a token of this kind.
    NoPrefixParse(TokenType),
    /// A number that is no decimal numeral, or too large for 64 bits.
    InvalidInteger,
}

} // verus!
