//! Tokens: the kinds of token, a token with its text, and the keywords.

use crate::text::str_eq;
use vstd::prelude::*;

verus! {

/// The kinds of token.
#[derive(PartialEq, Eq, Structural, Hash, Clone, Copy, Debug)]
pub enum TokenType {
    Illegal,
    EOF,
    Identifier,
    Int,
    Assign,
    Plus,
    Minus,
    Bang,
    Asterix,
    Slash,
    LT,
    GT,
    Eq,
    NotEq,
    Comma,
    Semicolon,
    LParen,
    RParen,
    LBrace,
    RBrace,
    Function,
    Let,
    True,
    False,
    If,
    Else,
}

/// A token: its kind and the text it was read from.
#[derive(PartialEq, Eq, Clone, Debug)]
pub struct Token {
    pub type_: TokenType,
    pub literal: String,
}

/// A token as specifications see it: its kind and the characters of its text.
pub ghost struct TokenView {
    pub type_: TokenType,
    pub literal: Seq<char>,
}

impl View for Token {
    type V = TokenView;

    open spec fn view(&self) -> TokenView {
        TokenView { type_: self.type_, literal: self.literal@ }
    }
}

/// The kind of token that a word stands for, where the word is a keyword.
pub open spec fn keyword(word: Seq<char>) -> Option<TokenType> {
    if word =~= seq!['f', 'n'] {
        Some(TokenType::Function)
    } else if word =~= seq!['l', 'e', 't'] {
        Some(TokenType::Let)
    } else if word =~= seq!['t', 'r', 'u', 'e'] {
        Some(TokenType::True)
    } else if word =~= seq!['f', 'a', 'l', 's', 'e'] {
        Some(TokenType::False)
    } else if word =~= seq!['i', 'f'] {
        Some(TokenType::If)
    } else if word =~= seq!['e', 'l', 's', 'e'] {
        Some(TokenType::Else)
    } else {
        None
    }
}

/// The kind of token of a word: that of the keyword, or an identifier.
pub open spec fn word_type(word: Seq<char>) -> TokenType {
    match keyword(word) {
        Some(type_) => type_,
        None => TokenType::Identifier,
    }
}

/// Looks a word up among the keywords.
pub fn lookup_keyword(word: &str) -> (found: Option<TokenType>)
    ensures
        found == keyword(word@),
{
    proof {
        reveal_strlit("fn");
        reveal_strlit("let");
        reveal_strlit("true");
        reveal_strlit("false");
        reveal_strlit("if");
        reveal_strlit("else");
        assert("fn"@ =~= seq!['f', 'n']);
        assert("let"@ =~= seq!['l', 'e', 't']);
        assert("true"@ =~= seq!['t', 'r', 'u', 'e']);
        assert("false"@ =~= seq!['f', 'a', 'l', 's', 'e']);
        assert("if"@ =~= seq!['i', 'f']);
        assert("else"@ =~= seq!['e', 'l', 's', 'e']);
    }
    if str_eq(word, "fn") {
        Some(TokenType::Function)
    } else if str_eq(word, "let") {
        Some(TokenType::Let)
    } else if str_eq(word, "true") {
        Some(TokenType::True)
    } else if str_eq(word, "false") {
        Some(TokenType::False)
    } else if str_eq(word, "if") {
        Some(TokenType::If)
    } else if str_eq(word, "else") {
        Some(TokenType::Else)
    } else {
        None
    }
}

} // verus!
