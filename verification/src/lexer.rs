//! The lexer: it reads the bytes of a source text and gives its tokens one
//! after the other.

use crate::text::push_char;
use crate::token::{lookup_keyword, word_type, Token, TokenType, TokenView};
use vstd::prelude::*;
use vstd::string::*;

verus! {

/// A class of bytes that a run of the input is made of.
#[derive(PartialEq, Eq, Structural, Clone, Copy, Debug)]
pub enum CharClass {
    Letter,
    Digit,
    Whitespace,
}

impl CharClass {
    /// Whether the byte `ch` belongs to this class.
    pub open spec fn holds(self, ch: u8) -> bool {
        let c = ch as char;
        match self {
            CharClass::Letter => ('a' <= c && c <= 'z') || ('A' <= c && c <= 'Z'),
            CharClass::Digit => '0' <= c && c <= '9',
            CharClass::Whitespace => c == ' ' || c == '\t' || c == '\r' || c == '\n',
        }
    }

    /// Tells whether the byte `ch` belongs to this class.
    pub fn test(self, ch: u8) -> (belongs: bool)
        ensures
            belongs == self.holds(ch),
    {
        match self {
            CharClass::Letter => is_letter(ch),
            CharClass::Digit => is_digit(ch),
            CharClass::Whitespace => is_whitespace(ch),
        }
    }
}

/// The byte of `input` at `i`, or zero behind its end.
pub open spec fn byte_at(input: Seq<u8>, i: int) -> u8 {
    if 0 <= i < input.len() {
        input[i]
    } else {
        0
    }
}

/// The offset of the first byte at or behind `from` that is not of the
/// class, or the length of the input if there is none.
pub open spec fn run_end(input: Seq<u8>, from: int, class: CharClass) -> int
    decreases input.len() - from,
{
    if 0 <= from < input.len() && class.holds(input[from]) {
        run_end(input, from + 1, class)
    } else {
        from
    }
}

/// The characters that the bytes stand for, one for each byte.
pub open spec fn ascii_text(bytes: Seq<u8>) -> Seq<char> {
    Seq::new(bytes.len(), |i: int| bytes[i] as char)
}

/// The kind of token that a byte is by itself.
pub open spec fn symbol_type(ch: u8) -> TokenType {
    let c = ch as char;
    if c == '=' {
        TokenType::Assign
    } else if c == ';' {
        TokenType::Semicolon
    } else if c == '(' {
        TokenType::LParen
    } else if c == ')' {
        TokenType::RParen
    } else if c == ',' {
        TokenType::Comma
    } else if c == '+' {
        TokenType::Plus
    } else if c == '{' {
        TokenType::LBrace
    } else if c == '}' {
        TokenType::RBrace
    } else if c == '>' {
        TokenType::GT
    } else if c == '<' {
        TokenType::LT
    } else if c == '!' {
        TokenType::Bang
    } else if c == '-' {
        TokenType::Minus
    } else if c == '*' {
        TokenType::Asterix
    } else if c == '/' {
        TokenType::Slash
    } else {
        TokenType::Illegal
    }
}

/// A token read from the input and the offset behind it.
pub ghost struct Scanned {
    pub token: TokenView,
    pub next: int,
}

/// The token that starts at or behind `position`, whitespace skipped. A
/// zero byte and the end of the input are the end of the file; letters
/// make a keyword or an identifier, digits a number; `==` and `!=` are one
/// token each; every other byte is a token by itself, illegal where it is
/// no symbol of the language, and its text is the character that has the
/// byte's number.
pub open spec fn scan(input: Seq<u8>, position: int) -> Scanned {
    let start = run_end(input, position, CharClass::Whitespace);
    let ch = byte_at(input, start);
    if ch == 0 {
        Scanned {
            token: TokenView { type_: TokenType::EOF, literal: Seq::empty() },
            next: if start < input.len() {
                start + 1
            } else {
                start
            },
        }
    } else if CharClass::Letter.holds(ch) {
        let end = run_end(input, start, CharClass::Letter);
        let word = ascii_text(input.subrange(start, end));
        Scanned { token: TokenView { type_: word_type(word), literal: word }, next: end }
    } else if CharClass::Digit.holds(ch) {
        let end = run_end(input, start, CharClass::Digit);
        let digits = ascii_text(input.subrange(start, end));
        Scanned { token: TokenView { type_: TokenType::Int, literal: digits }, next: end }
    } else if ch as char == '=' && byte_at(input, start + 1) as char == '=' {
        Scanned {
            token: TokenView { type_: TokenType::Eq, literal: seq!['=', '='] },
            next: start + 2,
        }
    } else if ch as char == '!' && byte_at(input, start + 1) as char == '=' {
        Scanned {
            token: TokenView { type_: TokenType::NotEq, literal: seq!['!', '='] },
            next: start + 2,
        }
    } else {
        Scanned {
            token: TokenView { type_: symbol_type(ch), literal: seq![ch as char] },
            next: start + 1,
        }
    }
}

/// A run ends at or behind its start and inside the input, and the byte
/// at its end is not of the class.
pub proof fn lemma_run_end(input: Seq<u8>, from: int, class: CharClass)
    requires
        0 <= from <= input.len(),
    ensures
        from <= run_end(input, from, class) <= input.len(),
        !class.holds(byte_at(input, run_end(input, from, class))),
        class.holds(byte_at(input, from)) ==> from < run_end(input, from, class),
    decreases input.len() - from,
{
    if from < input.len() && class.holds(input[from]) {
        lemma_run_end(input, from + 1, class);
    }
}

/// Scanning stays inside the input, and every token but the end of the
/// file takes at least one byte.
pub proof fn lemma_scan_advances(input: Seq<u8>, position: int)
    requires
        0 <= position <= input.len(),
    ensures
        position <= scan(input, position).next <= input.len(),
        scan(input, position).token.type_ != TokenType::EOF ==> position < scan(
            input,
            position,
        ).next,
{
    lemma_run_end(input, position, CharClass::Whitespace);
    let start = run_end(input, position, CharClass::Whitespace);
    lemma_run_end(input, start, CharClass::Letter);
    lemma_run_end(input, start, CharClass::Digit);
}

/// A lexer on the bytes of a source text.
pub struct Lexer<'a> {
    input: &'a [u8],
    position: usize,
    ch: u8,
}

impl<'a> Lexer<'a> {
    /// The bytes of the source text.
    pub closed spec fn bytes(&self) -> Seq<u8> {
        self.input@
    }

    /// The offset of the byte that is read next.
    pub closed spec fn offset(&self) -> int {
        self.position as int
    }

    /// The lexer stands inside its input and holds the byte it stands on.
    pub closed spec fn wf(&self) -> bool {
        &&& self.position <= self.input@.len()
        &&& self.ch == byte_at(self.input@, self.position as int)
    }

    /// A lexer stands inside its input.
    pub proof fn lemma_offset_in_bounds(&self)
        requires
            self.wf(),
        ensures
            0 <= self.offset() <= self.bytes().len(),
    {
    }

    /// A lexer at the start of `input`.
    pub fn new(input: &'a str) -> (lex: Lexer<'a>)
        ensures
            lex.wf(),
            lex.bytes() == input.spec_bytes(),
            lex.offset() == 0,
    {
        let bytes = input.as_bytes();
        let ch = if bytes.len() > 0 {
            bytes[0]
        } else {
            0
        };
        Lexer { input: bytes, position: 0, ch }
    }

    /// The offset behind the current byte, or the end of the input.
    fn read_position(&self) -> (next: usize)
        requires
            self.wf(),
        ensures
            next == if self.offset() < self.bytes().len() {
                self.offset() + 1
            } else {
                self.offset()
            },
    {
        if self.position < self.input.len() {
            self.position + 1
        } else {
            self.position
        }
    }

    /// Moves to the next byte; behind the end of the input the byte is zero.
    fn read_next_char(&mut self)
        requires
            old(self).wf(),
        ensures
            final(self).wf(),
            final(self).bytes() == old(self).bytes(),
            final(self).offset() == if old(self).offset() < old(self).bytes().len() {
                old(self).offset() + 1
            } else {
                old(self).offset()
            },
    {
        let next = self.read_position();
        if next >= self.input.len() {
            self.ch = 0;
        } else {
            self.ch = self.input[next];
        }
        self.position = next;
    }

    /// The byte behind the current one, or zero at the end of the input.
    fn peek_char(&self) -> (ch: u8)
        requires
            self.wf(),
        ensures
            ch == byte_at(self.bytes(), self.offset() + 1),
    {
        if self.position < self.input.len() && self.position + 1 < self.input.len() {
            self.input[self.position + 1]
        } else {
            0
        }
    }

    /// Reads the next token and moves behind it.
    pub fn next_token(&mut self) -> (token: Token)
        requires
            old(self).wf(),
        ensures
            final(self).wf(),
            final(self).bytes() == old(self).bytes(),
            token@ == scan(old(self).bytes(), old(self).offset()).token,
            final(self).offset() == scan(old(self).bytes(), old(self).offset()).next,
            old(self).offset() <= final(self).offset() <= final(self).bytes().len(),
            token.type_ != TokenType::EOF ==> old(self).offset() < final(self).offset(),
    {
        proof {
            lemma_scan_advances(self.bytes(), self.offset());
        }
        self.skip_whitespace();
        let ch = self.ch;
        if ch == 0 {
            self.read_next_char();
            return Token { type_: TokenType::EOF, literal: String::new() };
        }
        if is_letter(ch) {
            let identifier = self.read_until(CharClass::Letter);
            let type_ = match lookup_keyword(identifier.as_str()) {
                Some(keyword) => keyword,
                None => TokenType::Identifier,
            };
            return Token { type_, literal: identifier };
        }
        if is_digit(ch) {
            let digits = self.read_until(CharClass::Digit);
            return Token { type_: TokenType::Int, literal: digits };
        }
        let c = ch as char;
        if c == '=' && self.peek_char() as char == '=' {
            proof {
                reveal_strlit("==");
                assert("=="@ =~= seq!['=', '=']);
            }
            self.read_next_char();
            self.read_next_char();
            return Token { type_: TokenType::Eq, literal: String::from_str("==") };
        }
        if c == '!' && self.peek_char() as char == '=' {
            proof {
                reveal_strlit("!=");
                assert("!="@ =~= seq!['!', '=']);
            }
            self.read_next_char();
            self.read_next_char();
            return Token { type_: TokenType::NotEq, literal: String::from_str("!=") };
        }
        let type_ = match c {
            '=' => TokenType::Assign,
            ';' => TokenType::Semicolon,
            '(' => TokenType::LParen,
            ')' => TokenType::RParen,
            ',' => TokenType::Comma,
            '+' => TokenType::Plus,
            '{' => TokenType::LBrace,
            '}' => TokenType::RBrace,
            '>' => TokenType::GT,
            '<' => TokenType::LT,
            '!' => TokenType::Bang,
            '-' => TokenType::Minus,
            '*' => TokenType::Asterix,
            '/' => TokenType::Slash,
            _ => TokenType::Illegal,
        };
        let token = new_token(type_, ch);
        self.read_next_char();
        token
    }

    /// Reads bytes as long as they are of the class and gives them as text.
    fn read_until(&mut self, class: CharClass) -> (text: String)
        requires
            old(self).wf(),
        ensures
            final(self).wf(),
            final(self).bytes() == old(self).bytes(),
            final(self).offset() == run_end(old(self).bytes(), old(self).offset(), class),
            text@ == ascii_text(
                old(self).bytes().subrange(old(self).offset(), final(self).offset()),
            ),
    {
        let start = self.position;
        let mut text = String::new();
        proof {
            assert(text@ =~= ascii_text(self.bytes().subrange(start as int, start as int)));
        }
        while class.test(self.ch)
            invariant
                self.wf(),
                self.input == old(self).input,
                start == old(self).position,
                start <= self.position <= self.input@.len(),
                run_end(self.input@, self.position as int, class) == run_end(
                    self.input@,
                    start as int,
                    class,
                ),
                text@ == ascii_text(self.input@.subrange(start as int, self.position as int)),
            decreases self.input@.len() - self.position,
        {
            let ghost before = self.position;
            push_char(&mut text, self.ch as char);
            self.read_next_char();
            proof {
                assert(self.position == before + 1);
                assert(text@ =~= ascii_text(
                    self.input@.subrange(start as int, self.position as int),
                ));
            }
        }
        text
    }

    /// Moves to the first byte that is no whitespace.
    fn skip_whitespace(&mut self)
        requires
            old(self).wf(),
        ensures
            final(self).wf(),
            final(self).bytes() == old(self).bytes(),
            final(self).offset() == run_end(
                old(self).bytes(),
                old(self).offset(),
                CharClass::Whitespace,
            ),
    {
        while is_whitespace(self.ch)
            invariant
                self.wf(),
                self.input == old(self).input,
                self.position <= self.input@.len(),
                run_end(self.input@, self.position as int, CharClass::Whitespace) == run_end(
                    self.input@,
                    old(self).position as int,
                    CharClass::Whitespace,
                ),
            decreases self.input@.len() - self.position,
        {
            self.read_next_char();
        }
    }
}

/// A token whose text is the one byte `ch`.
pub fn new_token(token_type: TokenType, ch: u8) -> (token: Token)
    ensures
        token@ == (TokenView { type_: token_type, literal: seq![ch as char] }),
{
    let mut literal = String::new();
    push_char(&mut literal, ch as char);
    assert(literal@ =~= seq![ch as char]);
    Token { type_: token_type, literal }
}

pub fn is_letter(ch: u8) -> (letter: bool)
    ensures
        letter == CharClass::Letter.holds(ch),
{
    let c = ch as char;
    ('a' <= c && c <= 'z') || ('A' <= c && c <= 'Z')
}

pub fn is_whitespace(ch: u8) -> (whitespace: bool)
    ensures
        whitespace == CharClass::Whitespace.holds(ch),
{
    let c = ch as char;
    c == ' ' || c == '\t' || c == '\r' || c == '\n'
}

pub fn is_digit(ch: u8) -> (digit: bool)
    ensures
        digit == CharClass::Digit.holds(ch),
{
    let c = ch as char;
    '0' <= c && c <= '9'
}

} // verus!
