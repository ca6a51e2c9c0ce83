//! The parser: it turns the tokens of a source text into a syntax tree,
//! binding operators by their precedence.

use crate::ast::{Expression, Program, Statement};
use crate::err::ParserError;
use crate::lexer::{lemma_scan_advances, scan, Lexer};
use crate::token::{Token, TokenType, TokenView};
use vstd::prelude::*;
use vstd::string::*;
use vstd::utf8::*;

verus! {

/// How strongly an operator binds, from the weakest to the strongest.
#[derive(PartialEq, Eq, PartialOrd, Ord, Structural, Clone, Copy, Debug)]
pub enum Precedence {
    Lowest,
    Equals,
    LessGreater,
    Sum,
    Product,
    Prefix,
    Call,
}

impl Precedence {
    /// The place of this precedence in the order.
    pub open spec fn rank(self) -> nat {
        match self {
            Precedence::Lowest => 0,
            Precedence::Equals => 1,
            Precedence::LessGreater => 2,
            Precedence::Sum => 3,
            Precedence::Product => 4,
            Precedence::Prefix => 5,
            Precedence::Call => 6,
        }
    }

    pub fn level(&self) -> (level: u8)
        ensures
            level == self.rank(),
    {
        match self {
            Precedence::Lowest => 0,
            Precedence::Equals => 1,
            Precedence::LessGreater => 2,
            Precedence::Sum => 3,
            Precedence::Product => 4,
            Precedence::Prefix => 5,
            Precedence::Call => 6,
        }
    }
}

/// The precedence of a token as an infix operator; the lowest for a token
/// that is none.
pub open spec fn precedence_of(type_: TokenType) -> Precedence {
    match type_ {
        TokenType::Eq | TokenType::NotEq => Precedence::Equals,
        TokenType::LT | TokenType::GT => Precedence::LessGreater,
        TokenType::Plus | TokenType::Minus => Precedence::Sum,
        TokenType::Slash | TokenType::Asterix => Precedence::Product,
        _ => Precedence::Lowest,
    }
}

pub fn token_precedence(type_: TokenType) -> (precedence: Precedence)
    ensures
        precedence == precedence_of(type_),
{
    match type_ {
        TokenType::Eq | TokenType::NotEq => Precedence::Equals,
        TokenType::LT | TokenType::GT => Precedence::LessGreater,
        TokenType::Plus | TokenType::Minus => Precedence::Sum,
        TokenType::Slash | TokenType::Asterix => Precedence::Product,
        _ => Precedence::Lowest,
    }
}

/// The tokens of `input` from `position` on, up to and with the first end
/// of the file.
pub open spec fn token_stream(input: Seq<u8>, position: int) -> Seq<TokenView>
    decreases input.len() - position,
    when 0 <= position <= input.len()
{
    let scanned = scan(input, position);
    if scanned.token.type_ == TokenType::EOF {
        seq![scanned.token]
    } else {
        proof {
            lemma_scan_advances(input, position);
        }
        seq![scanned.token] + token_stream(input, scanned.next)
    }
}

/// The tokens as specifications see them.
pub open spec fn token_views(tokens: Seq<Token>) -> Seq<TokenView> {
    Seq::new(tokens.len(), |i: int| tokens[i]@)
}

/// The kind of the token at `i`; behind the last token, the end of the file.
pub open spec fn type_at(tokens: Seq<Token>, i: nat) -> TokenType {
    if i < tokens.len() {
        tokens[i as int].type_
    } else {
        TokenType::EOF
    }
}

/// The number of tokens from `pos` to the end.
pub open spec fn remaining(tokens: Seq<Token>, pos: nat) -> nat {
    if pos < tokens.len() {
        (tokens.len() - pos) as nat
    } else {
        0
    }
}

/// The value of a decimal digit.
pub open spec fn digit_value(c: char) -> Option<nat> {
    if '0' <= c && c <= '9' {
        Some((c as nat - '0' as nat) as nat)
    } else {
        None
    }
}

/// The value of a decimal numeral; none for a text that holds anything but digits.
pub open spec fn decimal_value(text: Seq<char>) -> Option<nat>
    decreases text.len(),
{
    if text.len() == 0 {
        Some(0)
    } else {
        match (decimal_value(text.drop_last()), digit_value(text.last())) {
            (Some(front), Some(digit)) => Some(front * 10 + digit),
            _ => None,
        }
    }
}

/// The integer that a literal stands for.
pub open spec fn integer_of(text: Seq<char>) -> Result<i64, ParserError> {
    match decimal_value(text) {
        Some(value) => if text.len() > 0 && value <= i64::MAX {
            Ok(value as i64)
        } else {
            Err(ParserError::InvalidInteger)
        },
        None => Err(ParserError::InvalidInteger),
    }
}

/// A result with `by` more tokens used.
pub open spec fn advanced<T>(r: Result<(T, nat), ParserError>, by: nat) -> Result<
    (T, nat),
    ParserError,
> {
    match r {
        Ok((value, used)) => Ok((value, used + by)),
        Err(e) => Err(e),
    }
}

/// The expression that starts at `pos` and binds stronger than
/// `precedence`, with the number of tokens behind `pos` that belong to it.
pub open spec fn parse_expression(tokens: Seq<Token>, pos: nat, precedence: Precedence) -> Result<
    (Expression, nat),
    ParserError,
>
    decreases remaining(tokens, pos), 2int,
{
    match parse_prefix(tokens, pos) {
        Err(e) => Err(e),
        Ok((left, used)) => advanced(parse_infix(tokens, pos + used, precedence, left), used),
    }
}

/// The expression that starts with the token at `pos`: a name, a literal,
/// a prefix operator with its operand, or an expression in parentheses.
pub open spec fn parse_prefix(tokens: Seq<Token>, pos: nat) -> Result<
    (Expression, nat),
    ParserError,
>
    decreases remaining(tokens, pos), 1int,
{
    match type_at(tokens, pos) {
        TokenType::Identifier => Ok((Expression::Identifier(tokens[pos as int].literal), 0nat)),
        TokenType::Int => match integer_of(tokens[pos as int].literal@) {
            Ok(value) => Ok((Expression::IntegerLiteral(value), 0nat)),
            Err(e) => Err(e),
        },
        TokenType::True => Ok((Expression::Bool(true), 0nat)),
        TokenType::False => Ok((Expression::Bool(false), 0nat)),
        TokenType::Bang | TokenType::Minus => match parse_expression(
            tokens,
            pos + 1,
            Precedence::Prefix,
        ) {
            Err(e) => Err(e),
            Ok((operand, used)) => Ok(
                (Expression::Prefix(tokens[pos as int].literal, Box::new(operand)), used + 1),
            ),
        },
        TokenType::LParen => match parse_expression(tokens, pos + 1, Precedence::Lowest) {
            Err(e) => Err(e),
            Ok((inner, used)) => {
                let closing = type_at(tokens, pos + 1 + used + 1);
                if closing == TokenType::RParen {
                    Ok((inner, used + 2))
                } else {
                    Err(ParserError::ParenthesisExpected(closing))
                }
            },
        },
        other => Err(ParserError::NoPrefixParse(other)),
    }
}

/// `left`, which ends at `at`, taken as the left operand of the infix
/// operators that follow it and bind stronger than `precedence`.
pub open spec fn parse_infix(
    tokens: Seq<Token>,
    at: nat,
    precedence: Precedence,
    left: Expression,
) -> Result<(Expression, nat), ParserError>
    decreases remaining(tokens, at), 0int,
{
    let operator = type_at(tokens, at + 1);
    if operator != TokenType::Semicolon && precedence.rank() < precedence_of(
        operator,
    ).rank() {
        match parse_expression(tokens, at + 2, precedence_of(operator)) {
            Err(e) => Err(e),
            Ok((right, used)) => advanced(
                parse_infix(
                    tokens,
                    at + 2 + used,
                    precedence,
                    Expression::Infix(Box::new(left), tokens[at as int + 1].literal, Box::new(right)),
                ),
                used + 2,
            ),
        }
    } else {
        Ok((left, 0nat))
    }
}

/// The number of tokens of a statement whose expression ends at `end`,
/// counted from `pos`: a semicolon behind the expression belongs to it.
pub open spec fn with_semicolon(tokens: Seq<Token>, pos: nat, end: nat) -> nat {
    if type_at(tokens, end + 1) == TokenType::Semicolon {
        (end + 1 - pos) as nat
    } else {
        (end - pos) as nat
    }
}

/// The statement that starts at `pos`, with the number of tokens behind
/// `pos` that belong to it.
pub open spec fn parse_statement(tokens: Seq<Token>, pos: nat) -> Result<
    (Statement, nat),
    ParserError,
> {
    if type_at(tokens, pos) == TokenType::Let {
        if type_at(tokens, pos + 1) != TokenType::Identifier {
            Err(ParserError::IdentifierExpected)
        } else if type_at(tokens, pos + 2) != TokenType::Assign {
            Err(ParserError::AssignmentExpected(type_at(tokens, pos + 2)))
        } else {
            match parse_expression(tokens, pos + 3, Precedence::Lowest) {
                Err(e) => Err(e),
                Ok((value, used)) => Ok(
                    (
                        Statement::Let(tokens[pos as int + 1].literal, value),
                        with_semicolon(tokens, pos, pos + 3 + used),
                    ),
                ),
            }
        }
    } else {
        match parse_expression(tokens, pos, Precedence::Lowest) {
            Err(e) => Err(e),
            Ok((value, used)) => Ok(
                (Statement::Expr(value), with_semicolon(tokens, pos, pos + used)),
            ),
        }
    }
}

/// `statements` in front of what `rest` holds, or the error of `rest`.
pub open spec fn prepend_statements(
    statements: Seq<Statement>,
    rest: Result<Seq<Statement>, ParserError>,
) -> Result<Seq<Statement>, ParserError> {
    match rest {
        Ok(more) => Ok(statements + more),
        Err(e) => Err(e),
    }
}

/// The statements from `pos` to the end of the file.
pub open spec fn parse_statements(tokens: Seq<Token>, pos: nat) -> Result<
    Seq<Statement>,
    ParserError,
>
    decreases remaining(tokens, pos),
{
    if type_at(tokens, pos) == TokenType::EOF {
        Ok(Seq::empty())
    } else {
        match parse_statement(tokens, pos) {
            Err(e) => Err(e),
            Ok((statement, used)) => prepend_statements(
                seq![statement],
                parse_statements(tokens, pos + used + 1),
            ),
        }
    }
}

/// A text that has a value starts with texts that have one, none larger.
proof fn lemma_decimal_prefix(text: Seq<char>, k: int)
    requires
        0 <= k <= text.len(),
    ensures
        decimal_value(text.take(k)) is None ==> decimal_value(text) is None,
        decimal_value(text) matches Some(value) ==> decimal_value(text.take(k)) matches Some(front)
            && front <= value,
    decreases text.len() - k,
{
    if k < text.len() {
        assert(text.take(k + 1).drop_last() =~= text.take(k));
        lemma_decimal_prefix(text, k + 1);
    } else {
        assert(text.take(k) =~= text);
    }
}

/// A text that has a value is made of characters of one byte each.
proof fn lemma_decimal_is_ascii(text: Seq<char>)
    requires
        decimal_value(text) is Some,
    ensures
        is_ascii_chars(text),
    decreases text.len(),
{
    if text.len() > 0 {
        lemma_decimal_is_ascii(text.drop_last());
        assert forall|i: int| 0 <= i < text.len() implies '\0' <= #[trigger] text[i]
            <= '\u{7f}' by {
            if i < text.len() - 1 {
                assert(text.drop_last()[i] == text[i]);
            } else {
                assert(digit_value(text.last()) is Some);
            }
        }
    }
}

/// Reads a decimal numeral as an integer of 64 bits.
pub fn parse_integer(literal: &str) -> (r: Result<i64, ParserError>)
    ensures
        r == integer_of(literal@),
{
    if !literal.is_ascii() {
        proof {
            if decimal_value(literal@) is Some {
                lemma_decimal_is_ascii(literal@);
            }
        }
        return Err(ParserError::InvalidInteger);
    }
    let bytes = literal.as_bytes();
    proof {
        is_ascii_spec_bytes(literal);
        assert(literal@.take(0) =~= Seq::<char>::empty());
    }
    if bytes.len() == 0 {
        return Err(ParserError::InvalidInteger);
    }
    let mut value: u64 = 0;
    let mut i: usize = 0;
    while i < bytes.len()
        invariant
            i <= bytes.len(),
            bytes@.len() == literal@.len(),
            forall|j: int| 0 <= j < bytes@.len() ==> bytes@[j] == literal@[j] as u8,
            is_ascii_chars(literal@),
            decimal_value(literal@.take(i as int)) == Some(value as nat),
            value <= i64::MAX,
        decreases bytes.len() - i,
    {
        let b = bytes[i];
        proof {
            assert(literal@.take(i as int + 1).drop_last() =~= literal@.take(i as int));
            assert(literal@.take(i as int + 1).last() == literal@[i as int]);
            assert((literal@[i as int] as nat) < 128);
            lemma_decimal_prefix(literal@, i as int + 1);
        }
        if b < 48 || b > 57 {
            return Err(ParserError::InvalidInteger);
        }
        let digit = (b - 48) as u64;
        if value > (i64::MAX as u64 - digit) / 10 {
            return Err(ParserError::InvalidInteger);
        }
        value = value * 10 + digit;
        i = i + 1;
    }
    proof {
        assert(literal@.take(i as int) =~= literal@);
    }
    Ok(value as i64)
}

/// A parser on the tokens of a source text.
pub struct Parser {
    tokens: Vec<Token>,
    position: usize,
}

impl Parser {
    /// The tokens of the source text, the end of the file being the last.
    pub closed spec fn tokens(&self) -> Seq<Token> {
        self.tokens@
    }

    /// The index of the current token.
    pub closed spec fn position(&self) -> nat {
        self.position as nat
    }

    /// The parser stands on a token, and the last token is the end of the file.
    pub closed spec fn wf(&self) -> bool {
        &&& self.position < self.tokens@.len()
        &&& self.tokens@.last().type_ == TokenType::EOF
    }

    /// A parser on the tokens that `lex` gives from where it stands up to
    /// the end of the file.
    pub fn new<'a>(lex: &mut Lexer<'a>) -> (parser: Parser)
        requires
            old(lex).wf(),
        ensures
            final(lex).wf(),
            final(lex).bytes() == old(lex).bytes(),
            parser.wf(),
            parser.position() == 0,
            token_views(parser.tokens()) == token_stream(old(lex).bytes(), old(lex).offset()),
    {
        let ghost input = lex.bytes();
        let ghost start = lex.offset();
        let mut tokens: Vec<Token> = Vec::new();
        let mut done = false;
        proof {
            lex.lemma_offset_in_bounds();
            assert(token_views(tokens@) + token_stream(input, start) =~= token_stream(
                input,
                start,
            ));
        }
        while !done
            invariant
                lex.wf(),
                lex.bytes() == input,
                0 <= lex.offset() <= input.len(),
                0 <= start <= input.len(),
                done ==> tokens@.len() > 0 && tokens@.last().type_ == TokenType::EOF
                    && token_views(tokens@) == token_stream(input, start),
                !done ==> token_stream(input, start) == token_views(tokens@) + token_stream(
                    input,
                    lex.offset(),
                ),
            decreases
                    (if done {
                        0
                    } else {
                        input.len() - lex.offset() + 1
                    }),
        {
            let ghost before = tokens@;
            let ghost at = lex.offset();
            let token = lex.next_token();
            done = token.type_ == TokenType::EOF;
            tokens.push(token);
            proof {
                assert(token_views(tokens@) =~= token_views(before) + seq![token@]);
                if done {
                    assert(token_stream(input, at) =~= seq![token@]);
                } else {
                    assert(token_views(tokens@) + token_stream(input, lex.offset())
                        =~= token_views(before) + token_stream(input, at));
                }
            }
        }
        Parser { tokens, position: 0 }
    }

    fn current_type(&self) -> (type_: TokenType)
        requires
            self.wf(),
        ensures
            type_ == type_at(self.tokens(), self.position()),
    {
        self.tokens[self.position].type_
    }

    fn peek_type(&self) -> (type_: TokenType)
        requires
            self.wf(),
        ensures
            type_ == type_at(self.tokens(), self.position() + 1),
    {
        let len = self.tokens.len();
        if self.position + 1 < len {
            self.tokens[self.position + 1].type_
        } else {
            TokenType::EOF
        }
    }

    /// The text of the current token.
    fn current_literal(&self) -> (literal: String)
        requires
            self.wf(),
        ensures
            literal == self.tokens()[self.position() as int].literal,
    {
        self.tokens[self.position].literal.clone()
    }

    /// Moves to the next token; on the last token the parser stays.
    fn next_token(&mut self)
        requires
            old(self).wf(),
        ensures
            final(self).wf(),
            final(self).tokens() == old(self).tokens(),
            final(self).position() == if old(self).position() + 1 < old(self).tokens().len() {
                old(self).position() + 1
            } else {
                old(self).position()
            },
    {
        let len = self.tokens.len();
        if self.position + 1 < len {
            self.position = self.position + 1;
        }
    }

    /// Parses the statements of the program from the current token to the
    /// end of the file.
    pub fn parse_program(&mut self) -> (r: Result<Program, ParserError>)
        requires
            old(self).wf(),
        ensures
            final(self).wf(),
            final(self).tokens() == old(self).tokens(),
            match parse_statements(old(self).tokens(), old(self).position()) {
                Ok(statements) => r matches Ok(program) && program.statements@ == statements,
                Err(e) => r matches Err(err) && err == e,
            },
    {
        let ghost tokens = self.tokens();
        let ghost start = self.position();
        let mut statements: Vec<Statement> = Vec::new();
        proof {
            match parse_statements(tokens, start) {
                Ok(more) => {
                    assert(statements@ + more =~= more);
                },
                Err(_) => {},
            }
        }
        while self.current_type() != TokenType::EOF
            invariant
                self.wf(),
                self.tokens() == tokens,
                tokens == old(self).tokens(),
                start == old(self).position(),
                parse_statements(tokens, start) == prepend_statements(
                    statements@,
                    parse_statements(tokens, self.position()),
                ),
            decreases remaining(tokens, self.position()),
        {
            let ghost at = self.position();
            let ghost before = statements@;
            let statement = match self.parse_statement() {
                Ok(statement) => statement,
                Err(e) => {
                    return Err(e);
                },
            };
            statements.push(statement);
            self.next_token();
            proof {
                let used = parse_statement(tokens, at)->Ok_0.1;
                let rest = parse_statements(tokens, at + used + 1);
                assert(rest == parse_statements(tokens, self.position()));
                match rest {
                    Ok(more) => {
                        assert(before + (seq![statement] + more) =~= statements@ + more);
                    },
                    Err(_) => {},
                }
            }
        }
        Ok(Program { statements })
    }

    /// Parses the statement that starts at the current token and stops on
    /// its last token.
    fn parse_statement(&mut self) -> (r: Result<Statement, ParserError>)
        requires
            old(self).wf(),
        ensures
            final(self).wf(),
            final(self).tokens() == old(self).tokens(),
            match parse_statement(old(self).tokens(), old(self).position()) {
                Ok((statement, used)) => r == Ok::<Statement, ParserError>(statement) && final(self).position() == old(self).position() + used,
                Err(e) => r == Err::<Statement, ParserError>(e),
            },
    {
        if self.current_type() == TokenType::Let {
            if self.peek_type() != TokenType::Identifier {
                return Err(ParserError::IdentifierExpected);
            }
            self.next_token();
            let name = self.current_literal();
            if self.peek_type() != TokenType::Assign {
                return Err(ParserError::AssignmentExpected(self.peek_type()));
            }
            self.next_token();
            self.next_token();
            let value = self.parse_expression(Precedence::Lowest)?;
            if self.peek_type() == TokenType::Semicolon {
                self.next_token();
            }
            Ok(Statement::Let(name, value))
        } else {
            let value = self.parse_expression(Precedence::Lowest)?;
            if self.peek_type() == TokenType::Semicolon {
                self.next_token();
            }
            Ok(Statement::Expr(value))
        }
    }

    /// Tells whether the token behind the current one is an infix
    /// operator that binds stronger than `precedence`.
    fn binds_stronger(&self, precedence: Precedence) -> (stronger: bool)
        requires
            self.wf(),
        ensures
            stronger == (type_at(self.tokens(), self.position() + 1) != TokenType::Semicolon
                && precedence.rank() < precedence_of(
                type_at(self.tokens(), self.position() + 1),
            ).rank()),
    {
        let peek = self.peek_type();
        peek != TokenType::Semicolon && precedence.level() < token_precedence(peek).level()
    }

    /// Parses the expression that starts at the current token and binds
    /// stronger than `precedence`, and stops on its last token.
    fn parse_expression(&mut self, precedence: Precedence) -> (r: Result<Expression, ParserError>)
        requires
            old(self).wf(),
        ensures
            final(self).wf(),
            final(self).tokens() == old(self).tokens(),
            match parse_expression(old(self).tokens(), old(self).position(), precedence) {
                Ok((expression, used)) => r == Ok::<Expression, ParserError>(expression)
                    && final(self).position() == old(self).position() + used,
                Err(e) => r == Err::<Expression, ParserError>(e),
            },
        decreases remaining(old(self).tokens(), old(self).position()), 2int,
    {
        let ghost tokens = self.tokens();
        let ghost start = self.position();
        let mut left = self.parse_prefix()?;
        let ghost first = left;
        let ghost from = self.position();
        let mut go = self.binds_stronger(precedence);
        while go
            invariant
                self.wf(),
                self.tokens() == tokens,
                tokens == old(self).tokens(),
                start == old(self).position(),
                parse_prefix(tokens, start) == Ok::<(Expression, nat), ParserError>(
                    (first, (from - start) as nat),
                ),
                start <= from <= self.position(),
                go == (type_at(tokens, self.position() + 1) != TokenType::Semicolon
                    && precedence.rank() < precedence_of(
                    type_at(tokens, self.position() + 1),
                ).rank()),
                parse_infix(tokens, from, precedence, first) == advanced(
                    parse_infix(tokens, self.position(), precedence, left),
                    (self.position() - from) as nat,
                ),
            decreases remaining(tokens, self.position()),
        {
            let operator_precedence = token_precedence(self.peek_type());
            self.next_token();
            let operator = self.current_literal();
            self.next_token();
            let right = self.parse_expression(operator_precedence)?;
            left = Expression::Infix(Box::new(left), operator, Box::new(right));
            go = self.binds_stronger(precedence);
        }
        Ok(left)
    }

    /// Parses the expression that starts with the current token: a name,
    /// a literal, a prefix operator with its operand, or an expression in
    /// parentheses.
    fn parse_prefix(&mut self) -> (r: Result<Expression, ParserError>)
        requires
            old(self).wf(),
        ensures
            final(self).wf(),
            final(self).tokens() == old(self).tokens(),
            match parse_prefix(old(self).tokens(), old(self).position()) {
                Ok((expression, used)) => r == Ok::<Expression, ParserError>(expression)
                    && final(self).position() == old(self).position() + used,
                Err(e) => r == Err::<Expression, ParserError>(e),
            },
        decreases remaining(old(self).tokens(), old(self).position()), 1int,
    {
        match self.current_type() {
            TokenType::Identifier => Ok(Expression::Identifier(self.current_literal())),
            TokenType::Int => {
                let value = parse_integer(self.tokens[self.position].literal.as_str())?;
                Ok(Expression::IntegerLiteral(value))
            },
            TokenType::True => Ok(Expression::Bool(true)),
            TokenType::False => Ok(Expression::Bool(false)),
            TokenType::Bang | TokenType::Minus => {
                let operator = self.current_literal();
                self.next_token();
                let operand = self.parse_expression(Precedence::Prefix)?;
                Ok(Expression::Prefix(operator, Box::new(operand)))
            },
            TokenType::LParen => {
                self.next_token();
                let inner = self.parse_expression(Precedence::Lowest)?;
                let closing = self.peek_type();
                if closing == TokenType::RParen {
                    self.next_token();
                    Ok(inner)
                } else {
                    Err(ParserError::ParenthesisExpected(closing))
                }
            },
            other => Err(ParserError::NoPrefixParse(other)),
        }
    }
}

} // verus!
