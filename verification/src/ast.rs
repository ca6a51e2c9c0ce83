//! The syntax tree: expressions, statements and whole programs.

use crate::code::{decimal, push_decimal};
use vstd::prelude::*;
use vstd::string::*;

verus! {

/// An expression of the language.
#[derive(PartialEq, Debug)]
pub enum Expression {
    /// A name.
    Identifier(String),
    /// An integer literal.
    IntegerLiteral(i64),
    /// `true` or `false`.
    Bool(bool),
    /// An operator in front of its operand.
    Prefix(String, Box<Expression>),
    /// The left operand, the operator and the right operand.
    Infix(Box<Expression>, String, Box<Expression>),
    /// A conditional: the condition, the block that is run when it holds
    /// and, if there is one, the block that is run when it does not.
    IfExpression {
        condition: Box<Expression>,
        consequence: Box<Statement>,
        alternative: Option<Box<Statement>>,
    },
}

/// A statement of the language.
#[derive(PartialEq, Debug)]
pub enum Statement {
    /// `let` with the name that is bound and the value bound to it.
    Let(String, Expression),
    /// An expression that stands as a statement.
    Expr(Expression),
    /// Statements between braces.
    Block(Vec<Statement>),
}

/// A parsed program: its statements in order.
#[derive(PartialEq, Debug)]
pub struct Program {
    pub statements: Vec<Statement>,
}

/// The decimal numeral of an integer, with a minus sign where it is negative.
pub open spec fn integer_text(value: i64) -> Seq<char> {
    if value < 0 {
        "-"@ + decimal((-(value as int)) as nat)
    } else {
        decimal(value as nat)
    }
}

/// The text of an expression. An operator with its operands stands in
/// parentheses, so that the text shows how the expression was read.
pub open spec fn expression_text(e: Expression) -> Seq<char>
    decreases e,
{
    match e {
        Expression::Identifier(name) => name@,
        Expression::IntegerLiteral(value) => integer_text(value),
        Expression::Bool(value) => if value {
            "true"@
        } else {
            "false"@
        },
        Expression::Prefix(operator, operand) => "("@ + operator@ + expression_text(*operand)
            + ")"@,
        Expression::Infix(left, operator, right) => "("@ + expression_text(*left) + " "@
            + operator@ + " "@ + expression_text(*right) + ")"@,
        Expression::IfExpression { condition, consequence, alternative } => "if "@
            + expression_text(*condition) + " "@ + statement_text(*consequence) + match alternative {
            Some(otherwise) => " else "@ + statement_text(*otherwise),
            None => Seq::empty(),
        },
    }
}

/// The text of a statement.
pub open spec fn statement_text(s: Statement) -> Seq<char>
    decreases s,
{
    match s {
        Statement::Let(name, value) => "let "@ + name@ + " = "@ + expression_text(value) + ";"@,
        Statement::Expr(e) => expression_text(e),
        Statement::Block(statements) => "{ "@ + statements_text(statements@) + "}"@,
    }
}

/// The texts of statements, each followed by a space.
pub open spec fn statements_text(statements: Seq<Statement>) -> Seq<char>
    decreases statements,
{
    if statements.len() == 0 {
        Seq::empty()
    } else {
        statements_text(statements.drop_last()) + statement_text(statements.last()) + " "@
    }
}

fn push_integer(text: &mut String, value: i64)
    ensures
        final(text)@ == old(text)@ + integer_text(value),
{
    if value < 0 {
        text.append("-");
        let magnitude: u64 = (-(value + 1)) as u64 + 1;
        push_decimal(text, magnitude);
        assert(text@ =~= old(text)@ + integer_text(value));
    } else {
        push_decimal(text, value as u64);
    }
}

impl Expression {
    /// The expression as text.
    pub fn to_string(&self) -> (text: String)
        ensures
            text@ == expression_text(*self),
    {
        let mut text = String::new();
        self.write_to(&mut text);
        assert(text@ =~= expression_text(*self));
        text
    }

    /// Appends the text of the expression to `text`.
    pub fn write_to(&self, text: &mut String)
        ensures
            final(text)@ == old(text)@ + expression_text(*self),
        decreases self,
    {
        match self {
            Expression::Identifier(name) => {
                text.append(name.as_str());
            },
            Expression::IntegerLiteral(value) => {
                push_integer(text, *value);
            },
            Expression::Bool(value) => {
                if *value {
                    text.append("true");
                } else {
                    text.append("false");
                }
            },
            Expression::Prefix(operator, operand) => {
                text.append("(");
                text.append(operator.as_str());
                operand.write_to(text);
                text.append(")");
                assert(text@ =~= old(text)@ + expression_text(*self));
            },
            Expression::Infix(left, operator, right) => {
                text.append("(");
                left.write_to(text);
                text.append(" ");
                text.append(operator.as_str());
                text.append(" ");
                right.write_to(text);
                text.append(")");
                assert(text@ =~= old(text)@ + expression_text(*self));
            },
            Expression::IfExpression { condition, consequence, alternative } => {
                text.append("if ");
                condition.write_to(text);
                text.append(" ");
                consequence.write_to(text);
                match alternative {
                    Some(otherwise) => {
                        text.append(" else ");
                        otherwise.write_to(text);
                    },
                    None => {},
                }
                assert(text@ =~= old(text)@ + expression_text(*self));
            },
        }
    }
}

impl Statement {
    /// The statement as text.
    pub fn to_string(&self) -> (text: String)
        ensures
            text@ == statement_text(*self),
    {
        let mut text = String::new();
        self.write_to(&mut text);
        assert(text@ =~= statement_text(*self));
        text
    }

    /// Appends the text of the statement to `text`.
    pub fn write_to(&self, text: &mut String)
        ensures
            final(text)@ == old(text)@ + statement_text(*self),
        decreases self,
    {
        match self {
            Statement::Let(name, value) => {
                text.append("let ");
                text.append(name.as_str());
                text.append(" = ");
                value.write_to(text);
                text.append(";");
                assert(text@ =~= old(text)@ + statement_text(*self));
            },
            Statement::Expr(e) => {
                e.write_to(text);
            },
            Statement::Block(statements) => {
                text.append("{ ");
                let ghost opened = text@;
                let mut i: usize = 0;
                assert(statements@.take(0) =~= Seq::<Statement>::empty());
                assert(text@ =~= opened + statements_text(statements@.take(0)));
                while i < statements.len()
                    invariant
                        i <= statements.len(),
                        opened == old(text)@ + "{ "@,
                        text@ == opened + statements_text(statements@.take(i as int)),
                        *self == Statement::Block(*statements),
                    decreases statements.len() - i,
                {
                    proof {
                        assert(statements@.take(i as int + 1).drop_last() =~= statements@.take(
                            i as int,
                        ));
                        assert(decreases_to!(*self => self->Block_0));
                        assert(decreases_to!(*statements => statements@));
                        assert(decreases_to!(statements@ => statements@[i as int]));
                    }
                    statements[i].write_to(text);
                    text.append(" ");
                    assert(text@ =~= opened + statements_text(statements@.take(i as int + 1)));
                    i = i + 1;
                }
                assert(statements@.take(i as int) =~= statements@);
                text.append("}");
                assert(text@ =~= old(text)@ + statement_text(*self));
            },
        }
    }
}

} // verus!
