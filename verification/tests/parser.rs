use monkey_compiler::ast::{Expression, Program, Statement};
use monkey_compiler::err::ParserError;
use monkey_compiler::lexer::Lexer;
use monkey_compiler::parser::{parse_integer, token_precedence, Parser, Precedence};
use monkey_compiler::token::TokenType;

fn parse_program(input: &str) -> Result<Program, ParserError> {
    let mut lex = Lexer::new(&input);
    let mut par = Parser::new(&mut lex);
    par.parse_program()
}

#[test]
fn test_parser_errors() {
    let input = "let x;";
    let parsed = parse_program(&input).unwrap_err();
    match parsed {
        ParserError::AssignmentExpected(_) => assert!(true),
        _ => assert!(false),
    }
    let input = "let =";
    let parsed = parse_program(&input).unwrap_err();
    match parsed {
        ParserError::IdentifierExpected => assert!(true),
        _ => assert!(false),
    }
}

#[test]
fn test_precedence() {
    assert!(Precedence::Lowest < Precedence::Equals);
    assert!(Precedence::Prefix == Precedence::Prefix)
}

#[test]
fn test_identifier_expression() {
    let input = "foobar;";
    let parsed = parse_program(&input);
    assert_eq!(
        Statement::Expr(Expression::Identifier("foobar".to_string())),
        parsed.unwrap().statements[0]
    );
}

#[test]
fn test_integer_literal_expression() {
    let input = "5;";
    let parsed = parse_program(&input);
    assert_eq!(
        Statement::Expr(Expression::IntegerLiteral(5 as i64)),
        parsed.unwrap().statements[0]
    );
}

#[test]
fn test_prefix_expression() {
    let input = "-5;";
    let parsed = parse_program(&input);
    assert_eq!(
        Statement::Expr(Expression::Prefix(
            "-".to_string(),
            Box::new(Expression::IntegerLiteral(5 as i64))
        )),
        parsed.unwrap().statements[0]
    );
}

fn test_operator_precedence_parsing(inputs: &[&str], outputs: &[&str]) {
    for (input, output) in inputs.iter().zip(outputs) {
        let parsed = parse_program(input).unwrap();
        assert_eq!(parsed.statements[0].to_string(), *output)
    }
}

#[test]
fn test_infix_expression() {
    let input = "-5 == 10;";
    let parsed = parse_program(&input).unwrap();
    let stmt = Statement::Expr(Expression::Infix(
        Box::new(Expression::Prefix(
            "-".to_string(),
            Box::new(Expression::IntegerLiteral(5 as i64)),
        )),
        "==".to_string(),
        Box::new(Expression::IntegerLiteral(10 as i64)),
    ));
    assert_eq!(stmt, parsed.statements[0]);

    let inputs = [
        "a + b * c + d / e - f",
        "a != 10;",
        "c > 6;",
        "3 + 4 * 5 == 3 * 1 + 4 * 5",
    ];
    let outputs = [
        "(((a + (b * c)) + (d / e)) - f)",
        "(a != 10)",
        "(c > 6)",
        "((3 + (4 * 5)) == ((3 * 1) + (4 * 5)))",
    ];
    test_operator_precedence_parsing(&inputs, &outputs)
}

#[test]
fn test_bool_expression() {
    let inputs = ["true", "false", "3 > 5 == false"];
    let outputs = ["true", "false", "((3 > 5) == false)"];
    test_operator_precedence_parsing(&inputs, &outputs)
}

#[test]
fn test_grouped_expression() {
    let inputs = ["1 + (2 + 3) + 4"];
    let outputs = ["((1 + (2 + 3)) + 4)"];
    test_operator_precedence_parsing(&inputs, &outputs)
}

#[test]
fn errors_hold_the_token_that_stood_in_the_way() {
    assert_eq!(
        Err(ParserError::AssignmentExpected(TokenType::Semicolon)),
        parse_program("let x;")
    );
    assert_eq!(
        Err(ParserError::AssignmentExpected(TokenType::EOF)),
        parse_program("let x")
    );
    assert_eq!(Err(ParserError::IdentifierExpected), parse_program("let 5 = 5;"));
    assert_eq!(
        Err(ParserError::ParenthesisExpected(TokenType::EOF)),
        parse_program("(1 + 2")
    );
    assert_eq!(
        Err(ParserError::ParenthesisExpected(TokenType::Semicolon)),
        parse_program("(1 + 2;")
    );
    assert_eq!(
        Err(ParserError::NoPrefixParse(TokenType::Asterix)),
        parse_program("* 2")
    );
    assert_eq!(
        Err(ParserError::NoPrefixParse(TokenType::EOF)),
        parse_program("1 +")
    );
    assert_eq!(
        Err(ParserError::NoPrefixParse(TokenType::Illegal)),
        parse_program("1; @")
    );
    assert_eq!(
        Err(ParserError::NoPrefixParse(TokenType::If)),
        parse_program("if (true) { 1 }")
    );
}

#[test]
fn integers_are_read_up_to_the_largest() {
    assert_eq!(Ok(0), parse_integer("0"));
    assert_eq!(Ok(7), parse_integer("007"));
    assert_eq!(Ok(9223372036854775807), parse_integer("9223372036854775807"));
    assert_eq!(
        Err(ParserError::InvalidInteger),
        parse_integer("9223372036854775808")
    );
    assert_eq!(
        Err(ParserError::InvalidInteger),
        parse_integer("99999999999999999999999")
    );
    assert_eq!(Err(ParserError::InvalidInteger), parse_integer(""));
    assert_eq!(Err(ParserError::InvalidInteger), parse_integer("12a"));
    assert_eq!(Err(ParserError::InvalidInteger), parse_integer("-1"));
    assert_eq!(Err(ParserError::InvalidInteger), parse_integer("1\u{e9}"));
    assert_eq!(
        Err(ParserError::InvalidInteger),
        parse_program("9223372036854775808;")
    );
}

#[test]
fn an_empty_input_is_an_empty_program() {
    assert_eq!(0, parse_program("").unwrap().statements.len());
    assert_eq!(0, parse_program("  \n ").unwrap().statements.len());
}

#[test]
fn statements_follow_each_other() {
    let program = parse_program("let x = 1 + 2; x; !true").unwrap();
    assert_eq!(3, program.statements.len());
    assert_eq!(
        Statement::Let(
            "x".to_string(),
            Expression::Infix(
                Box::new(Expression::IntegerLiteral(1)),
                "+".to_string(),
                Box::new(Expression::IntegerLiteral(2))
            )
        ),
        program.statements[0]
    );
    assert_eq!("let x = (1 + 2);", program.statements[0].to_string());
    assert_eq!("x", program.statements[1].to_string());
    assert_eq!("(!true)", program.statements[2].to_string());
}

#[test]
fn operators_bind_by_precedence() {
    let inputs = [
        "-a * b",
        "!-a",
        "a + b - c",
        "a * b / c",
        "5 > 4 == 3 < 4",
        "5 < 4 != 3 > 4",
        "-(5 + 5)",
        "!(true == true)",
        "(5 + 5) * 2",
        "2 / (5 + 5)",
    ];
    let outputs = [
        "((-a) * b)",
        "(!(-a))",
        "((a + b) - c)",
        "((a * b) / c)",
        "((5 > 4) == (3 < 4))",
        "((5 < 4) != (3 > 4))",
        "(-(5 + 5))",
        "(!(true == true))",
        "((5 + 5) * 2)",
        "(2 / (5 + 5))",
    ];
    test_operator_precedence_parsing(&inputs, &outputs)
}

#[test]
fn precedences_are_ordered_and_given_to_operators() {
    let order = [
        Precedence::Lowest,
        Precedence::Equals,
        Precedence::LessGreater,
        Precedence::Sum,
        Precedence::Product,
        Precedence::Prefix,
        Precedence::Call,
    ];
    for (i, p) in order.iter().enumerate() {
        assert_eq!(i as u8, p.level());
    }
    assert_eq!(Precedence::Equals, token_precedence(TokenType::NotEq));
    assert_eq!(Precedence::LessGreater, token_precedence(TokenType::LT));
    assert_eq!(Precedence::Sum, token_precedence(TokenType::Minus));
    assert_eq!(Precedence::Product, token_precedence(TokenType::Slash));
    assert_eq!(Precedence::Lowest, token_precedence(TokenType::LParen));
}

#[test]
fn texts_of_blocks_conditionals_and_negative_numbers() {
    let block = Statement::Block(vec![
        Statement::Expr(Expression::IntegerLiteral(-10)),
        Statement::Expr(Expression::IntegerLiteral(i64::MIN)),
    ]);
    assert_eq!("{ -10 -9223372036854775808 }", block.to_string());
    let conditional = Expression::IfExpression {
        condition: Box::new(Expression::Bool(true)),
        consequence: Box::new(Statement::Block(vec![Statement::Expr(
            Expression::IntegerLiteral(10),
        )])),
        alternative: Some(Box::new(Statement::Block(vec![]))),
    };
    assert_eq!("if true { 10 } else { }", conditional.to_string());
}
