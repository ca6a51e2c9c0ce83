use monkey_compiler::lexer::{is_digit, is_letter, is_whitespace, new_token, Lexer};
use monkey_compiler::token::{lookup_keyword, Token, TokenType};

fn tokens_of(input: &str) -> Vec<(TokenType, String)> {
    let mut lex = Lexer::new(input);
    let mut found = vec![];
    loop {
        let t = lex.next_token();
        let done = t.type_ == TokenType::EOF;
        found.push((t.type_, t.literal));
        if done {
            return found;
        }
    }
}

#[test]
fn test() {
    let input = "
        let five = 5;
        add = fn(x) {
        };
        !-/*<  >,
        ";

    let valid = [
        (TokenType::Let, "let"),
        (TokenType::Identifier, "five"),
        (TokenType::Assign, "="),
        (TokenType::Int, "5"),
        (TokenType::Semicolon, ";"),
        (TokenType::Identifier, "add"),
        (TokenType::Assign, "="),
        (TokenType::Function, "fn"),
        (TokenType::LParen, "("),
        (TokenType::Identifier, "x"),
        (TokenType::RParen, ")"),
        (TokenType::LBrace, "{"),
        (TokenType::RBrace, "}"),
        (TokenType::Semicolon, ";"),
        (TokenType::Bang, "!"),
        (TokenType::Minus, "-"),
        (TokenType::Slash, "/"),
        (TokenType::Asterix, "*"),
        (TokenType::LT, "<"),
        (TokenType::GT, ">"),
        (TokenType::Comma, ","),
        (TokenType::EOF, ""),
    ];

    let mut lex = Lexer::new(input);
    for (type_, literal) in valid.iter() {
        let t = Token {
            type_: *type_,
            literal: literal.to_string(),
        };
        assert_eq!(t, lex.next_token())
    }
}

#[test]
fn an_empty_input_is_the_end_of_the_file() {
    let mut lex = Lexer::new("");
    for _ in 0..3 {
        let t = lex.next_token();
        assert_eq!(TokenType::EOF, t.type_);
        assert_eq!("", t.literal);
    }
    assert_eq!(vec![(TokenType::EOF, String::new())], tokens_of(" \t\r\n"));
}

#[test]
fn equality_operators_are_one_token() {
    let found = tokens_of("a == b != c = !d");
    let kinds: Vec<TokenType> = found.iter().map(|t| t.0).collect();
    assert_eq!(
        vec![TokenType::Identifier, TokenType::Eq, TokenType::Identifier, TokenType::NotEq, TokenType::Identifier, TokenType::Assign, TokenType::Bang, TokenType::Identifier, TokenType::EOF],
        kinds
    );
    assert_eq!("==", found[1].1);
    assert_eq!("!=", found[3].1);
    assert_eq!("=", found[5].1);
    assert_eq!("!", found[6].1);
}

#[test]
fn an_operator_at_the_end_of_the_input_stands_alone() {
    assert_eq!(
        vec![(TokenType::Assign, "=".to_string()), (TokenType::EOF, String::new())],
        tokens_of("=")
    );
    assert_eq!(
        vec![(TokenType::Bang, "!".to_string()), (TokenType::EOF, String::new())],
        tokens_of("!")
    );
}

#[test]
fn keywords_are_told_from_identifiers() {
    let found = tokens_of("fn let true false if else iff lets Let");
    let kinds: Vec<TokenType> = found.iter().map(|t| t.0).collect();
    assert_eq!(
        vec![TokenType::Function, TokenType::Let, TokenType::True, TokenType::False, TokenType::If, TokenType::Else, TokenType::Identifier, TokenType::Identifier, TokenType::Identifier, TokenType::EOF],
        kinds
    );
    assert_eq!(Some(TokenType::Function), lookup_keyword("fn"));
    assert_eq!(Some(TokenType::If), lookup_keyword("if"));
    assert_eq!(None, lookup_keyword("f"));
    assert_eq!(None, lookup_keyword(""));
}

#[test]
fn letters_and_digits_make_separate_tokens() {
    assert_eq!(
        vec![
            (TokenType::Identifier, "abc".to_string()),
            (TokenType::Int, "123".to_string()),
            (TokenType::Identifier, "XyZ".to_string()),
            (TokenType::EOF, String::new())
        ],
        tokens_of("abc123XyZ")
    );
    assert_eq!(
        vec![(TokenType::Int, "0012345678901234567890".to_string()), (TokenType::EOF, String::new())],
        tokens_of("0012345678901234567890")
    );
}

#[test]
fn other_bytes_are_illegal_tokens() {
    assert_eq!(
        vec![
            (TokenType::Illegal, "@".to_string()),
            (TokenType::Illegal, "_".to_string()),
            (TokenType::Illegal, "#".to_string()),
            (TokenType::EOF, String::new())
        ],
        tokens_of("@_ #")
    );
}

#[test]
fn a_zero_byte_reads_as_the_end_of_the_file() {
    let mut lex = Lexer::new("a\0b");
    assert_eq!(TokenType::Identifier, lex.next_token().type_);
    assert_eq!(TokenType::EOF, lex.next_token().type_);
    let t = lex.next_token();
    assert_eq!(TokenType::Identifier, t.type_);
    assert_eq!("b", t.literal);
    assert_eq!(TokenType::EOF, lex.next_token().type_);
}

#[test]
fn byte_classes() {
    for ch in 0..=255u8 {
        let c = ch as char;
        assert_eq!(c.is_ascii_alphabetic(), is_letter(ch));
        assert_eq!(c.is_ascii_digit(), is_digit(ch));
        assert_eq!(c == ' ' || c == '\t' || c == '\r' || c == '\n', is_whitespace(ch));
    }
}

#[test]
fn new_token_holds_the_byte_as_text() {
    let t = new_token(TokenType::Plus, b'+');
    assert_eq!(
        Token {
            type_: TokenType::Plus,
            literal: "+".to_string()
        },
        t
    );
    assert_eq!(t, t.clone());
}
