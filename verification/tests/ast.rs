use lox_rust::ast::{Expression, Visitor};
use lox_rust::token::Token;
use lox_rust::tokentype::{Literal, TokenType};

#[test]
fn test_visitor_string() {
    let test = Expression::Binary {
        left: Box::new(Expression::Binary {
            left: Box::new(Expression::Literal {
                value: Token::new(
                    TokenType::Number,
                    "123".to_string(),
                    Some(Literal::Number("123".to_string())),
                    0,
                ),
            }),
            operator: Token::new(TokenType::Plus, "+".to_string(), None, 0),
            right: Box::new(Expression::Literal {
                value: Token::new(
                    TokenType::Number,
                    "321".to_string(),
                    Some(Literal::Number("321".to_string())),
                    0,
                ),
            }),
        }),
        operator: Token::new(TokenType::Star, "*".to_string(), None, 0),
        right: Box::new(Expression::Grouping {
            expr: Box::new(Expression::Literal {
                value: Token::new(
                    TokenType::Number,
                    "234".to_string(),
                    Some(Literal::Number("234".to_string())),
                    0,
                ),
            }),
        }),
    };

    assert_eq!(test.visit(), "(* (+ 123 321) (group 234))")
}

fn number(text: &str) -> Expression {
    Expression::Literal {
        value: Token::new(
            TokenType::Number,
            text.to_string(),
            Some(Literal::Number(text.to_string())),
            1,
        ),
    }
}

#[test]
fn unary_is_rendered_with_a_comma() {
    let tree = Expression::Unary {
        operator: Token::new(TokenType::Minus, "-".to_string(), None, 1),
        right: Box::new(number("7")),
    };
    assert!(tree.is_printable());
    assert_eq!(tree.to_text(), "(-, 7)");
}

#[test]
fn string_literal_is_rendered_without_quotes() {
    let tree = Expression::Literal {
        value: Token::new(
            TokenType::String,
            "\"hi\"".to_string(),
            Some(Literal::String("hi".to_string())),
            1,
        ),
    };
    assert!(tree.is_printable());
    assert_eq!(tree.to_text(), "hi");
}

#[test]
fn literal_without_payload_is_not_printable() {
    let tree = Expression::Grouping {
        expr: Box::new(Expression::Literal {
            value: Token::new(TokenType::True, "true".to_string(), None, 1),
        }),
    };
    assert!(!tree.is_printable());
}

#[test]
fn other_nodes_are_not_printable() {
    let name = Token::new(
        TokenType::Identifier,
        "x".to_string(),
        Some(Literal::Identifier("x".to_string())),
        1,
    );
    assert!(!Expression::Variable { name: name.clone() }.is_printable());
    assert!(!Expression::Assign {
        name: name.clone(),
        expr: Box::new(number("1"))
    }
    .is_printable());
    assert!(!Expression::Binary {
        left: Box::new(number("1")),
        operator: Token::new(TokenType::Plus, "+".to_string(), None, 1),
        right: Box::new(Expression::Variable { name }),
    }
    .is_printable());
}

#[test]
fn token_kinds_are_rendered_as_their_spelling() {
    assert_eq!(TokenType::LeftParen.to_text(), "(");
    assert_eq!(TokenType::BangEqual.to_text(), "!=");
    assert_eq!(TokenType::LessEqual.to_text(), "<=");
    assert_eq!(TokenType::While.to_text(), "while");
    assert_eq!(TokenType::Identifier.to_text(), "");
    assert_eq!(TokenType::Eof.to_text(), "\0");
    assert_eq!(TokenType::Error.to_text(), "error");
}

#[test]
fn token_is_rendered_as_its_payload_or_its_lexeme() {
    let string = Token::new(
        TokenType::String,
        "\"hi\"".to_string(),
        Some(Literal::String("hi".to_string())),
        3,
    );
    assert_eq!(string.to_text(), "hi");
    let plus = Token::new(TokenType::Plus, "+".to_string(), None, 3);
    assert_eq!(plus.to_text(), "+");
    assert_eq!(Literal::Identifier("abc".to_string()).to_text(), "abc");
}

#[test]
fn clones_are_equal() {
    let token = Token::new(
        TokenType::Number,
        "1.5".to_string(),
        Some(Literal::Number("1.5".to_string())),
        9,
    );
    let copy = token.clone();
    assert_eq!(copy.kind, token.kind);
    assert_eq!(copy.lexeme, token.lexeme);
    assert_eq!(copy.literal, token.literal);
    assert_eq!(copy.line, token.line);
}
