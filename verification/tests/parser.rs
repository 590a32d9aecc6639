use lox_rust::ast::Expression;
use lox_rust::interpreter::{parse, Error, Interpreter};
use lox_rust::scanner::{keyword, scan};
use lox_rust::token::Token;
use lox_rust::tokentype::TokenType;

fn parse_source(source: &str) -> Result<Expression, Vec<Error>> {
    parse(scan(source))
}

fn rendered(source: &str) -> String {
    let tree = parse_source(source).unwrap();
    assert!(tree.is_printable());
    tree.to_text()
}

fn errors(source: &str) -> Vec<Error> {
    parse_source(source).unwrap_err()
}

fn unexpected(error: &Error) -> TokenType {
    match error {
        Error::UnexpectedToken(token) => token.kind,
        Error::MissingToken(_) => panic!("a missing token where an unexpected one was due"),
    }
}

#[test]
fn factor_binds_tighter_than_term() {
    assert_eq!(rendered("1 + 2 * 3"), "(+ 1 (* 2 3))");
    assert_eq!(rendered("1 * 2 + 3"), "(+ (* 1 2) 3)");
}

#[test]
fn binary_operators_associate_to_the_left() {
    assert_eq!(rendered("1 - 2 - 3"), "(- (- 1 2) 3)");
    assert_eq!(rendered("8 / 4 / 2"), "(/ (/ 8 4) 2)");
    assert_eq!(rendered("1 == 2 != 3"), "(!= (== 1 2) 3)");
}

#[test]
fn group_is_kept_in_the_tree() {
    assert_eq!(rendered("(1 + 2) * 3"), "(* (group (+ 1 2)) 3)");
}

#[test]
fn all_levels_nest_by_precedence() {
    assert_eq!(
        rendered("1 == 2 < 3 + 4 * -5"),
        "(== 1 (< 2 (+ 3 (* 4 (-, 5)))))"
    );
    assert_eq!(
        rendered("1 * 2 + 3 >= 4 != 5"),
        "(!= (>= (+ (* 1 2) 3) 4) 5)"
    );
}

#[test]
fn unary_operators_nest_to_the_right() {
    assert_eq!(rendered("--1"), "(-, (-, 1))");
    assert_eq!(rendered("!-\"s\""), "(!, (-, s))");
}

#[test]
fn keyword_literals_become_literal_nodes() {
    for (source, kind) in [
        ("true", TokenType::True),
        ("false", TokenType::False),
        ("nil", TokenType::Nil),
    ] {
        match parse_source(source).unwrap() {
            Expression::Literal { value } => {
                assert_eq!(value.kind, kind);
                assert_eq!(value.lexeme, source);
            }
            other => panic!("not a literal: {:?}", other),
        }
    }
}

#[test]
fn missing_closing_paren() {
    let found = errors("(1 + 2");
    assert_eq!(found.len(), 1);
    assert!(matches!(
        found[0],
        Error::MissingToken(TokenType::RightParen)
    ));
}

#[test]
fn two_malformed_expressions_give_two_errors() {
    let found = errors("+ 1; * 2");
    assert_eq!(found.len(), 2);
    assert_eq!(unexpected(&found[0]), TokenType::Plus);
    assert_eq!(unexpected(&found[1]), TokenType::Star);

    let found = errors("(1 + ; 2 * )");
    assert!(found.len() >= 2);
    assert_eq!(unexpected(&found[0]), TokenType::Semicolon);
    assert_eq!(unexpected(&found[1]), TokenType::RightParen);
}

#[test]
fn recovery_stops_before_a_statement_keyword() {
    let found = errors(") 1 2 print )");
    assert_eq!(found.len(), 2);
    assert_eq!(unexpected(&found[0]), TokenType::RightParen);
    assert_eq!(unexpected(&found[1]), TokenType::Print);
}

#[test]
fn well_formed_continuation_adds_no_error() {
    let found = errors("; 1; 2; 3; 4; 5");
    assert_eq!(found.len(), 1);
    assert_eq!(unexpected(&found[0]), TokenType::Semicolon);
}

#[test]
fn error_on_the_right_at_every_level_ends_the_parse() {
    let found = errors("1 == 2 < 3 + 4 * ; +");
    assert_eq!(found.len(), 1);
    assert_eq!(unexpected(&found[0]), TokenType::Semicolon);
}

#[test]
fn empty_input_is_one_unexpected_end() {
    let found = errors("");
    assert_eq!(found.len(), 1);
    assert_eq!(unexpected(&found[0]), TokenType::Eof);
}

#[test]
fn operator_without_right_operand() {
    let found = errors("1 +");
    assert_eq!(found.len(), 1);
    assert_eq!(unexpected(&found[0]), TokenType::Eof);
}

#[test]
fn unexpected_token_is_reported_as_it_stands() {
    let found = errors("  \n  var");
    match &found[0] {
        Error::UnexpectedToken(token) => {
            assert_eq!(token.kind, TokenType::Var);
            assert_eq!(token.lexeme, "var");
            assert_eq!(token.line, 2);
        }
        Error::MissingToken(_) => panic!("a missing token where an unexpected one was due"),
    }
}

#[test]
fn parse_reads_one_expression_and_leaves_the_rest() {
    assert_eq!(rendered("1 2"), "1");
    assert_eq!(rendered("1 + 2 ) 3"), "(+ 1 2)");
}

#[test]
fn parser_can_go_on_behind_an_expression() {
    let mut parser = Interpreter::new(scan("1 + 2 3 * 4"));
    assert_eq!(parser.parse().unwrap().to_text(), "(+ 1 2)");
    assert_eq!(parser.parse().unwrap().to_text(), "(* 3 4)");
    assert!(parser.parse().is_err());
}

#[test]
fn parser_takes_tokens_made_by_hand() {
    let tokens = vec![
        Token::new(TokenType::Nil, "nil".to_string(), None, 1),
        Token::new(TokenType::Eof, "".to_string(), None, 1),
    ];
    assert!(matches!(
        parse(tokens),
        Ok(Expression::Literal { value }) if value.kind == TokenType::Nil
    ));
}

#[test]
fn keyword_table_has_its_sixteen_entries() {
    let table = [
        ("and", TokenType::And),
        ("class", TokenType::Class),
        ("else", TokenType::Else),
        ("false", TokenType::False),
        ("fun", TokenType::Fun),
        ("for", TokenType::For),
        ("if", TokenType::If),
        ("nil", TokenType::Nil),
        ("or", TokenType::Or),
        ("print", TokenType::Print),
        ("return", TokenType::Return),
        ("super", TokenType::Super),
        ("this", TokenType::This),
        ("true", TokenType::True),
        ("var", TokenType::Var),
        ("while", TokenType::While),
    ];
    for (word, kind) in table {
        assert_eq!(keyword(word), Some(kind));
    }
    assert_eq!(keyword("classic"), None);
    assert_eq!(keyword("An"), None);
    assert_eq!(keyword(""), None);
}
