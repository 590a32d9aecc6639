use lox_rust::scanner::{scan, Scanner};
use lox_rust::tokentype::{Literal, TokenType};

fn number_value(literal: &Literal) -> f64 {
    match literal {
        Literal::Number(text) => text.parse::<f64>().unwrap(),
        _ => panic!("not a number"),
    }
}

#[test]
fn scanner_larger_test() {
    let source = "(()){}!*+-/=<><==={{}}\"a string is here\"randomidentifier 123.123";
    let mut scanner = Scanner::new(source);
    scanner.scan_tokens();

    let expected = vec![
        TokenType::LeftParen,
        TokenType::LeftParen,
        TokenType::RightParen,
        TokenType::RightParen,
        TokenType::LeftBrace,
        TokenType::RightBrace,
        TokenType::Bang,
        TokenType::Star,
        TokenType::Plus,
        TokenType::Minus,
        TokenType::Slash,
        TokenType::Equal,
        TokenType::Less,
        TokenType::Greater,
        TokenType::LessEqual,
        TokenType::EqualEqual,
        TokenType::LeftBrace,
        TokenType::LeftBrace,
        TokenType::RightBrace,
        TokenType::RightBrace,
        TokenType::String,
        TokenType::Identifier,
        TokenType::Number,
        TokenType::Eof,
    ];

    assert_eq!(scanner.tokens().len(), expected.len());
    for (i, token) in scanner.tokens().iter().enumerate() {
        if token.kind == TokenType::String {
            assert!(token
                .clone()
                .literal
                .unwrap()
                .eq(&Literal::String("a string is here".to_string())));
        }
        if token.kind == TokenType::Number {
            assert_eq!(number_value(&token.clone().literal.unwrap()), 123.123)
        }
        assert_eq!(
            token.clone().kind,
            expected[i],
            "Did not find expected {:?}; {:?} was found",
            expected[i],
            token.kind
        );
    }
}

#[test]
fn scanner_test() {
    let source = "//this is a comment\n(()){}//grouping stuff\n!*+-/=<><===// operators\n{{}}\"a string is here\"";
    let mut scanner = Scanner::new(source);
    scanner.scan_tokens();

    let expected = vec![
        TokenType::LeftParen,
        TokenType::LeftParen,
        TokenType::RightParen,
        TokenType::RightParen,
        TokenType::LeftBrace,
        TokenType::RightBrace,
        TokenType::Bang,
        TokenType::Star,
        TokenType::Plus,
        TokenType::Minus,
        TokenType::Slash,
        TokenType::Equal,
        TokenType::Less,
        TokenType::Greater,
        TokenType::LessEqual,
        TokenType::EqualEqual,
        TokenType::LeftBrace,
        TokenType::LeftBrace,
        TokenType::RightBrace,
        TokenType::RightBrace,
        TokenType::String,
        TokenType::Eof,
    ];

    assert_eq!(scanner.tokens().len(), expected.len());
    for (i, token) in scanner.tokens().iter().enumerate() {
        if token.kind == TokenType::String {
            assert!(token
                .clone()
                .literal
                .unwrap()
                .eq(&Literal::String("a string is here".to_string())));
        }
        assert_eq!(
            token.clone().kind,
            expected[i],
            "Did not find expected {:?}; {:?} was found",
            expected[i],
            token.kind
        );
    }
}

#[test]
fn scanner_scans_keywords() {
    let source = "and\nclass\nelse\nfalse\nfun\nfor\nif\nnil\nor\nprint\nreturn\nsuper\nthis\ntrue\nvar\nwhile\nrandomidentifier";
    let mut scanner = Scanner::new(source);
    scanner.scan_tokens();

    let expected = vec![
        TokenType::And,
        TokenType::Class,
        TokenType::Else,
        TokenType::False,
        TokenType::Fun,
        TokenType::For,
        TokenType::If,
        TokenType::Nil,
        TokenType::Or,
        TokenType::Print,
        TokenType::Return,
        TokenType::Super,
        TokenType::This,
        TokenType::True,
        TokenType::Var,
        TokenType::While,
        TokenType::Identifier,
        TokenType::Eof,
    ];

    for (i, token) in scanner.tokens().iter().enumerate() {
        assert_eq!(token.kind, expected[i]);
        if token.kind == TokenType::Identifier {
            assert_eq!(token.lexeme, "randomidentifier".to_string())
        }
    }
}

#[test]
fn scanner_scans_strings() {
    let source = "\"blablathisisastring\"";
    let mut scanner = Scanner::new(source);
    scanner.scan_tokens();

    let expected = vec![TokenType::String, TokenType::Eof];

    for (i, token) in scanner.tokens().iter().enumerate() {
        if token.kind == TokenType::String {
            assert!(token
                .clone()
                .literal
                .unwrap()
                .eq(&Literal::String("blablathisisastring".to_string())));
        }
        assert_eq!(
            token.clone().kind,
            expected[i],
            "Did not find expected {:?}; {:?} was found with lexeme {}",
            expected[i],
            token.kind,
            token.lexeme
        );
    }
}

#[test]
fn scanner_scans_numbers() {
    let source = "123.123";
    let scanner = Scanner::new(source);

    let expected = vec![TokenType::Number, TokenType::Eof];
    for (i, token) in scanner.tokens().iter().enumerate() {
        if token.kind == TokenType::Number {
            assert_eq!(number_value(&token.clone().literal.unwrap()), 123.123)
        }
        assert_eq!(
            token.clone().kind,
            expected[i],
            "Did not find expected {:?}; {:?} was found with lexeme {}",
            expected[i],
            token.kind,
            token.lexeme
        );
    }
}

#[test]
fn peek_works() {
    let source = "/a|bcvd";
    let mut scanner = Scanner::new(source);
    for (i, _) in source.chars().enumerate() {
        assert_eq!(source.chars().nth(i).unwrap_or('\0'), scanner.peek());
        scanner.advance();
    }
}

#[test]
fn peek_next_works() {
    let source = "/a|bcvd";
    let mut scanner = Scanner::new(source);
    for (i, _) in source.chars().enumerate() {
        assert_eq!(
            source.chars().nth(i + 1).unwrap_or('\0'),
            scanner.peek_next()
        );
        scanner.advance();
    }
}

fn kinds(source: &str) -> Vec<TokenType> {
    scan(source).iter().map(|t| t.kind).collect()
}

#[test]
fn number_token_holds_the_scanned_number() {
    let tokens = scan("123.123");
    assert_eq!(tokens.len(), 2);
    assert_eq!(tokens[0].kind, TokenType::Number);
    assert_eq!(tokens[0].lexeme, "123.123");
    assert_eq!(number_value(tokens[0].literal.as_ref().unwrap()), 123.123);
    assert_eq!(tokens[1].kind, TokenType::Eof);
}

#[test]
fn number_round_trip() {
    let tokens = scan("123.456");
    assert_eq!(kinds("123.456"), vec![TokenType::Number, TokenType::Eof]);
    assert_eq!(number_value(tokens[0].literal.as_ref().unwrap()), 123.456);
}

#[test]
fn string_round_trip() {
    let tokens = scan("\"abc\"");
    assert_eq!(kinds("\"abc\""), vec![TokenType::String, TokenType::Eof]);
    assert_eq!(tokens[0].lexeme, "\"abc\"");
    assert_eq!(tokens[0].literal, Some(Literal::String("abc".to_string())));
}

#[test]
fn two_character_operators_are_one_token() {
    assert_eq!(kinds("<="), vec![TokenType::LessEqual, TokenType::Eof]);
    assert_eq!(kinds("=="), vec![TokenType::EqualEqual, TokenType::Eof]);
    assert_eq!(kinds("!="), vec![TokenType::BangEqual, TokenType::Eof]);
    assert_eq!(kinds(">="), vec![TokenType::GreaterEqual, TokenType::Eof]);
    assert_eq!(scan("<=")[0].lexeme, "<=");
}

#[test]
fn one_character_operators_before_something_else() {
    assert_eq!(kinds("<"), vec![TokenType::Less, TokenType::Eof]);
    assert_eq!(
        kinds("! ="),
        vec![TokenType::Bang, TokenType::Equal, TokenType::Eof]
    );
    assert_eq!(
        kinds("=<"),
        vec![TokenType::Equal, TokenType::Less, TokenType::Eof]
    );
    assert_eq!(
        kinds("==="),
        vec![TokenType::EqualEqual, TokenType::Equal, TokenType::Eof]
    );
}

#[test]
fn keyword_needs_the_whole_word() {
    let tokens = scan("classic");
    assert_eq!(tokens.len(), 2);
    assert_eq!(tokens[0].kind, TokenType::Identifier);
    assert_eq!(tokens[0].lexeme, "classic");
    assert_eq!(
        tokens[0].literal,
        Some(Literal::Identifier("classic".to_string()))
    );
    let tokens = scan("class");
    assert_eq!(tokens[0].kind, TokenType::Class);
    assert_eq!(tokens[0].literal, None);
}

#[test]
fn unterminated_string_is_an_error() {
    let tokens = scan("\"abc");
    assert_eq!(kinds("\"abc"), vec![TokenType::Error, TokenType::Eof]);
    assert_eq!(tokens[0].lexeme, "unterminated string");
    assert_eq!(tokens[0].literal, None);
}

#[test]
fn unexpected_character_is_an_error_and_scanning_goes_on() {
    let tokens = scan("1 @ 2");
    assert_eq!(
        kinds("1 @ 2"),
        vec![
            TokenType::Number,
            TokenType::Error,
            TokenType::Number,
            TokenType::Eof
        ]
    );
    assert_eq!(tokens[1].lexeme, "unexpected character '@' ");
}

#[test]
fn letters_beyond_ascii_start_no_identifier() {
    assert_eq!(
        kinds("\u{e9}t\u{e9}"),
        vec![
            TokenType::Error,
            TokenType::Identifier,
            TokenType::Error,
            TokenType::Eof
        ]
    );
    assert_eq!(scan("\u{e9}")[0].lexeme, "unexpected character '\u{e9}' ");
}

#[test]
fn underscore_and_digits_end_an_identifier() {
    assert_eq!(
        kinds("ab1"),
        vec![TokenType::Identifier, TokenType::Number, TokenType::Eof]
    );
    assert_eq!(
        kinds("a_b"),
        vec![
            TokenType::Identifier,
            TokenType::Error,
            TokenType::Identifier,
            TokenType::Eof
        ]
    );
}

#[test]
fn empty_text_is_one_end_token() {
    let tokens = scan("");
    assert_eq!(tokens.len(), 1);
    assert_eq!(tokens[0].kind, TokenType::Eof);
    assert_eq!(tokens[0].lexeme, "");
    assert_eq!(tokens[0].line, 1);
}

#[test]
fn every_scan_ends_in_its_only_end_token() {
    for source in ["", "   ", "1 + 2", "\"open", "// only a comment", "a\nb\n", "@#"] {
        let tokens = scan(source);
        let ends = tokens.iter().filter(|t| t.kind == TokenType::Eof).count();
        assert_eq!(ends, 1);
        assert_eq!(tokens.last().unwrap().kind, TokenType::Eof);
        assert!(tokens.iter().all(|t| t.line >= 1));
    }
}

#[test]
fn payload_goes_with_the_kind() {
    let tokens = scan("var x = \"s\" + 1.5; // done\nprint x");
    for token in tokens.iter() {
        let literal_kind = matches!(
            token.kind,
            TokenType::String | TokenType::Number | TokenType::Identifier
        );
        assert_eq!(token.literal.is_some(), literal_kind);
    }
}

#[test]
fn nul_ends_the_scan() {
    assert_eq!(kinds("a\0b"), vec![TokenType::Identifier, TokenType::Eof]);
}

#[test]
fn lines_are_counted_at_the_start_of_a_token() {
    let tokens = scan("a\n\nb // c\n\"two\nlines\" d");
    let lines: Vec<usize> = tokens.iter().map(|t| t.line).collect();
    assert_eq!(
        kinds("a\n\nb // c\n\"two\nlines\" d"),
        vec![
            TokenType::Identifier,
            TokenType::Identifier,
            TokenType::String,
            TokenType::Identifier,
            TokenType::Eof
        ]
    );
    assert_eq!(lines, vec![1, 3, 4, 5, 5]);
    assert_eq!(
        tokens[2].literal,
        Some(Literal::String("two\nlines".to_string()))
    );
}

#[test]
fn trailing_dot_is_not_part_of_a_number() {
    let tokens = scan("12.");
    assert_eq!(
        kinds("12."),
        vec![TokenType::Number, TokenType::Dot, TokenType::Eof]
    );
    assert_eq!(tokens[0].lexeme, "12");
    assert_eq!(
        kinds("1.2.3"),
        vec![
            TokenType::Number,
            TokenType::Dot,
            TokenType::Number,
            TokenType::Eof
        ]
    );
    assert_eq!(
        kinds(".5"),
        vec![TokenType::Dot, TokenType::Number, TokenType::Eof]
    );
}

#[test]
fn slash_alone_is_a_token_and_two_start_a_comment() {
    assert_eq!(
        kinds("1 / 2"),
        vec![
            TokenType::Number,
            TokenType::Slash,
            TokenType::Number,
            TokenType::Eof
        ]
    );
    assert_eq!(kinds("1 // 2"), vec![TokenType::Number, TokenType::Eof]);
    assert_eq!(
        kinds("/ /"),
        vec![TokenType::Slash, TokenType::Slash, TokenType::Eof]
    );
}

#[test]
fn scanning_twice_appends() {
    let mut scanner = Scanner::new("a b");
    let first = scanner.scan_token();
    assert_eq!(first.kind, TokenType::Identifier);
    assert_eq!(first.lexeme, "a");
    assert!(scanner.tokens().is_empty());
    scanner.scan_tokens();
    assert_eq!(scanner.tokens().len(), 2);
    assert_eq!(scanner.tokens()[0].lexeme, "b");
    assert!(scanner.is_at_end());
}
