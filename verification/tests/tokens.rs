use lox_rs_ast::tokens::{Token, TokenType, TypeError};

fn number(value: f64) -> TokenType {
    TokenType::Number(value.to_bits())
}

fn all_plain() -> Vec<(TokenType, &'static str)> {
    vec![
        (TokenType::LeftParen, "("),
        (TokenType::RightParen, ")"),
        (TokenType::LeftBrace, "{"),
        (TokenType::RightBrace, "}"),
        (TokenType::Comma, ","),
        (TokenType::Dot, "."),
        (TokenType::Minus, "-"),
        (TokenType::Plus, "+"),
        (TokenType::Semicolon, ";"),
        (TokenType::Slash, "/"),
        (TokenType::Star, "*"),
        (TokenType::Bang, "!"),
        (TokenType::BangEqual, "!="),
        (TokenType::Equal, "="),
        (TokenType::EqualEqual, "=="),
        (TokenType::Greater, ">"),
        (TokenType::GreaterEqual, ">="),
        (TokenType::Less, "<"),
        (TokenType::LessEqual, "<="),
        (TokenType::And, "and"),
        (TokenType::Class, "class"),
        (TokenType::Else, "else"),
        (TokenType::False, "false"),
        (TokenType::Fun, "fun"),
        (TokenType::For, "for"),
        (TokenType::If, "if"),
        (TokenType::Nil, "nil"),
        (TokenType::Or, "or"),
        (TokenType::Print, "print"),
        (TokenType::Return, "return"),
        (TokenType::Super, "super"),
        (TokenType::This, "this"),
        (TokenType::True, "true"),
        (TokenType::Var, "var"),
        (TokenType::While, "while"),
        (TokenType::Eof, "EOF"),
    ]
}

#[test]
fn the_text_of_each_kind() {
    for (kind, text) in all_plain() {
        assert_eq!(kind.lexeme(), Some(text.to_string()));
    }
    assert_eq!(TokenType::Identifier("abc".into()).lexeme(), Some("abc".to_string()));
    assert_eq!(TokenType::String("a b".into()).lexeme(), Some("a b".to_string()));
    assert_eq!(number(1.0).lexeme(), None);
}

#[test]
fn the_text_of_a_token() {
    assert_eq!(Token::new(TokenType::Plus, 3).lexeme(), Some("[+]".to_string()));
    assert_eq!(Token::new(TokenType::Identifier("x".into()), 1).lexeme(), Some("[x]".to_string()));
    assert_eq!(Token::new(number(1.0), 1).lexeme(), None);
}

#[test]
fn a_copy_is_equal() {
    for (kind, _) in all_plain() {
        assert_eq!(kind.clone(), kind);
    }
    let token = Token::new(TokenType::String("s".into()), 9);
    assert_eq!(token.clone(), token);
    assert_eq!(number(2.5).clone(), number(2.5));
}

#[test]
fn kinds_of_the_same_variant() {
    assert!(TokenType::Identifier("a".into()).same_kind(&TokenType::Identifier("b".into())));
    assert!(TokenType::String("a".into()).same_kind(&TokenType::String(String::new())));
    assert!(number(1.0).same_kind(&number(2.0)));
    assert!(!number(1.0).same_kind(&TokenType::String("1".into())));
    assert!(!TokenType::Identifier("a".into()).same_kind(&TokenType::String("a".into())));
    for (i, (a, _)) in all_plain().into_iter().enumerate() {
        for (j, (b, _)) in all_plain().into_iter().enumerate() {
            assert_eq!(a.same_kind(&b), i == j);
        }
    }
}

#[test]
fn truthiness() {
    assert!(!TokenType::Nil.is_truthy());
    assert!(!TokenType::False.is_truthy());
    assert!(TokenType::True.is_truthy());
    assert!(number(0.0).is_truthy());
    assert!(TokenType::String(String::new()).is_truthy());
    assert!(TokenType::Plus.is_truthy());
}

#[test]
fn booleans() {
    assert_eq!(TokenType::from_bool(true), TokenType::True);
    assert_eq!(TokenType::from_bool(false), TokenType::False);
}

#[test]
fn conversion_to_a_number() {
    assert_eq!(number(2.5).to_number().unwrap(), 2.5f64.to_bits());
    assert_eq!(TokenType::True.to_number().unwrap(), 1.0f64.to_bits());
    assert_eq!(TokenType::False.to_number().unwrap(), 0.0f64.to_bits());
    match TokenType::Nil.to_number() {
        Err(TypeError::InvalidConvertion(from, to)) => {
            assert_eq!(from, "nil");
            assert_eq!(to, "f64");
        }
        Ok(_) => panic!("nil is no number"),
    }
    match TokenType::String("12".into()).to_number() {
        Err(TypeError::InvalidConvertion(from, to)) => {
            assert_eq!(from, "12");
            assert_eq!(to, "f64");
        }
        Ok(_) => panic!("a string is no number"),
    }
}

#[test]
fn equality_of_values() {
    assert!(number(1.0).equals(&number(1.0)));
    assert!(number(0.0).equals(&number(-0.0)));
    assert!(!number(f64::NAN).equals(&number(f64::NAN)));
    assert!(!number(1.0).equals(&number(2.0)));
    assert!(TokenType::String("a".into()).equals(&TokenType::String("a".into())));
    assert!(!TokenType::String("a".into()).equals(&TokenType::String("b".into())));
    assert!(!TokenType::String("1".into()).equals(&number(1.0)));
    assert!(TokenType::Nil.equals(&TokenType::Nil));
    assert!(!TokenType::Nil.equals(&TokenType::False));
    assert!(TokenType::True.equals(&TokenType::True));
    assert!(!TokenType::True.equals(&TokenType::False));
}
