use lox_rs_ast::scanner::{ScanError, Scanner};
use lox_rs_ast::tokens::{keyword, Token, TokenType};

fn scan(source: &str) -> Result<Vec<Token>, ScanError> {
    Scanner::new(source).scan_tokens()
}

fn kinds(source: &str) -> Vec<TokenType> {
    scan(source).unwrap().into_iter().map(|token| token.token_type).collect()
}

fn number(value: f64) -> TokenType {
    TokenType::Number(value.to_bits())
}

fn single(source: &str, expected: TokenType) {
    let tokens = scan(source).unwrap();
    assert_eq!(tokens, vec![Token::new(expected, 1), Token::new(TokenType::Eof, 1)]);
}

#[test]
fn test_left_paren() {
    single("(", TokenType::LeftParen);
}

#[test]
fn test_right_paren() {
    single(")", TokenType::RightParen);
}

#[test]
fn test_left_brace() {
    single("{", TokenType::LeftBrace);
}

#[test]
fn test_right_brace() {
    single("}", TokenType::RightBrace);
}

#[test]
fn test_comma() {
    single(",", TokenType::Comma);
}

#[test]
fn test_dot() {
    single(".", TokenType::Dot);
}

#[test]
fn test_minus() {
    single("-", TokenType::Minus);
}

#[test]
fn test_plus() {
    single("+", TokenType::Plus);
}

#[test]
fn test_semicolon() {
    single(";", TokenType::Semicolon);
}

#[test]
fn test_slash() {
    single("/", TokenType::Slash);
}

#[test]
fn test_star() {
    single("*", TokenType::Star);
}

#[test]
fn test_string() {
    single("\"Hello, world!\"", TokenType::String("Hello, world!".into()));
}

#[test]
fn test_multi() {
    let tokens = scan("1 + 2").unwrap();
    assert_eq!(
        tokens,
        vec![
            Token::new(number(1.0), 1),
            Token::new(TokenType::Plus, 1),
            Token::new(number(2.0), 1),
            Token::new(TokenType::Eof, 1),
        ]
    );
}

#[test]
fn one_and_two_character_operators_alone() {
    single("!", TokenType::Bang);
    single("!=", TokenType::BangEqual);
    single("=", TokenType::Equal);
    single("==", TokenType::EqualEqual);
    single(">", TokenType::Greater);
    single(">=", TokenType::GreaterEqual);
    single("<", TokenType::Less);
    single("<=", TokenType::LessEqual);
}

#[test]
fn operators_are_read_greedily() {
    assert_eq!(
        kinds("!=== <=>"),
        vec![
            TokenType::BangEqual,
            TokenType::EqualEqual,
            TokenType::LessEqual,
            TokenType::Greater,
            TokenType::Eof,
        ]
    );
}

#[test]
fn digits_scan_to_a_number() {
    single("123", number(123.0));
    single("0", number(0.0));
    single("007", number(7.0));
}

#[test]
fn a_decimal_point_is_no_part_of_a_number() {
    assert_eq!(kinds("1.5"), vec![number(1.0), TokenType::Dot, number(5.0), TokenType::Eof]);
}

#[test]
fn string_literal() {
    single("\"abc\"", TokenType::String("abc".into()));
    single("\"\"", TokenType::String("".into()));
}

#[test]
fn unterminated_string() {
    assert_eq!(scan("\"abc"), Err(ScanError::UnterminatedString(1)));
    assert_eq!(scan("\n\n\"abc\ndef"), Err(ScanError::UnterminatedString(3)));
}

#[test]
fn a_string_may_span_lines() {
    let tokens = scan("\"a\nb\nc\" x").unwrap();
    assert_eq!(
        tokens,
        vec![
            Token::new(TokenType::String("a\nb\nc".into()), 3),
            Token::new(TokenType::Identifier("x".into()), 3),
            Token::new(TokenType::Eof, 3),
        ]
    );
}

#[test]
fn identifier() {
    single("foo", TokenType::Identifier("foo".into()));
    single("_foo_1", TokenType::Identifier("_foo_1".into()));
    single("h\u{e9}llo", TokenType::Identifier("h\u{e9}llo".into()));
    single("classy", TokenType::Identifier("classy".into()));
}

#[test]
fn reserved_words() {
    single("and", TokenType::And);
    single("class", TokenType::Class);
    single("else", TokenType::Else);
    single("false", TokenType::False);
    single("fun", TokenType::Fun);
    single("for", TokenType::For);
    single("if", TokenType::If);
    single("nil", TokenType::Nil);
    single("or", TokenType::Or);
    single("print", TokenType::Print);
    single("return", TokenType::Return);
    single("super", TokenType::Super);
    single("this", TokenType::This);
    single("true", TokenType::True);
    single("var", TokenType::Var);
    single("while", TokenType::While);
}

#[test]
fn keyword_lookup() {
    assert_eq!(keyword("while"), Some(TokenType::While));
    assert_eq!(keyword("While"), None);
    assert_eq!(keyword(""), None);
    assert_eq!(keyword("whiles"), None);
}

#[test]
fn unexpected_character() {
    assert_eq!(scan("@"), Err(ScanError::UnexpectedCharacter(1, '@')));
    assert_eq!(scan("a\n  #"), Err(ScanError::UnexpectedCharacter(2, '#')));
    assert_eq!(scan("\u{0}"), Err(ScanError::UnexpectedCharacter(1, '\u{0}')));
    assert_eq!(scan("\u{e9}"), Err(ScanError::UnexpectedCharacter(1, '\u{e9}')));
}

#[test]
fn comments_are_skipped() {
    let tokens = scan("a // the rest\nb").unwrap();
    assert_eq!(
        tokens,
        vec![
            Token::new(TokenType::Identifier("a".into()), 1),
            Token::new(TokenType::Identifier("b".into()), 2),
            Token::new(TokenType::Eof, 2),
        ]
    );
}

#[test]
fn unterminated_comment() {
    assert_eq!(scan("// no end"), Err(ScanError::UnterminatedComment(1)));
    assert_eq!(scan("a\n// no end"), Err(ScanError::UnterminatedComment(2)));
}

#[test]
fn lines_are_counted() {
    let tokens = scan("a\n\nb\n").unwrap();
    assert_eq!(
        tokens,
        vec![
            Token::new(TokenType::Identifier("a".into()), 1),
            Token::new(TokenType::Identifier("b".into()), 3),
            Token::new(TokenType::Eof, 4),
        ]
    );
}

#[test]
fn empty_text() {
    assert_eq!(scan(""), Ok(vec![Token::new(TokenType::Eof, 1)]));
    assert_eq!(scan(" \t\r\n "), Ok(vec![Token::new(TokenType::Eof, 2)]));
}

#[test]
fn whitespace_beyond_ascii_separates_tokens() {
    assert_eq!(
        kinds("a\u{a0}b\u{2003}c"),
        vec![
            TokenType::Identifier("a".into()),
            TokenType::Identifier("b".into()),
            TokenType::Identifier("c".into()),
            TokenType::Eof,
        ]
    );
}

#[test]
fn a_failed_scan_keeps_the_tokens_before_the_error() {
    let mut scanner = Scanner::new("a b @ c");
    assert_eq!(scanner.scan_tokens(), Err(ScanError::UnexpectedCharacter(1, '@')));
    assert_eq!(
        scanner.tokens,
        vec![
            Token::new(TokenType::Identifier("a".into()), 1),
            Token::new(TokenType::Identifier("b".into()), 1),
        ]
    );
}

#[test]
fn scanning_step_by_step() {
    let mut scanner = Scanner::new("= x");
    assert!(!scanner.is_at_end());
    assert_eq!(scanner.peek(), Ok(' '));
    assert_eq!(scanner.scan_token(), Ok(()));
    assert_eq!(scanner.tokens, vec![Token::new(TokenType::Equal, 1)]);
    assert_eq!(scanner.scan_token(), Ok(()));
    assert!(scanner.is_at_end());
    assert_eq!(scanner.peek(), Err(ScanError::UnexpectedEndOfFile(1)));
    assert_eq!(scanner.scan_token(), Ok(()));
    assert_eq!(scanner.tokens.len(), 2);
    scanner.add_token(TokenType::Eof, 7);
    assert_eq!(scanner.tokens[2], Token::new(TokenType::Eof, 7));
}

#[test]
fn lines_begin_at_one_and_never_go_down() {
    let source = "a // one\n\n\"two\nlines\" b\n\tc // three\n d\n";
    let tokens = scan(source).unwrap();
    let lines: Vec<usize> = tokens.iter().map(|token| token.line).collect();
    assert_eq!(lines, vec![1, 4, 4, 5, 6, 7]);
    assert!(lines[0] >= 1);
    assert!(lines.windows(2).all(|pair| pair[0] <= pair[1]));
}
