use lox_rs_ast::ast::{are_well_formed, AstPrinter, Expr, Piece, Stmt};
use lox_rs_ast::parser::{ParseError, Parser};
use lox_rs_ast::scanner::Scanner;
use lox_rs_ast::tokens::{Token, TokenType};

fn parse(source: &str) -> Result<Vec<Stmt>, ParseError> {
    let tokens = Scanner::new(source).scan_tokens().unwrap();
    Parser::new(tokens).parse()
}

fn failure(source: &str) -> ParseError {
    parse(source).unwrap_err()
}

fn message(text: &str) -> ParseError {
    ParseError::Panic(text.to_string())
}

fn token(token_type: TokenType) -> Token {
    Token::new(token_type, 1)
}

fn number(value: f64) -> Expr {
    Expr::Literal { value: token(TokenType::Number(value.to_bits())) }
}

fn variable(name: &str) -> Expr {
    Expr::Var { name: token(TokenType::Identifier(name.to_string())) }
}

fn binary(left: Expr, operator: TokenType, right: Expr) -> Expr {
    Expr::Binary { left: Box::new(left), operator: token(operator), right: Box::new(right) }
}

fn logical(left: Expr, operator: TokenType, right: Expr) -> Expr {
    Expr::Logical { left: Box::new(left), operator: token(operator), right: Box::new(right) }
}

fn expression(expression: Expr) -> Stmt {
    Stmt::Expression { expression }
}

fn print(expression: Expr) -> Stmt {
    Stmt::Print { expression }
}

#[test]
fn multiplication_binds_tighter_than_addition() {
    assert_eq!(
        parse("1+2*3;"),
        Ok(vec![expression(binary(
            number(1.0),
            TokenType::Plus,
            binary(number(2.0), TokenType::Star, number(3.0)),
        ))])
    );
}

#[test]
fn operators_of_one_tier_join_to_the_left() {
    assert_eq!(
        parse("1-2-3;"),
        Ok(vec![expression(binary(
            binary(number(1.0), TokenType::Minus, number(2.0)),
            TokenType::Minus,
            number(3.0),
        ))])
    );
}

#[test]
fn the_tiers_in_their_order() {
    assert_eq!(
        parse("a or b and c == d < e + f * -g;"),
        Ok(vec![expression(logical(
            variable("a"),
            TokenType::Or,
            logical(
                variable("b"),
                TokenType::And,
                binary(
                    variable("c"),
                    TokenType::EqualEqual,
                    binary(
                        variable("d"),
                        TokenType::Less,
                        binary(
                            variable("e"),
                            TokenType::Plus,
                            binary(
                                variable("f"),
                                TokenType::Star,
                                Expr::Unary {
                                    operator: token(TokenType::Minus),
                                    right: Box::new(variable("g")),
                                },
                            ),
                        ),
                    ),
                ),
            ),
        ))])
    );
}

#[test]
fn grouping() {
    assert_eq!(
        parse("(1+2)*3;"),
        Ok(vec![expression(binary(
            Expr::Grouping {
                expression: Box::new(binary(number(1.0), TokenType::Plus, number(2.0))),
            },
            TokenType::Star,
            number(3.0),
        ))])
    );
}

#[test]
fn assignment_joins_to_the_right() {
    assert_eq!(
        parse("a = b = 1;"),
        Ok(vec![expression(Expr::Assign {
            name: token(TokenType::Identifier("a".into())),
            value: Box::new(Expr::Assign {
                name: token(TokenType::Identifier("b".into())),
                value: Box::new(number(1.0)),
            }),
        })])
    );
}

#[test]
fn invalid_assignment_target() {
    assert_eq!(failure("1 = 2;"), message("Invalid assignment target."));
    assert_eq!(failure("(a) = 2;"), message("Invalid assignment target."));
    assert_eq!(failure("a + b = 2;"), message("Invalid assignment target."));
}

#[test]
fn variable_declarations() {
    assert_eq!(
        parse("var x = 1; var y;"),
        Ok(vec![
            Stmt::Var { name: token(TokenType::Identifier("x".into())), initializer: number(1.0) },
            Stmt::Var {
                name: token(TokenType::Identifier("y".into())),
                initializer: Expr::Literal { value: Token::new(TokenType::Nil, 0) },
            },
        ])
    );
}

#[test]
fn literals() {
    assert_eq!(
        parse("print \"a\"; print true; print false; print nil;"),
        Ok(vec![
            print(Expr::Literal { value: token(TokenType::String("a".into())) }),
            print(Expr::Literal { value: token(TokenType::True) }),
            print(Expr::Literal { value: token(TokenType::False) }),
            print(Expr::Literal { value: token(TokenType::Nil) }),
        ])
    );
}

#[test]
fn blocks_and_branches() {
    assert_eq!(
        parse("if (a) { print 1; } else print 2; while (b) {}"),
        Ok(vec![
            Stmt::If {
                condition: variable("a"),
                then_branch: Box::new(Stmt::Block { statements: vec![print(number(1.0))] }),
                else_branch: Some(Box::new(print(number(2.0)))),
            },
            Stmt::While {
                condition: variable("b"),
                body: Box::new(Stmt::Block { statements: vec![] }),
            },
        ])
    );
}

#[test]
fn an_else_belongs_to_the_nearest_if() {
    assert_eq!(
        parse("if (a) if (b) print 1; else print 2;"),
        Ok(vec![Stmt::If {
            condition: variable("a"),
            then_branch: Box::new(Stmt::If {
                condition: variable("b"),
                then_branch: Box::new(print(number(1.0))),
                else_branch: Some(Box::new(print(number(2.0)))),
            }),
            else_branch: None,
        }])
    );
}

#[test]
fn a_for_statement_becomes_a_while_statement() {
    let increment = Expr::Assign {
        name: token(TokenType::Identifier("i".into())),
        value: Box::new(binary(variable("i"), TokenType::Plus, number(1.0))),
    };
    assert_eq!(
        parse("for (var i = 0; i < 3; i = i + 1) print i;"),
        Ok(vec![Stmt::Block {
            statements: vec![
                Stmt::Var {
                    name: token(TokenType::Identifier("i".into())),
                    initializer: number(0.0),
                },
                Stmt::While {
                    condition: binary(variable("i"), TokenType::Less, number(3.0)),
                    body: Box::new(Stmt::Block {
                        statements: vec![print(variable("i")), expression(increment)],
                    }),
                },
            ],
        }])
    );
}

#[test]
fn a_for_statement_without_clauses() {
    assert_eq!(
        parse("for (;;) print 1;"),
        Ok(vec![Stmt::While {
            condition: Expr::Literal { value: Token::new(TokenType::True, 0) },
            body: Box::new(print(number(1.0))),
        }])
    );
    assert_eq!(
        parse("for (a; b;) print 1;"),
        Ok(vec![Stmt::Block {
            statements: vec![
                expression(variable("a")),
                Stmt::While { condition: variable("b"), body: Box::new(print(number(1.0))) },
            ],
        }])
    );
}

#[test]
fn expected_expression() {
    assert_eq!(failure(";"), ParseError::ExpectedExpression(1));
    assert_eq!(failure("print\n\n+;"), ParseError::ExpectedExpression(3));
    assert_eq!(failure("print"), ParseError::ExpectedExpression(1));
    assert_eq!(failure("1 +"), ParseError::ExpectedExpression(1));
    assert_eq!(failure("for (;; print"), ParseError::ExpectedExpression(1));
}

#[test]
fn missing_tokens() {
    assert_eq!(failure("1"), message("Expect ';' after value."));
    assert_eq!(failure("print 1"), message("Expect ';' after value."));
    assert_eq!(failure("(1;"), message("Expect ')' after expression."));
    assert_eq!(failure("var;"), message("Expect variable name."));
    assert_eq!(failure("var 1;"), message("Expect variable name."));
    assert_eq!(failure("var x = 1"), message("Expect ';' after variable declaration."));
    assert_eq!(failure("var x 1"), message("Expect ';' after variable declaration."));
    assert_eq!(failure("if a) b;"), message("Expect '(' after 'if'."));
    assert_eq!(failure("if (a b;"), message("Expect ')' after if condition."));
    assert_eq!(failure("while a) b;"), message("Expect '(' after 'while'."));
    assert_eq!(failure("while (a b;"), message("Expect ')' after condition."));
    assert_eq!(failure("for a;;) b;"), message("Expect '(' after 'for'."));
    assert_eq!(failure("for (; a b) c;"), message("Expect ';' after loop condition."));
    assert_eq!(failure("for (;; a b) c;"), message("Expect ')' after for clauses."));
    assert_eq!(failure("{ a;"), message("Expect '}' after block."));
}

#[test]
fn the_first_error_is_the_one_reported() {
    assert_eq!(failure("for (var = 1 2 3) print 1;"), message("Expect variable name."));
    assert_eq!(failure("print 1 print (;"), message("Expect ';' after value."));
}

#[test]
fn an_empty_program() {
    assert_eq!(parse(""), Ok(vec![]));
    assert_eq!(Parser::new(vec![]).parse(), Ok(vec![]));
}

#[test]
fn tokens_without_an_end_marker() {
    let tokens = vec![token(TokenType::Print), token(TokenType::Number(1.0f64.to_bits()))];
    assert_eq!(Parser::new(tokens).parse(), Err(message("Expect ';' after value.")));
    let tokens = vec![token(TokenType::Print)];
    assert_eq!(Parser::new(tokens).parse(), Err(ParseError::ExpectedExpression(1)));
}

#[test]
fn after_a_failed_declaration_the_parser_stands_at_a_statement_boundary() {
    let tokens = Scanner::new("var 1 2; print 3; print 4;").scan_tokens().unwrap();
    let mut parser = Parser::new(tokens);
    assert_eq!(parser.parse(), Err(message("Expect variable name.")));
    assert_eq!(parser.current, 4);
    assert_eq!(parser.parse(), Ok(vec![print(number(3.0)), print(number(4.0))]));
    let tokens = Scanner::new("var 1 2 print 3;").scan_tokens().unwrap();
    let mut parser = Parser::new(tokens);
    assert_eq!(parser.parse(), Err(message("Expect variable name.")));
    assert_eq!(parser.current, 3);
    let tokens = Scanner::new("print 1 2; print 3;").scan_tokens().unwrap();
    let mut parser = Parser::new(tokens);
    assert_eq!(parser.parse(), Err(message("Expect ';' after value.")));
    assert_eq!(parser.current, 2);
}

#[test]
fn what_the_parser_returns_is_well_formed() {
    let program = parse("var a = 1; for (var i = 0; i < 3; i = i + 1) { if (!a or i) print -i; }");
    assert!(are_well_formed(&program.unwrap()));
}

#[test]
fn trees_that_the_grammar_cannot_produce() {
    assert!(!are_well_formed(&vec![expression(binary(number(1.0), TokenType::Bang, number(2.0)))]));
    assert!(!are_well_formed(&vec![expression(logical(number(1.0), TokenType::Plus, number(2.0)))]));
    assert!(!are_well_formed(&vec![print(Expr::Literal { value: token(TokenType::Plus) })]));
    assert!(!are_well_formed(&vec![print(Expr::Var { name: token(TokenType::Nil) })]));
    assert!(!are_well_formed(&vec![Stmt::Block {
        statements: vec![
            print(number(1.0)),
            Stmt::Var { name: token(TokenType::String("x".into())), initializer: number(1.0) },
        ],
    }]));
    assert!(!are_well_formed(&vec![print(Expr::Unary {
        operator: token(TokenType::Plus),
        right: Box::new(number(1.0)),
    })]));
    assert!(are_well_formed(&vec![print(Expr::Unary {
        operator: token(TokenType::Bang),
        right: Box::new(number(1.0)),
    })]));
    assert!(print(number(1.0)).is_well_formed());
    assert!(!variable_named_by(TokenType::Number(0)).is_well_formed());
}

fn variable_named_by(token_type: TokenType) -> Expr {
    Expr::Var { name: token(token_type) }
}

fn join(pieces: Vec<Piece>) -> String {
    let mut text = String::new();
    for piece in pieces {
        match piece {
            Piece::Text(part) => text.push_str(&part),
            Piece::Number(bits) => text.push_str(&f64::from_bits(bits).to_string()),
        }
    }
    text
}

fn printed(source: &str) -> String {
    match parse(source).unwrap().pop().unwrap() {
        Stmt::Expression { expression } => join(AstPrinter {}.print(&expression)),
        _ => panic!("not an expression statement"),
    }
}

#[test]
fn expressions_are_written_out() {
    assert_eq!(printed("1 + 2 * 3;"), "(1 + (2 * 3))");
    assert_eq!(printed("(1 + 2) * -3;"), "((group (1 + 2)) * (-3))");
    assert_eq!(printed("a = b or !c and \"s\";"), "a=(b or ((!c) and \"s\"))");
    assert_eq!(printed("nil == true;"), "(nil == true)");
}

#[test]
fn the_pieces_of_a_written_expression() {
    let tree = binary(number(1.5), TokenType::Plus, variable("x"));
    assert_eq!(
        AstPrinter {}.print(&tree),
        vec![
            Piece::Text("(".into()),
            Piece::Number(1.5f64.to_bits()),
            Piece::Text(" ".into()),
            Piece::Text("+".into()),
            Piece::Text(" ".into()),
            Piece::Text("x".into()),
            Piece::Text(")".into()),
        ]
    );
}

#[test]
fn the_parser_never_goes_past_the_tokens() {
    for source in ["", "1;", "print 1 + 2; { var a; }", "var 1 2", "print", "{ { {", "for (;;"] {
        let tokens = Scanner::new(source).scan_tokens().unwrap();
        let count = tokens.len();
        let mut parser = Parser::new(tokens);
        let result = parser.parse();
        assert!(parser.current <= count, "{}", source);
        if result.is_ok() {
            assert_eq!(parser.current, count - 1, "{}", source);
        }
    }
    let tokens = vec![token(TokenType::Var), token(TokenType::Plus), token(TokenType::Plus)];
    let mut parser = Parser::new(tokens);
    assert_eq!(parser.parse(), Err(message("Expect variable name.")));
    assert_eq!(parser.current, 3);
    assert_eq!(parser.parse(), Ok(vec![]));
    assert_eq!(parser.current, 3);
}
