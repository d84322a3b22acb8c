use lox_rs_ast::ast::{are_well_formed, Expr, Stmt};
use lox_rs_ast::environment::Environment;
use lox_rs_ast::interpreter::{Action, Interpreter, InterpreterError, Operation};
use lox_rs_ast::parser::ParseError;
use lox_rs_ast::scanner::ScanError;
use lox_rs_ast::tokens::{Token, TokenType};
use lox_rs_ast::{read_program, LoxError};

fn number(value: f64) -> Expr {
    Expr::Literal { value: Token::new(TokenType::Number(value.to_bits()), 1) }
}

#[test]
fn a_text_is_read_to_statements() {
    let expected = Stmt::Expression {
        expression: Expr::Binary {
            left: Box::new(number(1.0)),
            operator: Token::new(TokenType::Plus, 1),
            right: Box::new(Expr::Binary {
                left: Box::new(number(2.0)),
                operator: Token::new(TokenType::Star, 1),
                right: Box::new(number(3.0)),
            }),
        },
    };
    assert_eq!(read_program("1+2*3;"), Ok(vec![expected]));
    assert_eq!(read_program("// nothing\n"), Ok(vec![]));
}

#[test]
fn a_text_that_cannot_be_read() {
    assert_eq!(
        read_program("1 = 2;"),
        Err(LoxError::ParseError(ParseError::Panic("Invalid assignment target.".to_string())))
    );
    assert_eq!(
        read_program("print 1 +;"),
        Err(LoxError::ParseError(ParseError::ExpectedExpression(1)))
    );
    assert_eq!(
        read_program("print \"a;"),
        Err(LoxError::ScanError(ScanError::UnterminatedString(1)))
    );
    assert_eq!(
        read_program("print 1 ? 2;"),
        Err(LoxError::ScanError(ScanError::UnexpectedCharacter(1, '?')))
    );
}

#[test]
fn what_is_read_can_be_interpreted() {
    let program = read_program("var a = 2; while (a < 100) a = a * a; print a;").unwrap();
    assert!(are_well_formed(&program));
}

fn compute(operation: Operation, left: u64, right: u64) -> u64 {
    let (left, right) = (f64::from_bits(left), f64::from_bits(right));
    let result = match operation {
        Operation::Subtract => left - right,
        Operation::Divide => left / right,
        Operation::Multiply => left * right,
        Operation::Add => left + right,
    };
    result.to_bits()
}

#[test]
fn a_run_with_a_budget_of_tasks() {
    let program = read_program("var a = 2; while (a < 100) a = a * a; print a;").unwrap();
    let mut run = Interpreter::default().interpret(&program);
    let mut reply = None;
    let mut printed = Vec::new();
    let mut pauses = 0;
    loop {
        match run.advance(reply.take(), 3) {
            Action::Continue => pauses += 1,
            Action::Print(value) => printed.push(value),
            Action::Compute { operation, left, right } => {
                reply = Some(compute(operation, left, right));
            }
            Action::Finished => break,
            Action::Failed(error) => panic!("{:?}", error),
        }
    }
    assert_eq!(printed, vec![TokenType::Number(256.0f64.to_bits())]);
    assert!(pauses > 0);
}

#[test]
fn a_budget_of_one_is_one_step() {
    let program = read_program("print nil;").unwrap();
    let mut run = Interpreter::new().interpret(&program);
    assert_eq!(run.advance(None, 1), Action::Continue);
    assert_eq!(run.advance(None, 0), Action::Continue);
    assert_eq!(run.advance(None, 100), Action::Print(TokenType::Nil));
    assert_eq!(run.advance(None, 100), Action::Finished);
}

#[test]
fn a_run_without_pause() {
    let program = read_program("var i = 0; while (i == nil) i = 1; print i; print j;").unwrap();
    let mut run = Interpreter::new().interpret(&program);
    assert_eq!(run.advance(None, 1000), Action::Print(TokenType::Number(0)));
    assert_eq!(
        run.advance(None, 1000),
        Action::Failed(InterpreterError::RuntimeError("Undefined variable.".to_string(), 1))
    );
    assert_eq!(run.advance(None, 1000), Action::Finished);
}

#[test]
fn defaults() {
    let mut environment = Environment::default();
    assert_eq!(environment.depth(), 1);
    environment.define("x".to_string(), TokenType::Nil);
    assert_eq!(environment.get("x"), Some(TokenType::Nil));
}
