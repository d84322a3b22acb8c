use lox_rs_ast::ast::{are_well_formed, Stmt};
use lox_rs_ast::interpreter::{Action, Interpreter, InterpreterError, Operation};
use lox_rs_ast::parser::Parser;
use lox_rs_ast::scanner::Scanner;
use lox_rs_ast::tokens::TokenType;

fn compute(operation: Operation, left: u64, right: u64) -> u64 {
    let (left, right) = (f64::from_bits(left), f64::from_bits(right));
    let result = match operation {
        Operation::Subtract => left - right,
        Operation::Divide => left / right,
        Operation::Multiply => left * right,
        Operation::Add => left + right,
    };
    result.to_bits()
}

fn render(value: &TokenType) -> String {
    match value {
        TokenType::Number(bits) => format!("{}", f64::from_bits(*bits)),
        other => other.lexeme().unwrap(),
    }
}

fn parse(source: &str) -> Vec<Stmt> {
    let tokens = Scanner::new(source).scan_tokens().unwrap();
    let statements = Parser::new(tokens).parse().unwrap();
    assert!(are_well_formed(&statements));
    statements
}

/// Runs the statements to their end. Returns the interpreter, and the error if there was one.
fn drive(
    interpreter: Interpreter,
    statements: &Vec<Stmt>,
    output: &mut Vec<String>,
) -> (Interpreter, Option<InterpreterError>) {
    let mut run = interpreter.interpret(statements);
    let mut reply = None;
    let mut steps = 0;
    loop {
        steps += 1;
        assert!(steps < 1_000_000, "the program does not end");
        match run.step(reply.take()) {
            Action::Continue => {}
            Action::Print(value) => output.push(render(&value)),
            Action::Compute { operation, left, right } => {
                reply = Some(compute(operation, left, right));
            }
            Action::Finished => return (run.finish(), None),
            Action::Failed(error) => return (run.finish(), Some(error)),
        }
    }
}

fn run(source: &str) -> (Vec<String>, Option<InterpreterError>) {
    let statements = parse(source);
    let mut output = Vec::new();
    let (_, error) = drive(Interpreter::new(), &statements, &mut output);
    (output, error)
}

fn prints(source: &str) -> Vec<String> {
    let (output, error) = run(source);
    assert_eq!(error, None);
    output
}

fn fails(source: &str) -> InterpreterError {
    run(source).1.unwrap()
}

fn error(message: &str, line: usize) -> InterpreterError {
    InterpreterError::RuntimeError(message.to_string(), line)
}

#[test]
fn an_inner_variable_shadows_the_outer_one() {
    assert_eq!(prints("var x = 1; { var x = 2; print x; } print x;"), vec!["2", "1"]);
}

#[test]
fn a_for_loop_counts() {
    assert_eq!(prints("for (var i = 0; i < 3; i = i + 1) print i;"), vec!["0", "1", "2"]);
}

#[test]
fn values_of_different_types_are_never_equal() {
    assert_eq!(prints("print nil == false;"), vec!["false"]);
    assert_eq!(prints("print nil != false;"), vec!["true"]);
    assert_eq!(prints("print 0 == false;"), vec!["false"]);
    assert_eq!(prints("print \"1\" == 1;"), vec!["false"]);
    assert_eq!(prints("print \"\" == nil;"), vec!["false"]);
}

#[test]
fn division_by_zero_is_infinite() {
    assert_eq!(prints("print 1 / 0;"), vec!["inf"]);
    assert_eq!(prints("print -1 / 0;"), vec!["-inf"]);
    assert_eq!(prints("print 0 / 0 == 0 / 0;"), vec!["false"]);
    assert_eq!(prints("print 0 / 0 != 0 / 0;"), vec!["true"]);
}

#[test]
fn undefined_variables() {
    assert_eq!(fails("x = 1;"), error("Undefined variable.", 1));
    assert_eq!(fails("\n\nx = 1;"), error("Undefined variable.", 3));
    assert_eq!(fails("print y;"), error("Undefined variable.", 1));
}

#[test]
fn arithmetic() {
    assert_eq!(prints("print 1 + 2 * 3 - 4 / 8;"), vec!["6.5"]);
    assert_eq!(prints("print (1 + 2) * 3;"), vec!["9"]);
    assert_eq!(prints("print -(3 - 5);"), vec!["2"]);
    assert_eq!(prints("print - - 3;"), vec!["3"]);
    assert_eq!(prints("print -0;"), vec!["-0"]);
    assert_eq!(prints("print 10 / 4;"), vec!["2.5"]);
}

#[test]
fn comparison() {
    assert_eq!(prints("print 1 < 2; print 2 < 1; print 1 < 1;"), vec!["true", "false", "false"]);
    assert_eq!(prints("print 1 <= 2; print 2 <= 1; print 1 <= 1;"), vec!["true", "false", "true"]);
    assert_eq!(prints("print 1 > 2; print 2 > 1; print 1 > 1;"), vec!["false", "true", "false"]);
    assert_eq!(prints("print 1 >= 2; print 2 >= 1; print 1 >= 1;"), vec!["false", "true", "true"]);
    assert_eq!(prints("print -1 < 0; print 0 == -0; print -2 < -1;"), vec!["true", "true", "true"]);
    assert_eq!(prints("print 0/0 < 1; print 0/0 >= 1;"), vec!["false", "false"]);
}

#[test]
fn equality() {
    assert_eq!(prints("print 1 == 1; print 1 == 2; print 1 != 2;"), vec!["true", "false", "true"]);
    assert_eq!(prints("print \"a\" == \"a\"; print \"a\" == \"b\";"), vec!["true", "false"]);
    assert_eq!(prints("print nil == nil; print true == true;"), vec!["true", "true"]);
    assert_eq!(prints("print true == false; print true != false;"), vec!["false", "true"]);
}

#[test]
fn strings_are_joined() {
    assert_eq!(prints("print \"ab\" + \"cd\";"), vec!["abcd"]);
    assert_eq!(prints("var a = \"x\"; a = a + a + \"y\"; print a;"), vec!["xxy"]);
}

#[test]
fn operands_of_the_wrong_type() {
    assert_eq!(fails("print -\"a\";"), error("Operand must be a number.", 1));
    assert_eq!(fails("print -nil;"), error("Operand must be a number.", 1));
    assert_eq!(fails("print \"a\" - 1;"), error("Left operand must be a number.", 1));
    assert_eq!(fails("print 1 * true;"), error("Right operand must be a number.", 1));
    assert_eq!(fails("print nil / nil;"), error("Left operand must be a number.", 1));
    assert_eq!(fails("print \"a\" < \"b\";"), error("Left operand must be a number.", 1));
    assert_eq!(fails("print 1 >= \"b\";"), error("Right operand must be a number.", 1));
    assert_eq!(fails("print 1 + \"a\";"), error("Cannot add these values.", 1));
    assert_eq!(fails("print \"a\" + 1;"), error("Cannot add these values.", 1));
    assert_eq!(fails("print\n nil\n +\n nil;"), error("Cannot add these values.", 3));
}

#[test]
fn an_error_carries_the_line_of_its_operator_or_name() {
    assert_eq!(fails("print 1;\nprint\n  -\n  \"a\";"), error("Operand must be a number.", 3));
    assert_eq!(fails("\n\nprint nil\n  *\n  2;"), error("Left operand must be a number.", 4));
    assert_eq!(fails("print 1\n  <\n  nil;"), error("Right operand must be a number.", 2));
    assert_eq!(fails("print 1\n  +\n  nil;"), error("Cannot add these values.", 2));
    assert_eq!(fails("var a;\nprint a;\nprint\n  b;"), error("Undefined variable.", 4));
    assert_eq!(fails("var a;\na = 1;\n\nb\n  = 2;"), error("Undefined variable.", 4));
}

#[test]
fn truth() {
    assert_eq!(prints("print !nil; print !false; print !true;"), vec!["true", "true", "false"]);
    assert_eq!(prints("print !0; print !\"\"; print !!nil;"), vec!["false", "false", "false"]);
    assert_eq!(prints("if (0) print 1; else print 2;"), vec!["1"]);
    assert_eq!(prints("if (\"\") print 1; else print 2;"), vec!["1"]);
    assert_eq!(prints("if (nil) print 1; else print 2;"), vec!["2"]);
    assert_eq!(prints("if (false) print 1;"), Vec::<String>::new());
}

#[test]
fn logical_operators_give_the_operand_that_decides() {
    assert_eq!(prints("print nil or \"a\";"), vec!["a"]);
    assert_eq!(prints("print 1 or 2;"), vec!["1"]);
    assert_eq!(prints("print nil and 2;"), vec!["nil"]);
    assert_eq!(prints("print 1 and 2;"), vec!["2"]);
    assert_eq!(prints("print false or nil;"), vec!["nil"]);
}

#[test]
fn logical_operators_leave_the_right_operand_alone_where_the_left_decides() {
    assert_eq!(prints("var a = 1; true or (a = 2); print a;"), vec!["1"]);
    assert_eq!(prints("var a = 1; false and (a = 2); print a;"), vec!["1"]);
    assert_eq!(prints("var a = 1; false or (a = 2); print a;"), vec!["2"]);
    assert_eq!(prints("var a = 1; true and (a = 2); print a;"), vec!["2"]);
    assert_eq!(prints("print true or missing;"), vec!["true"]);
}

#[test]
fn assignment_is_an_expression() {
    assert_eq!(prints("var a; var b; print a = b = 3; print a; print b;"), vec!["3", "3", "3"]);
}

#[test]
fn variables_without_initializer_are_nil() {
    assert_eq!(prints("var a; print a;"), vec!["nil"]);
}

#[test]
fn a_variable_may_be_declared_again() {
    assert_eq!(prints("var a = 1; var a = 2; print a;"), vec!["2"]);
    assert_eq!(prints("var a = 1; var a = a + 1; print a;"), vec!["2"]);
}

#[test]
fn assignment_reaches_the_outer_scope() {
    assert_eq!(prints("var a = 1; { a = 2; { a = a + 1; } } print a;"), vec!["3"]);
}

#[test]
fn while_loops() {
    assert_eq!(
        prints("var i = 0; var s = 0; while (i < 5) { i = i + 1; s = s + i; } print s;"),
        vec!["15"]
    );
    assert_eq!(prints("while (false) print 1; print 2;"), vec!["2"]);
}

#[test]
fn each_round_of_a_loop_has_its_own_scope() {
    assert_eq!(
        prints("var i = 0; while (i < 2) { var j = i * 10; print j; i = i + 1; }"),
        vec!["0", "10"]
    );
    assert_eq!(fails("var i = 0; while (i < 1) { var j = 1; i = 1; } print j;"), error("Undefined variable.", 1));
}

#[test]
fn the_variable_of_a_for_loop_is_gone_after_it() {
    assert_eq!(
        run("for (var i = 0; i < 1; i = i + 1) print i; print i;"),
        (vec!["0".to_string()], Some(error("Undefined variable.", 1)))
    );
}

#[test]
fn fibonacci() {
    let source = "var a = 0; var b = 1; for (var i = 0; i < 10; i = i + 1) { print a; var c = a + b; a = b; b = c; }";
    assert_eq!(prints(source), vec!["0", "1", "1", "2", "3", "5", "8", "13", "21", "34"]);
}

#[test]
fn an_error_ends_the_run() {
    assert_eq!(
        run("print 1; print nil + 1; print 2;"),
        (vec!["1".to_string()], Some(error("Cannot add these values.", 1)))
    );
}

#[test]
fn variables_stay_from_one_run_to_the_next() {
    let mut output = Vec::new();
    let first = parse("var a = 1;");
    let second = parse("a = a + 1; print a;");
    let (interpreter, error) = drive(Interpreter::new(), &first, &mut output);
    assert_eq!(error, None);
    let (interpreter, error) = drive(interpreter, &second, &mut output);
    assert_eq!(error, None);
    let (_, error) = drive(interpreter, &second, &mut output);
    assert_eq!(error, None);
    assert_eq!(output, vec!["2", "3"]);
}

#[test]
fn an_error_inside_blocks_leaves_only_the_global_scope() {
    let mut output = Vec::new();
    let first = parse("var a = 1; { var a = 2; { var b = 3; print nil + 1; } }");
    let second = parse("print a; print b;");
    let (interpreter, failure) = drive(Interpreter::new(), &first, &mut output);
    assert_eq!(failure, Some(error("Cannot add these values.", 1)));
    let (_, failure) = drive(interpreter, &second, &mut output);
    assert_eq!(failure, Some(error("Undefined variable.", 1)));
    assert_eq!(output, vec!["1"]);
}

#[test]
fn a_run_that_is_given_up_leaves_only_the_global_scope() {
    let first = parse("var a = 1; { var a = 2; { var a = 3; print a; } }");
    let second = parse("print a;");
    let mut run = Interpreter::new().interpret(&first);
    loop {
        if let Action::Print(value) = run.step(None) {
            assert_eq!(render(&value), "3");
            break;
        }
    }
    let mut output = Vec::new();
    let (_, failure) = drive(run.finish(), &second, &mut output);
    assert_eq!(failure, None);
    assert_eq!(output, vec!["1"]);
}

#[test]
fn the_machine_asks_for_arithmetic_until_it_is_answered() {
    let statements = parse("print 1 + 2;");
    let mut run = Interpreter::new().interpret(&statements);
    let one = 1.0f64.to_bits();
    let two = 2.0f64.to_bits();
    let request = Action::Compute { operation: Operation::Add, left: one, right: two };
    assert_eq!(run.step(None), Action::Continue);
    assert_eq!(run.step(None), Action::Continue);
    assert_eq!(run.step(None), Action::Continue);
    assert_eq!(run.step(Some(7)), Action::Continue);
    assert_eq!(run.step(None), request);
    assert_eq!(run.step(None), request);
    assert_eq!(run.step(Some(3.0f64.to_bits())), Action::Continue);
    assert_eq!(run.step(None), Action::Print(TokenType::Number(3.0f64.to_bits())));
    assert_eq!(run.step(None), Action::Finished);
    assert_eq!(run.step(None), Action::Finished);
}

#[test]
fn the_operations_that_are_asked_for() {
    for (source, operation) in [
        ("4 - 2;", Operation::Subtract),
        ("4 / 2;", Operation::Divide),
        ("4 * 2;", Operation::Multiply),
        ("4 + 2;", Operation::Add),
    ] {
        let statements = parse(source);
        let mut run = Interpreter::new().interpret(&statements);
        let mut action = run.step(None);
        while action == Action::Continue {
            action = run.step(None);
        }
        let expected =
            Action::Compute { operation, left: 4.0f64.to_bits(), right: 2.0f64.to_bits() };
        assert_eq!(action, expected);
    }
}

#[test]
fn an_empty_program_finishes_at_once() {
    let statements = parse("");
    let mut run = Interpreter::new().interpret(&statements);
    assert_eq!(run.step(None), Action::Finished);
}

#[test]
fn long_loops_need_no_deep_stack() {
    let source = "var i = 0; while (i < 20000) i = i + 1; print i;";
    assert_eq!(prints(source), vec!["20000"]);
}
