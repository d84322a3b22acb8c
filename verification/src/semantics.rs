//! What a program means, and that the machine runs it so.
//!
//! The meaning of an expression is its value, and that of a statement is what it prints
//! and what it leaves in the variables; both are given here by the shape of the tree, each
//! part after its parts. The machine of the interpreter goes through the same tree task by
//! task. The lemmas of this module show that it arrives at the same values, the same output
//! and the same variables.
//!
//! Arithmetic on numbers is not part of either. The meaning takes it as a function, and the
//! machine is answered by the same function.

use vstd::prelude::*;
use crate::ast::{Expr, Stmt};
use crate::environment::{assigned, defined, lemma_assigned_len, lookup, Scope};
use crate::interpreter::{
    binary_value, evaluate, execute, executes, exits, lemma_push, step, unary_value, ActionView,
    Applied, Operation, State, Task,
};
use crate::tokens::Kind;

verus! {

/// An error of a running program: its message and line.
pub type Fault = (Seq<char>, usize);

/// The arithmetic of the caller: the bits of the result for an operation and the bits of
/// its two operands.
pub type Arithmetic = spec_fn(Operation, u64, u64) -> u64;

/// What evaluating an expression gives: its value or an error, and the scopes afterwards.
pub struct Evaluated {
    pub result: Result<Kind, Fault>,
    pub scopes: Seq<Scope>,
}

/// The value of an expression in the given scopes.
///
/// Operands are evaluated from left to right, and an error in one of them is the error of
/// the whole. `and` and `or` evaluate their right operand only where the left one does not
/// decide, and give the value of the operand that decides. An assignment gives the
/// variable its new value in the innermost scope that holds it, and has that value.
pub open spec fn value_of(expression: &Expr, scopes: Seq<Scope>, arithmetic: Arithmetic) -> Evaluated
    decreases expression,
{
    match expression {
        Expr::Literal { value } => Evaluated { result: Ok(value@.kind), scopes },
        Expr::Grouping { expression: inner } => value_of(&**inner, scopes, arithmetic),
        Expr::Unary { operator, right } => {
            let operand = value_of(&**right, scopes, arithmetic);
            match operand.result {
                Err(_) => operand,
                Ok(value) => Evaluated {
                    result: unary_value(operator@, value),
                    scopes: operand.scopes,
                },
            }
        },
        Expr::Binary { left, operator, right } => {
            let first = value_of(&**left, scopes, arithmetic);
            match first.result {
                Err(_) => first,
                Ok(a) => {
                    let second = value_of(&**right, first.scopes, arithmetic);
                    match second.result {
                        Err(_) => second,
                        Ok(b) => Evaluated {
                            result: match binary_value(operator@, a, b) {
                                Applied::Value(value) => Ok(value),
                                Applied::Fault(message, line) => Err((message, line)),
                                Applied::Arithmetic(operation, x, y) => Ok(
                                    Kind::Number(arithmetic(operation, x, y)),
                                ),
                            },
                            scopes: second.scopes,
                        },
                    }
                },
            }
        },
        Expr::Logical { left, operator, right } => {
            let first = value_of(&**left, scopes, arithmetic);
            match first.result {
                Err(_) => first,
                Ok(a) => if a.truthy() == (operator@.kind is Or) {
                    first
                } else {
                    value_of(&**right, first.scopes, arithmetic)
                },
            }
        },
        Expr::Var { name } => Evaluated {
            result: match lookup(scopes, name@.kind.text()) {
                Some(value) => Ok(value),
                None => Err(("Undefined variable."@, name.line)),
            },
            scopes,
        },
        Expr::Assign { name, value } => {
            let right = value_of(&**value, scopes, arithmetic);
            match right.result {
                Err(_) => right,
                Ok(x) => match lookup(right.scopes, name@.kind.text()) {
                    Some(_) => Evaluated {
                        result: Ok(x),
                        scopes: assigned(right.scopes, name@.kind.text(), x),
                    },
                    None => Evaluated {
                        result: Err(("Undefined variable."@, name.line)),
                        scopes: right.scopes,
                    },
                },
            }
        },
    }
}

/// One turn of a run: a step, and where the step asks for arithmetic, the step that is
/// handed the result.
pub open spec fn turn<'a>(state: State<'a>, arithmetic: Arithmetic) -> (State<'a>, ActionView) {
    let (next, action) = step(state, None);
    match action {
        ActionView::Compute { operation, left, right } => step(
            next,
            Some(arithmetic(operation, left, right)),
        ),
        _ => (next, action),
    }
}

/// What a number of turns come to: the state reached, the values that were to be printed,
/// in their order, and the error that ended the run, if one did.
pub struct Trace<'a> {
    pub state: State<'a>,
    pub prints: Seq<Kind>,
    pub failure: Option<Fault>,
}

/// One trace after another.
pub open spec fn joined<'a>(first: Trace<'a>, second: Trace<'a>) -> Trace<'a> {
    Trace {
        state: second.state,
        prints: first.prints + second.prints,
        failure: match first.failure {
            Some(fault) => Some(fault),
            None => second.failure,
        },
    }
}

/// The trace of one turn.
pub open spec fn turned<'a>(state: State<'a>, arithmetic: Arithmetic) -> Trace<'a> {
    let (next, action) = turn(state, arithmetic);
    Trace {
        state: next,
        prints: match action {
            ActionView::Print(value) => seq![value],
            _ => seq![],
        },
        failure: match action {
            ActionView::Failed(message, line) => Some((message, line)),
            _ => None,
        },
    }
}

/// The trace of a number of turns from a state.
pub open spec fn driven<'a>(state: State<'a>, arithmetic: Arithmetic, turns: nat) -> Trace<'a>
    decreases turns,
{
    if turns == 0 {
        Trace { state, prints: seq![], failure: None }
    } else {
        let first = turned(state, arithmetic);
        joined(first, driven(first.state, arithmetic, (turns - 1) as nat))
    }
}

/// Turns add up.
pub proof fn lemma_driven_add(state: State, arithmetic: Arithmetic, a: nat, b: nat)
    ensures
        driven(state, arithmetic, a + b) == joined(
            driven(state, arithmetic, a),
            driven(driven(state, arithmetic, a).state, arithmetic, b),
        ),
    decreases a,
{
    let later = driven(driven(state, arithmetic, a).state, arithmetic, b);
    if a == 0 {
        assert(Seq::<Kind>::empty() + later.prints =~= later.prints);
    } else {
        let first = turned(state, arithmetic);
        lemma_driven_add(first.state, arithmetic, (a - 1) as nat, b);
        let middle = driven(first.state, arithmetic, (a - 1) as nat);
        assert(first.prints + (middle.prints + later.prints) =~= (first.prints + middle.prints)
            + later.prints);
    }
}

/// A turn and then more turns.
pub proof fn lemma_driven_one(state: State, arithmetic: Arithmetic, more: nat)
    ensures
        driven(state, arithmetic, 1 + more) == joined(
            turned(state, arithmetic),
            driven(turned(state, arithmetic).state, arithmetic, more),
        ),
{
}

/// The trace of turns that print nothing and do not fail.
pub open spec fn quiet<'a>(state: State<'a>) -> Trace<'a> {
    Trace { state, prints: seq![], failure: None }
}

/// The trace of turns that end in an error at a point where the scopes are `scopes`: of
/// these the first `keep` remain, and no task and no value.
pub open spec fn failed<'a>(scopes: Seq<Scope>, keep: int, prints: Seq<Kind>, fault: Fault) -> Trace<
    'a,
> {
    Trace {
        state: State { scopes: scopes.take(keep), tasks: Seq::empty(), values: Seq::empty() },
        prints,
        failure: Some(fault),
    }
}

/// The trace that evaluating an expression comes to, for the tasks below it and the values
/// before it: the value is one more value, or the run has failed.
pub open spec fn evaluated<'a>(
    tasks: Seq<Task<'a>>,
    values: Seq<Kind>,
    outcome: Evaluated,
) -> Trace<'a> {
    match outcome.result {
        Ok(value) => quiet(State { scopes: outcome.scopes, tasks, values: values.push(value) }),
        Err(fault) => failed(outcome.scopes, outcome.scopes.len() - exits(tasks), seq![], fault),
    }
}

/// The machine evaluates an expression to its value: from a state whose next task is to
/// evaluate the expression, some number of turns lead to the state with the value on the
/// stack and the scopes as the evaluation leaves them, or, where the evaluation fails, to
/// the failure with its error. Nothing is printed on the way.
pub proof fn lemma_evaluate<'a>(
    tasks: Seq<Task<'a>>,
    values: Seq<Kind>,
    scopes: Seq<Scope>,
    expression: &'a Expr,
    arithmetic: Arithmetic,
) -> (turns: nat)
    ensures
        driven(
            State { scopes, tasks: tasks.push(Task::Evaluate(expression)), values },
            arithmetic,
            turns,
        ) == evaluated(tasks, values, value_of(expression, scopes, arithmetic)),
        value_of(expression, scopes, arithmetic).scopes.len() == scopes.len(),
    decreases expression,
{
    let state = State { scopes, tasks: tasks.push(Task::Evaluate(expression)), values };
    let outcome = value_of(expression, scopes, arithmetic);
    let first = turned(state, arithmetic);
    assert(state.tasks.drop_last() =~= tasks);
    assert(state.rest() == State { scopes, tasks, values });
    lemma_push(tasks, Task::Evaluate(expression), 0);
    match expression {
        Expr::Literal { value } => {
            lemma_driven_one(state, arithmetic, 0);
            assert(joined(first, quiet(first.state)).prints =~= seq![]);
            1
        },
        Expr::Grouping { expression: inner } => {
            let more = lemma_evaluate(tasks, values, scopes, &**inner, arithmetic);
            lemma_driven_one(state, arithmetic, more);
            let rest = driven(first.state, arithmetic, more);
            assert(joined(first, rest).prints =~= rest.prints);
            1 + more
        },
        Expr::Unary { operator, right } => {
            let below = tasks.push(Task::Unary(operator));
            lemma_push(tasks, Task::Unary(operator), 0);
            let more = lemma_evaluate(below, values, scopes, &**right, arithmetic);
            lemma_driven_one(state, arithmetic, more);
            let operand = value_of(&**right, scopes, arithmetic);
            let rest = driven(first.state, arithmetic, more);
            assert(joined(first, rest).prints =~= rest.prints);
            match operand.result {
                Err(_) => 1 + more,
                Ok(value) => {
                    let ready = State { scopes: operand.scopes, tasks: below, values: values.push(value) };
                    lemma_driven_add(state, arithmetic, 1 + more, 1);
                    lemma_driven_one(ready, arithmetic, 0);
                    let last = turned(ready, arithmetic);
                    assert(ready.tasks.drop_last() =~= tasks);
                    assert(ready.values.take(ready.values.len() - 1) =~= values);
                    assert(joined(last, quiet(last.state)).prints =~= last.prints);
                    assert(joined(rest, last).prints =~= last.prints);
                    1 + more + 1
                },
            }
        },
        Expr::Binary { left, operator, right } => {
            let below = tasks.push(Task::Binary(operator));
            let between = below.push(Task::Evaluate(&**right));
            lemma_push(tasks, Task::Binary(operator), 0);
            lemma_push(below, Task::Evaluate(&**right), 0);
            let more = lemma_evaluate(between, values, scopes, &**left, arithmetic);
            lemma_driven_one(state, arithmetic, more);
            let a = value_of(&**left, scopes, arithmetic);
            let rest = driven(first.state, arithmetic, more);
            assert(joined(first, rest).prints =~= rest.prints);
            match a.result {
                Err(_) => 1 + more,
                Ok(x) => {
                    let third = lemma_evaluate(
                        below,
                        values.push(x),
                        a.scopes,
                        &**right,
                        arithmetic,
                    );
                    let b = value_of(&**right, a.scopes, arithmetic);
                    lemma_driven_add(state, arithmetic, 1 + more, third);
                    let next = driven(rest.state, arithmetic, third);
                    assert(joined(rest, next).prints =~= next.prints);
                    match b.result {
                        Err(_) => 1 + more + third,
                        Ok(y) => {
                            let ready = State {
                                scopes: b.scopes,
                                tasks: below,
                                values: values.push(x).push(y),
                            };
                            lemma_driven_add(state, arithmetic, 1 + more + third, 1);
                            lemma_driven_one(ready, arithmetic, 0);
                            let last = turned(ready, arithmetic);
                            assert(ready.tasks.drop_last() =~= tasks);
                            assert(ready.values.take(ready.values.len() - 2) =~= values);
                            assert(joined(last, quiet(last.state)).prints =~= last.prints);
                            assert(joined(next, last).prints =~= last.prints);
                            1 + more + third + 1
                        },
                    }
                },
            }
        },
        Expr::Logical { left, operator, right } => {
            let below = tasks.push(Task::Logical(operator, &**right));
            lemma_push(tasks, Task::Logical(operator, &**right), 0);
            let more = lemma_evaluate(below, values, scopes, &**left, arithmetic);
            lemma_driven_one(state, arithmetic, more);
            let a = value_of(&**left, scopes, arithmetic);
            let rest = driven(first.state, arithmetic, more);
            assert(joined(first, rest).prints =~= rest.prints);
            match a.result {
                Err(_) => 1 + more,
                Ok(x) => {
                    let ready = State { scopes: a.scopes, tasks: below, values: values.push(x) };
                    lemma_driven_add(state, arithmetic, 1 + more, 1);
                    lemma_driven_one(ready, arithmetic, 0);
                    let last = turned(ready, arithmetic);
                    assert(ready.tasks.drop_last() =~= tasks);
                    assert(ready.values.take(ready.values.len() - 1) =~= values);
                    assert(joined(last, quiet(last.state)).prints =~= last.prints);
                    assert(joined(rest, last).prints =~= last.prints);
                    if x.truthy() == (operator@.kind is Or) {
                        1 + more + 1
                    } else {
                        let third = lemma_evaluate(tasks, values, a.scopes, &**right, arithmetic);
                        lemma_driven_add(state, arithmetic, 1 + more + 1, third);
                        let next = driven(last.state, arithmetic, third);
                        assert(joined(joined(rest, last), next).prints =~= next.prints);
                        1 + more + 1 + third
                    }
                },
            }
        },
        Expr::Var { name } => {
            lemma_driven_one(state, arithmetic, 0);
            assert(joined(first, quiet(first.state)).prints =~= seq![]);
            1
        },
        Expr::Assign { name, value } => {
            let below = tasks.push(Task::Assign(name));
            lemma_push(tasks, Task::Assign(name), 0);
            let more = lemma_evaluate(below, values, scopes, &**value, arithmetic);
            lemma_driven_one(state, arithmetic, more);
            let right = value_of(&**value, scopes, arithmetic);
            let rest = driven(first.state, arithmetic, more);
            assert(joined(first, rest).prints =~= rest.prints);
            match right.result {
                Err(_) => 1 + more,
                Ok(x) => {
                    let ready = State { scopes: right.scopes, tasks: below, values: values.push(x) };
                    lemma_driven_add(state, arithmetic, 1 + more, 1);
                    lemma_driven_one(ready, arithmetic, 0);
                    lemma_assigned_len(right.scopes, name@.kind.text(), x);
                    let last = turned(ready, arithmetic);
                    assert(ready.tasks.drop_last() =~= tasks);
                    assert(joined(last, quiet(last.state)).prints =~= last.prints);
                    assert(joined(rest, last).prints =~= last.prints);
                    1 + more + 1
                },
            }
        },
    }
}

/// What executing a statement gives: success or an error, the scopes afterwards, and the
/// values that were printed, in their order.
pub struct Executed {
    pub result: Result<(), Fault>,
    pub scopes: Seq<Scope>,
    pub prints: Seq<Kind>,
}

/// An execution that fails with an error of an expression, or succeeds with its value
/// dropped.
pub open spec fn after_value(value: Evaluated) -> Executed {
    Executed {
        result: match value.result {
            Ok(_) => Ok(()),
            Err(fault) => Err(fault),
        },
        scopes: value.scopes,
        prints: seq![],
    }
}

/// One execution after another.
pub open spec fn followed(first: Executed, second: Executed) -> Executed {
    Executed { result: second.result, scopes: second.scopes, prints: first.prints + second.prints }
}

/// What executing a statement in the given scopes gives, or `None` where the loops of the
/// statement go round more than `fuel` times within one another.
///
/// A block is executed in a new scope, which is left at its end. A loop tests its
/// condition before each round. An error ends the execution where it arises: the scopes
/// are those at that point.
pub open spec fn outcome_of(statement: &Stmt, scopes: Seq<Scope>, arithmetic: Arithmetic, fuel: nat) -> Option<
    Executed,
>
    decreases fuel, statement, 0nat,
{
    match statement {
        Stmt::Expression { expression } => Some(
            after_value(value_of(expression, scopes, arithmetic)),
        ),
        Stmt::Print { expression } => {
            let value = value_of(expression, scopes, arithmetic);
            match value.result {
                Err(_) => Some(after_value(value)),
                Ok(x) => Some(Executed { result: Ok(()), scopes: value.scopes, prints: seq![x] }),
            }
        },
        Stmt::Var { name, initializer } => {
            let value = value_of(initializer, scopes, arithmetic);
            match value.result {
                Err(_) => Some(after_value(value)),
                Ok(x) => Some(
                    Executed {
                        result: Ok(()),
                        scopes: defined(value.scopes, name@.kind.text(), x),
                        prints: seq![],
                    },
                ),
            }
        },
        Stmt::Block { statements } => {
            proof {
                assert(decreases_to!(statement => statements@));
            }
            match outcome_of_all(statements@, 0, scopes.push(Map::empty()), arithmetic, fuel) {
                None => None,
                Some(inner) => match inner.result {
                    Err(_) => Some(inner),
                    Ok(_) => Some(Executed { scopes: inner.scopes.drop_last(), ..inner }),
                },
            }
        },
        Stmt::If { condition, then_branch, else_branch } => {
            let value = value_of(condition, scopes, arithmetic);
            match value.result {
                Err(_) => Some(after_value(value)),
                Ok(x) => if x.truthy() {
                    outcome_of(&**then_branch, value.scopes, arithmetic, fuel)
                } else {
                    match else_branch {
                        Some(branch) => outcome_of(&**branch, value.scopes, arithmetic, fuel),
                        None => Some(after_value(value)),
                    }
                },
            }
        },
        Stmt::While { condition, body } => {
            let value = value_of(condition, scopes, arithmetic);
            match value.result {
                Err(_) => Some(after_value(value)),
                Ok(x) => if !x.truthy() {
                    Some(after_value(value))
                } else if fuel == 0 {
                    None
                } else {
                    match outcome_of(&**body, value.scopes, arithmetic, (fuel - 1) as nat) {
                        None => None,
                        Some(round) => match round.result {
                            Err(_) => Some(round),
                            Ok(_) => match outcome_of(
                                statement,
                                round.scopes,
                                arithmetic,
                                (fuel - 1) as nat,
                            ) {
                                None => None,
                                Some(rest) => Some(followed(round, rest)),
                            },
                        },
                    }
                },
            }
        },
    }
}

/// What executing the statements from the one at `from` on gives, one after another.
pub open spec fn outcome_of_all(
    statements: Seq<Stmt>,
    from: nat,
    scopes: Seq<Scope>,
    arithmetic: Arithmetic,
    fuel: nat,
) -> Option<Executed>
    decreases fuel, statements, statements.len() - from,
{
    if from >= statements.len() {
        Some(Executed { result: Ok(()), scopes, prints: seq![] })
    } else {
        match outcome_of(&statements[from as int], scopes, arithmetic, fuel) {
            None => None,
            Some(first) => match first.result {
                Err(_) => Some(first),
                Ok(_) => match outcome_of_all(
                    statements,
                    from + 1,
                    first.scopes,
                    arithmetic,
                    fuel,
                ) {
                    None => None,
                    Some(rest) => Some(followed(first, rest)),
                },
            },
        }
    }
}

/// The tasks that execute the statements from the one at `from` on: that statement is the
/// last of the tasks, which is the next to be taken up.
pub open spec fn pending<'a>(statements: Seq<Stmt>, from: nat) -> Seq<Task<'a>> {
    executes(statements).take(statements.len() - from)
}

/// The tasks that execute statements leave no scope, and the next of them executes the
/// first statement that is left.
pub proof fn lemma_pending<'a>(tasks: Seq<Task<'a>>, statements: Seq<Stmt>, from: nat)
    requires
        from <= statements.len(),
    ensures
        exits(tasks + pending::<'a>(statements, from)) == exits(tasks),
        from < statements.len() ==> tasks + pending::<'a>(statements, from) == (tasks + pending::<
            'a,
        >(statements, from + 1)).push(Task::Execute(&statements[from as int])),
        from == statements.len() ==> tasks + pending::<'a>(statements, from) == tasks,
        pending::<'a>(statements, 0) == executes::<'a>(statements),
    decreases statements.len() - from,
{
    assert(pending::<'a>(statements, 0) =~= executes::<'a>(statements));
    if from == statements.len() {
        assert(tasks + pending::<'a>(statements, from) =~= tasks);
    } else {
        lemma_pending(tasks, statements, from + 1);
        let shorter = tasks + pending::<'a>(statements, from + 1);
        let next: Task<'a> = Task::Execute(&statements[from as int]);
        assert(tasks + pending::<'a>(statements, from) =~= shorter.push(next));
        lemma_push(shorter, next, 0);
    }
}

/// The trace that executing a statement comes to, for the tasks below it and the values
/// that stand by: what it prints is printed, and the scopes are as it leaves them, or the
/// run has failed and the first `keep` scopes remain.
pub open spec fn executed<'a>(
    tasks: Seq<Task<'a>>,
    values: Seq<Kind>,
    keep: int,
    outcome: Executed,
) -> Trace<'a> {
    match outcome.result {
        Ok(_) => Trace {
            state: State { scopes: outcome.scopes, tasks, values },
            prints: outcome.prints,
            failure: None,
        },
        Err(fault) => failed(outcome.scopes, keep, outcome.prints, fault),
    }
}

/// The machine executes a statement as the statement means: from a state whose next task
/// is to execute it, some number of turns print what it prints and lead to the state with
/// the scopes as the execution leaves them, or, where the execution fails, to the failure
/// with its error.
pub proof fn lemma_execute<'a>(
    tasks: Seq<Task<'a>>,
    values: Seq<Kind>,
    scopes: Seq<Scope>,
    statement: &'a Stmt,
    arithmetic: Arithmetic,
    fuel: nat,
) -> (turns: nat)
    requires
        scopes.len() >= 1,
        outcome_of(statement, scopes, arithmetic, fuel) is Some,
    ensures
        driven(
            State { scopes, tasks: tasks.push(Task::Execute(statement)), values },
            arithmetic,
            turns,
        ) == executed(
            tasks,
            values,
            scopes.len() - exits(tasks),
            outcome_of(statement, scopes, arithmetic, fuel)->0,
        ),
        outcome_of(statement, scopes, arithmetic, fuel)->0.result is Ok ==> outcome_of(
            statement,
            scopes,
            arithmetic,
            fuel,
        )->0.scopes.len() == scopes.len(),
    decreases fuel, statement, 1nat,
{
    match statement {
        Stmt::Block { .. } => lemma_execute_block(tasks, values, scopes, statement, arithmetic, fuel),
        Stmt::If { .. } => lemma_execute_if(tasks, values, scopes, statement, arithmetic, fuel),
        Stmt::While { .. } => lemma_execute_while(
            tasks,
            values,
            scopes,
            statement,
            arithmetic,
            fuel,
        ),
        Stmt::Expression { .. } => lemma_execute_expression(
            tasks,
            values,
            scopes,
            statement,
            arithmetic,
            fuel,
        ),
        Stmt::Print { .. } => lemma_execute_print(tasks, values, scopes, statement, arithmetic, fuel),
        Stmt::Var { .. } => lemma_execute_var(tasks, values, scopes, statement, arithmetic, fuel),
    }
}

/// An expression statement.
proof fn lemma_execute_expression<'a>(
    tasks: Seq<Task<'a>>,
    values: Seq<Kind>,
    scopes: Seq<Scope>,
    statement: &'a Stmt,
    arithmetic: Arithmetic,
    fuel: nat,
) -> (turns: nat)
    requires
        scopes.len() >= 1,
        outcome_of(statement, scopes, arithmetic, fuel) is Some,
        statement is Expression,
    ensures
        driven(
            State { scopes, tasks: tasks.push(Task::Execute(statement)), values },
            arithmetic,
            turns,
        ) == executed(
            tasks,
            values,
            scopes.len() - exits(tasks),
            outcome_of(statement, scopes, arithmetic, fuel)->0,
        ),
        outcome_of(statement, scopes, arithmetic, fuel)->0.result is Ok ==> outcome_of(
            statement,
            scopes,
            arithmetic,
            fuel,
        )->0.scopes.len() == scopes.len(),
    decreases fuel, statement, 0nat,
{
    let state = State { scopes, tasks: tasks.push(Task::Execute(statement)), values };
    let keep = scopes.len() - exits(tasks);
    let first = turned(state, arithmetic);
    assert(state.tasks.drop_last() =~= tasks);
    assert(state.rest() == State { scopes, tasks, values });
    match statement {
        Stmt::Expression { expression } => {
            let below = tasks.push(Task::Discard);
            lemma_push(tasks, Task::Discard, 0);
            let more = lemma_evaluate(below, values, scopes, expression, arithmetic);
            lemma_driven_one(state, arithmetic, more);
            let value = value_of(expression, scopes, arithmetic);
            let rest = driven(first.state, arithmetic, more);
            assert(joined(first, rest).prints =~= rest.prints);
            match value.result {
                Err(_) => 1 + more,
                Ok(x) => {
                    let ready = State { scopes: value.scopes, tasks: below, values: values.push(x) };
                    lemma_driven_add(state, arithmetic, 1 + more, 1);
                    lemma_driven_one(ready, arithmetic, 0);
                    let last = turned(ready, arithmetic);
                    assert(ready.tasks.drop_last() =~= tasks);
                    assert(ready.values.take(ready.values.len() - 1) =~= values);
                    assert(joined(last, quiet(last.state)).prints =~= last.prints);
                    assert(joined(rest, last).prints =~= last.prints);
                    1 + more + 1
                },
            }
        },
        _ => 0,
    }
}

/// A print statement.
proof fn lemma_execute_print<'a>(
    tasks: Seq<Task<'a>>,
    values: Seq<Kind>,
    scopes: Seq<Scope>,
    statement: &'a Stmt,
    arithmetic: Arithmetic,
    fuel: nat,
) -> (turns: nat)
    requires
        scopes.len() >= 1,
        outcome_of(statement, scopes, arithmetic, fuel) is Some,
        statement is Print,
    ensures
        driven(
            State { scopes, tasks: tasks.push(Task::Execute(statement)), values },
            arithmetic,
            turns,
        ) == executed(
            tasks,
            values,
            scopes.len() - exits(tasks),
            outcome_of(statement, scopes, arithmetic, fuel)->0,
        ),
        outcome_of(statement, scopes, arithmetic, fuel)->0.result is Ok ==> outcome_of(
            statement,
            scopes,
            arithmetic,
            fuel,
        )->0.scopes.len() == scopes.len(),
    decreases fuel, statement, 0nat,
{
    let state = State { scopes, tasks: tasks.push(Task::Execute(statement)), values };
    let keep = scopes.len() - exits(tasks);
    let first = turned(state, arithmetic);
    assert(state.tasks.drop_last() =~= tasks);
    assert(state.rest() == State { scopes, tasks, values });
    match statement {
        Stmt::Print { expression } => {
            let below = tasks.push(Task::Print);
            lemma_push(tasks, Task::Print, 0);
            let more = lemma_evaluate(below, values, scopes, expression, arithmetic);
            lemma_driven_one(state, arithmetic, more);
            let value = value_of(expression, scopes, arithmetic);
            let rest = driven(first.state, arithmetic, more);
            assert(joined(first, rest).prints =~= rest.prints);
            match value.result {
                Err(_) => 1 + more,
                Ok(x) => {
                    let ready = State { scopes: value.scopes, tasks: below, values: values.push(x) };
                    lemma_driven_add(state, arithmetic, 1 + more, 1);
                    lemma_driven_one(ready, arithmetic, 0);
                    let last = turned(ready, arithmetic);
                    assert(ready.tasks.drop_last() =~= tasks);
                    assert(ready.values.take(ready.values.len() - 1) =~= values);
                    assert(joined(last, quiet(last.state)).prints =~= last.prints);
                    assert(joined(rest, last).prints =~= last.prints);
                    1 + more + 1
                },
            }
        },
        _ => 0,
    }
}

/// A variable declaration.
proof fn lemma_execute_var<'a>(
    tasks: Seq<Task<'a>>,
    values: Seq<Kind>,
    scopes: Seq<Scope>,
    statement: &'a Stmt,
    arithmetic: Arithmetic,
    fuel: nat,
) -> (turns: nat)
    requires
        scopes.len() >= 1,
        outcome_of(statement, scopes, arithmetic, fuel) is Some,
        statement is Var,
    ensures
        driven(
            State { scopes, tasks: tasks.push(Task::Execute(statement)), values },
            arithmetic,
            turns,
        ) == executed(
            tasks,
            values,
            scopes.len() - exits(tasks),
            outcome_of(statement, scopes, arithmetic, fuel)->0,
        ),
        outcome_of(statement, scopes, arithmetic, fuel)->0.result is Ok ==> outcome_of(
            statement,
            scopes,
            arithmetic,
            fuel,
        )->0.scopes.len() == scopes.len(),
    decreases fuel, statement, 0nat,
{
    let state = State { scopes, tasks: tasks.push(Task::Execute(statement)), values };
    let keep = scopes.len() - exits(tasks);
    let first = turned(state, arithmetic);
    assert(state.tasks.drop_last() =~= tasks);
    assert(state.rest() == State { scopes, tasks, values });
    match statement {
        Stmt::Var { name, initializer } => {
            let below = tasks.push(Task::Define(name));
            lemma_push(tasks, Task::Define(name), 0);
            let more = lemma_evaluate(below, values, scopes, initializer, arithmetic);
            lemma_driven_one(state, arithmetic, more);
            let value = value_of(initializer, scopes, arithmetic);
            let rest = driven(first.state, arithmetic, more);
            assert(joined(first, rest).prints =~= rest.prints);
            match value.result {
                Err(_) => 1 + more,
                Ok(x) => {
                    let ready = State { scopes: value.scopes, tasks: below, values: values.push(x) };
                    lemma_driven_add(state, arithmetic, 1 + more, 1);
                    lemma_driven_one(ready, arithmetic, 0);
                    let last = turned(ready, arithmetic);
                    assert(ready.tasks.drop_last() =~= tasks);
                    assert(ready.values.take(ready.values.len() - 1) =~= values);
                    assert(joined(last, quiet(last.state)).prints =~= last.prints);
                    assert(joined(rest, last).prints =~= last.prints);
                    1 + more + 1
                },
            }
        },
        _ => 0,
    }
}

/// A block.
proof fn lemma_execute_block<'a>(
    tasks: Seq<Task<'a>>,
    values: Seq<Kind>,
    scopes: Seq<Scope>,
    statement: &'a Stmt,
    arithmetic: Arithmetic,
    fuel: nat,
) -> (turns: nat)
    requires
        scopes.len() >= 1,
        outcome_of(statement, scopes, arithmetic, fuel) is Some,
        statement is Block,
    ensures
        driven(
            State { scopes, tasks: tasks.push(Task::Execute(statement)), values },
            arithmetic,
            turns,
        ) == executed(
            tasks,
            values,
            scopes.len() - exits(tasks),
            outcome_of(statement, scopes, arithmetic, fuel)->0,
        ),
        outcome_of(statement, scopes, arithmetic, fuel)->0.result is Ok ==> outcome_of(
            statement,
            scopes,
            arithmetic,
            fuel,
        )->0.scopes.len() == scopes.len(),
    decreases fuel, statement, 0nat,
{
    let state = State { scopes, tasks: tasks.push(Task::Execute(statement)), values };
    let keep = scopes.len() - exits(tasks);
    let first = turned(state, arithmetic);
    assert(state.tasks.drop_last() =~= tasks);
    assert(state.rest() == State { scopes, tasks, values });
    match statement {
        Stmt::Block { statements } => {
            let below = tasks.push(Task::ExitScope);
            let inside = scopes.push(Map::empty());
            lemma_push(tasks, Task::ExitScope, 0);
            lemma_pending(below, statements@, 0);
            let more = lemma_execute_all(below, values, inside, statements@, 0, arithmetic, fuel);
            lemma_driven_one(state, arithmetic, more);
            let inner = outcome_of_all(statements@, 0, inside, arithmetic, fuel)->0;
            let rest = driven(first.state, arithmetic, more);
            assert(joined(first, rest).prints =~= rest.prints);
            match inner.result {
                Err(_) => 1 + more,
                Ok(_) => {
                    let ready = State { scopes: inner.scopes, tasks: below, values };
                    lemma_driven_add(state, arithmetic, 1 + more, 1);
                    lemma_driven_one(ready, arithmetic, 0);
                    let last = turned(ready, arithmetic);
                    assert(ready.tasks.drop_last() =~= tasks);
                    assert(joined(last, quiet(last.state)).prints =~= last.prints);
                    assert(joined(rest, last).prints =~= rest.prints);
                    1 + more + 1
                },
            }
        },
        _ => 0,
    }
}

/// An `if` statement.
proof fn lemma_execute_if<'a>(
    tasks: Seq<Task<'a>>,
    values: Seq<Kind>,
    scopes: Seq<Scope>,
    statement: &'a Stmt,
    arithmetic: Arithmetic,
    fuel: nat,
) -> (turns: nat)
    requires
        scopes.len() >= 1,
        outcome_of(statement, scopes, arithmetic, fuel) is Some,
        statement is If,
    ensures
        driven(
            State { scopes, tasks: tasks.push(Task::Execute(statement)), values },
            arithmetic,
            turns,
        ) == executed(
            tasks,
            values,
            scopes.len() - exits(tasks),
            outcome_of(statement, scopes, arithmetic, fuel)->0,
        ),
        outcome_of(statement, scopes, arithmetic, fuel)->0.result is Ok ==> outcome_of(
            statement,
            scopes,
            arithmetic,
            fuel,
        )->0.scopes.len() == scopes.len(),
    decreases fuel, statement, 0nat,
{
    let state = State { scopes, tasks: tasks.push(Task::Execute(statement)), values };
    let keep = scopes.len() - exits(tasks);
    let first = turned(state, arithmetic);
    assert(state.tasks.drop_last() =~= tasks);
    assert(state.rest() == State { scopes, tasks, values });
    match statement {
        Stmt::If { condition, then_branch, else_branch } => {
            let below = tasks.push(Task::Branch(statement));
            lemma_push(tasks, Task::Branch(statement), 0);
            let more = lemma_evaluate(below, values, scopes, condition, arithmetic);
            lemma_driven_one(state, arithmetic, more);
            let value = value_of(condition, scopes, arithmetic);
            let rest = driven(first.state, arithmetic, more);
            assert(joined(first, rest).prints =~= rest.prints);
            match value.result {
                Err(_) => 1 + more,
                Ok(x) => {
                    let ready = State { scopes: value.scopes, tasks: below, values: values.push(x) };
                    lemma_driven_add(state, arithmetic, 1 + more, 1);
                    lemma_driven_one(ready, arithmetic, 0);
                    let last = turned(ready, arithmetic);
                    assert(ready.tasks.drop_last() =~= tasks);
                    assert(ready.values.take(ready.values.len() - 1) =~= values);
                    assert(joined(last, quiet(last.state)).prints =~= last.prints);
                    assert(joined(rest, last).prints =~= last.prints);
                    if x.truthy() {
                        let third = lemma_execute(
                            tasks,
                            values,
                            value.scopes,
                            &**then_branch,
                            arithmetic,
                            fuel,
                        );
                        lemma_driven_add(state, arithmetic, 1 + more + 1, third);
                        let next = driven(last.state, arithmetic, third);
                        assert(joined(joined(rest, last), next).prints =~= next.prints);
                        1 + more + 1 + third
                    } else {
                        match else_branch {
                            Some(branch) => {
                                let third = lemma_execute(
                                    tasks,
                                    values,
                                    value.scopes,
                                    &**branch,
                                    arithmetic,
                                    fuel,
                                );
                                lemma_driven_add(state, arithmetic, 1 + more + 1, third);
                                let next = driven(last.state, arithmetic, third);
                                assert(joined(joined(rest, last), next).prints =~= next.prints);
                                1 + more + 1 + third
                            },
                            None => 1 + more + 1,
                        }
                    }
                },
            }
        },
        _ => 0,
    }
}

/// A `while` statement.
proof fn lemma_execute_while<'a>(
    tasks: Seq<Task<'a>>,
    values: Seq<Kind>,
    scopes: Seq<Scope>,
    statement: &'a Stmt,
    arithmetic: Arithmetic,
    fuel: nat,
) -> (turns: nat)
    requires
        scopes.len() >= 1,
        outcome_of(statement, scopes, arithmetic, fuel) is Some,
        statement is While,
    ensures
        driven(
            State { scopes, tasks: tasks.push(Task::Execute(statement)), values },
            arithmetic,
            turns,
        ) == executed(
            tasks,
            values,
            scopes.len() - exits(tasks),
            outcome_of(statement, scopes, arithmetic, fuel)->0,
        ),
        outcome_of(statement, scopes, arithmetic, fuel)->0.result is Ok ==> outcome_of(
            statement,
            scopes,
            arithmetic,
            fuel,
        )->0.scopes.len() == scopes.len(),
    decreases fuel, statement, 0nat,
{
    let state = State { scopes, tasks: tasks.push(Task::Execute(statement)), values };
    let keep = scopes.len() - exits(tasks);
    let first = turned(state, arithmetic);
    assert(state.tasks.drop_last() =~= tasks);
    assert(state.rest() == State { scopes, tasks, values });
    match statement {
        Stmt::While { condition, body } => {
            let below = tasks.push(Task::Repeat(statement));
            lemma_push(tasks, Task::Repeat(statement), 0);
            let more = lemma_evaluate(below, values, scopes, condition, arithmetic);
            lemma_driven_one(state, arithmetic, more);
            let value = value_of(condition, scopes, arithmetic);
            let rest = driven(first.state, arithmetic, more);
            assert(joined(first, rest).prints =~= rest.prints);
            match value.result {
                Err(_) => 1 + more,
                Ok(x) => {
                    let ready = State { scopes: value.scopes, tasks: below, values: values.push(x) };
                    lemma_driven_add(state, arithmetic, 1 + more, 1);
                    lemma_driven_one(ready, arithmetic, 0);
                    let last = turned(ready, arithmetic);
                    assert(ready.tasks.drop_last() =~= tasks);
                    assert(ready.values.take(ready.values.len() - 1) =~= values);
                    assert(joined(last, quiet(last.state)).prints =~= last.prints);
                    assert(joined(rest, last).prints =~= last.prints);
                    if !x.truthy() {
                        1 + more + 1
                    } else {
                        let again = tasks.push(Task::Execute(statement));
                        lemma_push(tasks, Task::Execute(statement), 0);
                        let third = lemma_execute(
                            again,
                            values,
                            value.scopes,
                            &**body,
                            arithmetic,
                            (fuel - 1) as nat,
                        );
                        let round = outcome_of(&**body, value.scopes, arithmetic, (fuel - 1) as nat)->0;
                        lemma_driven_add(state, arithmetic, 1 + more + 1, third);
                        let next = driven(last.state, arithmetic, third);
                        assert(joined(joined(rest, last), next).prints =~= next.prints);
                        match round.result {
                            Err(_) => 1 + more + 1 + third,
                            Ok(_) => {
                                let fourth = lemma_execute(
                                    tasks,
                                    values,
                                    round.scopes,
                                    statement,
                                    arithmetic,
                                    (fuel - 1) as nat,
                                );
                                lemma_driven_add(state, arithmetic, 1 + more + 1 + third, fourth);
                                1 + more + 1 + third + fourth
                            },
                        }
                    }
                },
            }
        },
        _ => 0,
    }
}

/// The machine executes statements one after another.
pub proof fn lemma_execute_all<'a>(
    tasks: Seq<Task<'a>>,
    values: Seq<Kind>,
    scopes: Seq<Scope>,
    statements: Seq<Stmt>,
    from: nat,
    arithmetic: Arithmetic,
    fuel: nat,
) -> (turns: nat)
    requires
        scopes.len() >= 1,
        from <= statements.len(),
        outcome_of_all(statements, from, scopes, arithmetic, fuel) is Some,
    ensures
        driven(
            State { scopes, tasks: tasks + pending::<'a>(statements, from), values },
            arithmetic,
            turns,
        ) == executed(
            tasks,
            values,
            scopes.len() - exits(tasks),
            outcome_of_all(statements, from, scopes, arithmetic, fuel)->0,
        ),
        outcome_of_all(statements, from, scopes, arithmetic, fuel)->0.result is Ok
            ==> outcome_of_all(statements, from, scopes, arithmetic, fuel)->0.scopes.len()
            == scopes.len(),
    decreases fuel, statements, statements.len() - from,
{
    lemma_pending(tasks, statements, from);
    if from >= statements.len() {
        0
    } else {
        let state = State { scopes, tasks: tasks + pending::<'a>(statements, from), values };
        let below = tasks + pending::<'a>(statements, from + 1);
        lemma_pending(tasks, statements, from + 1);
        let statement: &'a Stmt = &statements[from as int];
        let more = lemma_execute(below, values, scopes, statement, arithmetic, fuel);
        let first = outcome_of(statement, scopes, arithmetic, fuel)->0;
        match first.result {
            Err(_) => more,
            Ok(_) => {
                let third = lemma_execute_all(
                    tasks,
                    values,
                    first.scopes,
                    statements,
                    from + 1,
                    arithmetic,
                    fuel,
                );
                lemma_driven_add(state, arithmetic, more, third);
                more + third
            },
        }
    }
}

/// The machine runs a program as the program means. From the state in which a run
/// begins, with the global scope alone and the statements to execute, some number of turns
/// print what the statements print and lead to the end of the run: no task and no value is
/// left, and the global scope is as the statements leave it, up to the point of the error
/// where they fail.
pub proof fn lemma_run<'a>(
    scope: Scope,
    statements: Seq<Stmt>,
    arithmetic: Arithmetic,
    fuel: nat,
) -> (turns: nat)
    requires
        outcome_of_all(statements, 0, seq![scope], arithmetic, fuel) is Some,
    ensures
        ({
            let outcome = outcome_of_all(statements, 0, seq![scope], arithmetic, fuel)->0;
            let begun = State { scopes: seq![scope], tasks: executes::<'a>(statements), values: seq![] };
            driven(begun, arithmetic, turns) == Trace {
                state: State { scopes: outcome.scopes.take(1), tasks: seq![], values: seq![] },
                prints: outcome.prints,
                failure: match outcome.result {
                    Ok(_) => None,
                    Err(fault) => Some(fault),
                },
            }
        }),
{
    let none = Seq::<Task<'a>>::empty();
    lemma_pending(none, statements, 0);
    assert(none + executes::<'a>(statements) =~= executes::<'a>(statements));
    let turns = lemma_execute_all(none, seq![], seq![scope], statements, 0, arithmetic, fuel);
    let outcome = outcome_of_all(statements, 0, seq![scope], arithmetic, fuel)->0;
    if outcome.result is Ok {
        assert(outcome.scopes.take(1) =~= outcome.scopes);
    }
    turns
}

/// Whether the statement is a block of two statements: a declaration of a variable with
/// the literal `value`, and a print statement of that variable.
pub open spec fn declares_and_prints(block: &Stmt, value: Kind) -> bool {
    match block {
        Stmt::Block { statements } => statements@.len() == 2 && match (
            statements@[0],
            statements@[1],
        ) {
            (
                Stmt::Var { name, initializer: Expr::Literal { value: literal } },
                Stmt::Print { expression: Expr::Var { name: printed } },
            ) => literal@.kind == value && printed@.kind.text() == name@.kind.text(),
            _ => false,
        },
        _ => false,
    }
}

/// A variable that a block declares shadows an outer variable of its name inside the block
/// and is gone after it: a block that declares a variable with a literal and prints it
/// prints that literal, and leaves the scopes as they were.
pub proof fn lemma_block_shadows(
    block: &Stmt,
    value: Kind,
    scopes: Seq<Scope>,
    arithmetic: Arithmetic,
    fuel: nat,
)
    requires
        scopes.len() >= 1,
        declares_and_prints(block, value),
    ensures
        outcome_of(block, scopes, arithmetic, fuel) == Some(
            Executed { result: Ok(()), scopes, prints: seq![value] },
        ),
{
    if let Stmt::Block { statements } = block {
        if let Stmt::Var { name, initializer } = statements@[0] {
            let inside = scopes.push(Map::empty());
            let declared = defined(inside, name@.kind.text(), value);
            let first = outcome_of(&statements@[0], inside, arithmetic, fuel);
            assert(first == Some(Executed { result: Ok(()), scopes: declared, prints: seq![] }));
            let second = outcome_of(&statements@[1], declared, arithmetic, fuel);
            assert(second == Some(Executed { result: Ok(()), scopes: declared, prints: seq![value] }));
            reveal_with_fuel(outcome_of_all, 3);
            let inner = outcome_of_all(statements@, 0, inside, arithmetic, fuel);
            assert(Seq::<Kind>::empty() + (seq![value] + Seq::<Kind>::empty()) =~= seq![value]);
            assert(inner == Some(Executed { result: Ok(()), scopes: declared, prints: seq![value] }));
            assert(declared.drop_last() =~= scopes);
        }
    }
}

/// Reading a variable that no scope holds is an error, which carries the line of the name.
pub proof fn lemma_undefined_read(expression: &Expr, scopes: Seq<Scope>, arithmetic: Arithmetic)
    requires
        expression is Var,
        lookup(scopes, expression->Var_name@.kind.text()) is None,
    ensures
        value_of(expression, scopes, arithmetic) == (Evaluated {
            result: Err(("Undefined variable."@, expression->Var_name.line)),
            scopes,
        }),
{
}

/// Assigning to a variable that no scope holds is an error, which carries the line of the
/// name, and declares nothing.
pub proof fn lemma_undefined_assignment(
    expression: &Expr,
    scopes: Seq<Scope>,
    arithmetic: Arithmetic,
)
    requires
        expression is Assign,
        *expression->Assign_value is Literal,
        lookup(scopes, expression->Assign_name@.kind.text()) is None,
    ensures
        value_of(expression, scopes, arithmetic) == (Evaluated {
            result: Err(("Undefined variable."@, expression->Assign_name.line)),
            scopes,
        }),
{
    reveal_with_fuel(value_of, 2);
}

} // verus!
