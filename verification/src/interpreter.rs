//! The interpreter: a machine that runs a program one step at a time.
//!
//! The library does not write output and does not compute with floating-point numbers, so
//! a run is shared between the machine and its caller. The caller calls `step` again and
//! again. Most steps ask nothing of it; a step may hand it a value to print, or two numbers
//! and an operation of arithmetic, whose result the caller hands in with the next step.
//! A run ends when a step reports that the program has finished or has failed.
//!
//! The machine keeps the work that is left on a stack of tasks, and the values that
//! expressions have produced and that tasks are still to use on a stack of values.

use vstd::prelude::*;
use vstd::string::*;
use crate::ast::{all_well_formed, stmt_views, Expr, Stmt};
use crate::environment::{
    assigned, defined, lemma_assigned_len, lemma_assigned_unknown, lookup, Environment, Scope,
};
use crate::number::{
    negate, negated, number_le, number_less, number_less_equal, number_lt,
};
use crate::tokens::{values_equal, Kind, Token, TokenType, TokenView};

verus! {

/// An error of a running program, with its message and a line of the source text.
#[derive(Debug, PartialEq)]
pub enum InterpreterError {
    RuntimeError(String, usize),
}

impl View for InterpreterError {
    type V = (Seq<char>, usize);

    open spec fn view(&self) -> (Seq<char>, usize) {
        match self {
            InterpreterError::RuntimeError(message, line) => (message@, *line),
        }
    }
}

/// The operations on two numbers that the machine leaves to its caller.
#[derive(Debug, Clone, Copy, PartialEq, Eq)]
pub enum Operation {
    Subtract,
    Divide,
    Multiply,
    Add,
}

/// What a step asks of the caller.
#[derive(Debug, PartialEq)]
pub enum Action {
    /// Nothing: the run goes on with the next step.
    Continue,
    /// To write the value as one line of output.
    Print(TokenType),
    /// To apply the operation to the two numbers, as doubles, and to hand the bits of the
    /// result in with the next step.
    Compute { operation: Operation, left: u64, right: u64 },
    /// Nothing: the program has been run to its end.
    Finished,
    /// Nothing: the program has failed, and what was left of it is given up.
    Failed(InterpreterError),
}

/// The mathematical value of an `Action`.
pub enum ActionView {
    Continue,
    Print(Kind),
    Compute { operation: Operation, left: u64, right: u64 },
    Finished,
    Failed(Seq<char>, usize),
}

impl View for Action {
    type V = ActionView;

    open spec fn view(&self) -> ActionView {
        match self {
            Action::Continue => ActionView::Continue,
            Action::Print(value) => ActionView::Print(value@),
            Action::Compute { operation, left, right } => ActionView::Compute {
                operation: *operation,
                left: *left,
                right: *right,
            },
            Action::Finished => ActionView::Finished,
            Action::Failed(error) => ActionView::Failed(error@.0, error@.1),
        }
    }
}

/// A piece of work that is left to do.
#[derive(Clone, Copy)]
pub enum Task<'a> {
    /// To execute a statement.
    Execute(&'a Stmt),
    /// To evaluate an expression and put its value on the stack of values.
    Evaluate(&'a Expr),
    /// To drop the value of an expression statement.
    Discard,
    /// To print the value of a print statement.
    Print,
    /// To declare a variable with the value of its initializer.
    Define(&'a Token),
    /// To go on with one branch of an `if` statement, by the value of its condition.
    Branch(&'a Stmt),
    /// To go round a `while` statement once more or to leave it, by the value of its
    /// condition.
    Repeat(&'a Stmt),
    /// To leave the scope of a block.
    ExitScope,
    /// To apply an operator to the value of its operand.
    Unary(&'a Token),
    /// To apply an operator to the values of its two operands.
    Binary(&'a Token),
    /// To assign the value of the right-hand side to a variable. The value stays, as the
    /// value of the assignment.
    Assign(&'a Token),
    /// To decide by the value of the left operand of `and` or `or` whether the right
    /// operand is evaluated.
    Logical(&'a Token, &'a Expr),
}

impl<'a> Task<'a> {
    /// The number of values that the task takes from the stack.
    pub open spec fn takes(self) -> nat {
        match self {
            Task::Execute(_) | Task::Evaluate(_) | Task::ExitScope => 0,
            Task::Binary(_) => 2,
            _ => 1,
        }
    }

    /// The number of values that the task and the tasks it gives rise to leave on the stack.
    pub open spec fn gives(self) -> nat {
        match self {
            Task::Evaluate(_) | Task::Unary(_) | Task::Binary(_) | Task::Assign(_) | Task::Logical(
                _,
                _,
            ) => 1,
            _ => 0,
        }
    }

    /// Whether the task holds what it is meant to hold: trees that the grammar can produce,
    /// an operator that the task can apply, a statement of the kind that the task goes
    /// on with.
    pub open spec fn well_formed(self) -> bool {
        match self {
            Task::Execute(statement) => statement@.well_formed(),
            Task::Evaluate(expression) => expression@.well_formed(),
            Task::Define(name) => name@.kind is Identifier,
            Task::Branch(statement) => statement is If && statement@.well_formed(),
            Task::Repeat(statement) => statement is While && statement@.well_formed(),
            Task::Unary(operator) => operator@.kind.is_unary_operator(),
            Task::Binary(operator) => operator@.kind.is_binary_operator(),
            Task::Assign(name) => name@.kind is Identifier,
            Task::Logical(operator, right) => operator@.kind.is_logical_operator()
                && right@.well_formed(),
            _ => true,
        }
    }
}

/// The number of scopes that the tasks are still to leave.
pub open spec fn exits(tasks: Seq<Task>) -> nat
    decreases tasks.len(),
{
    if tasks.len() == 0 {
        0
    } else if tasks.last() is ExitScope {
        1 + exits(tasks.drop_last())
    } else {
        exits(tasks.drop_last())
    }
}

/// Whether a stack of `count` values is what the tasks expect: each task in its turn,
/// from the last of the sequence down, finds the values that it takes, and none is left
/// at the end.
pub open spec fn fits(tasks: Seq<Task>, count: int) -> bool
    decreases tasks.len(),
{
    if tasks.len() == 0 {
        count == 0
    } else {
        let task = tasks.last();
        count >= task.takes() && fits(tasks.drop_last(), count - task.takes() + task.gives())
    }
}

/// The tasks that execute the statements in their order: the first statement is the last
/// of the tasks, which is the next to be taken up.
pub open spec fn executes<'a>(statements: Seq<Stmt>) -> Seq<Task<'a>> {
    Seq::new(statements.len(), |i: int| Task::Execute(&statements[statements.len() - 1 - i]))
}

/// The state of a run: the scopes of the environment, innermost last; the tasks, the next
/// one last; and the values, the newest last.
pub struct State<'a> {
    pub scopes: Seq<Scope>,
    pub tasks: Seq<Task<'a>>,
    pub values: Seq<Kind>,
}

impl<'a> State<'a> {
    /// Whether the state is one that a run can be in: the tasks are well formed and find
    /// their values, and the scopes are the global one and those that the tasks will leave.
    pub open spec fn well_formed(self) -> bool {
        &&& forall|i: int| 0 <= i < self.tasks.len() ==> (#[trigger] self.tasks[i]).well_formed()
        &&& fits(self.tasks, self.values.len() as int)
        &&& self.scopes.len() == 1 + exits(self.tasks)
    }

    /// The state without its next task.
    pub open spec fn rest(self) -> State<'a> {
        State { tasks: self.tasks.drop_last(), ..self }
    }

    /// The state with one more task, the next to be taken up.
    pub open spec fn queue(self, task: Task<'a>) -> State<'a> {
        State { tasks: self.tasks.push(task), ..self }
    }

    /// The state with one more value.
    pub open spec fn with(self, value: Kind) -> State<'a> {
        State { values: self.values.push(value), ..self }
    }

    /// The state without its newest `n` values.
    pub open spec fn without(self, n: int) -> State<'a> {
        State { values: self.values.take(self.values.len() - n), ..self }
    }

    /// The newest value but `n`.
    pub open spec fn value(self, n: int) -> Kind {
        self.values[self.values.len() - 1 - n]
    }

    /// The state after a failure: the scopes that the tasks were still to leave are left,
    /// and no task and no value remains.
    pub open spec fn given_up(self) -> State<'a> {
        State {
            scopes: self.scopes.take(self.scopes.len() - exits(self.tasks)),
            tasks: Seq::empty(),
            values: Seq::empty(),
        }
    }
}

/// The outcome of a step that fails.
pub open spec fn failure<'a>(state: State<'a>, message: Seq<char>, line: usize) -> (
    State<'a>,
    ActionView,
) {
    (state.given_up(), ActionView::Failed(message, line))
}

/// The outcome of a step that asks nothing of the caller.
pub open spec fn proceed<'a>(state: State<'a>) -> (State<'a>, ActionView) {
    (state, ActionView::Continue)
}

/// The operation that the caller computes for an operator, where it is one of arithmetic.
pub open spec fn operation_of(kind: Kind) -> Option<Operation> {
    match kind {
        Kind::Minus => Some(Operation::Subtract),
        Kind::Slash => Some(Operation::Divide),
        Kind::Star => Some(Operation::Multiply),
        Kind::Plus => Some(Operation::Add),
        _ => None,
    }
}

/// The truth value of a comparison of two numbers: of `>`, `>=` or `<`, and else of `<=`.
pub open spec fn holds_between(kind: Kind, left: u64, right: u64) -> bool {
    match kind {
        Kind::Greater => number_lt(right, left),
        Kind::GreaterEqual => number_le(right, left),
        Kind::Less => number_lt(left, right),
        _ => number_le(left, right),
    }
}

/// A statement is taken up: the tasks that carry it out take its place.
pub open spec fn execute<'a>(state: State<'a>, statement: &'a Stmt) -> State<'a> {
    match statement {
        Stmt::Expression { expression } => state.queue(Task::Discard).queue(
            Task::Evaluate(expression),
        ),
        Stmt::Print { expression } => state.queue(Task::Print).queue(Task::Evaluate(expression)),
        Stmt::Var { name, initializer } => state.queue(Task::Define(name)).queue(
            Task::Evaluate(initializer),
        ),
        Stmt::If { condition, .. } => state.queue(Task::Branch(statement)).queue(
            Task::Evaluate(condition),
        ),
        Stmt::While { condition, .. } => state.queue(Task::Repeat(statement)).queue(
            Task::Evaluate(condition),
        ),
        Stmt::Block { statements } => State {
            scopes: state.scopes.push(Map::empty()),
            tasks: state.tasks.push(Task::ExitScope) + executes(statements@),
            values: state.values,
        },
    }
}

/// An expression is taken up: a literal or a variable gives its value, any other
/// expression gives way to the tasks that evaluate its parts and then apply it. A variable
/// that no scope holds is an error, which carries the line of its name.
pub open spec fn evaluate<'a>(state: State<'a>, expression: &'a Expr) -> (State<'a>, ActionView) {
    match expression {
        Expr::Literal { value } => proceed(state.rest().with(value@.kind)),
        Expr::Grouping { expression } => proceed(state.rest().queue(Task::Evaluate(&**expression))),
        Expr::Unary { operator, right } => proceed(
            state.rest().queue(Task::Unary(operator)).queue(Task::Evaluate(&**right)),
        ),
        Expr::Binary { left, operator, right } => proceed(
            state.rest().queue(Task::Binary(operator)).queue(Task::Evaluate(&**right)).queue(
                Task::Evaluate(&**left),
            ),
        ),
        Expr::Logical { left, operator, right } => proceed(
            state.rest().queue(Task::Logical(operator, &**right)).queue(Task::Evaluate(&**left)),
        ),
        Expr::Var { name } => match lookup(state.scopes, name@.kind.text()) {
            Some(value) => proceed(state.rest().with(value)),
            None => failure(state, "Undefined variable."@, name.line),
        },
        Expr::Assign { name, value } => proceed(
            state.rest().queue(Task::Assign(name)).queue(Task::Evaluate(&**value)),
        ),
    }
}

/// The value of an operator applied to the value of its operand. `-` changes the sign
/// of a number and takes nothing else: on any other value it is an error, which carries
/// the line of the operator. Any other operator is `!`, which gives the opposite of the
/// truth value of any value.
pub open spec fn unary_value(operator: TokenView, operand: Kind) -> Result<
    Kind,
    (Seq<char>, usize),
> {
    if operator.kind is Minus {
        match operand {
            Kind::Number(bits) => Ok(Kind::Number(negated(bits))),
            _ => Err(("Operand must be a number."@, operator.line)),
        }
    } else {
        Ok(Kind::of_bool(!operand.truthy()))
    }
}

/// What comes of an operator and the values of its two operands.
pub enum Applied {
    /// A value.
    Value(Kind),
    /// An error, with its message and line.
    Fault(Seq<char>, usize),
    /// Arithmetic on two numbers, which is the caller's to compute.
    Arithmetic(Operation, u64, u64),
}

/// What comes of an operator and the values of its two operands.
///
/// `==` and `!=` take any two values. `+` takes two numbers or two strings. The other
/// operators take two numbers. Where the operands of another type are met, the error names
/// the left one if it is no number, else the right one; `+` has an error of its own. Each
/// error carries the line of the operator.
pub open spec fn binary_value(operator: TokenView, left: Kind, right: Kind) -> Applied {
    let kind = operator.kind;
    if kind.is_equality() {
        Applied::Value(Kind::of_bool(values_equal(left, right) == (kind is EqualEqual)))
    } else {
        match (left, right) {
            (Kind::Number(a), Kind::Number(b)) => match operation_of(kind) {
                Some(operation) => Applied::Arithmetic(operation, a, b),
                None => Applied::Value(Kind::of_bool(holds_between(kind, a, b))),
            },
            (Kind::String(a), Kind::String(b)) if kind is Plus => Applied::Value(
                Kind::String(a + b),
            ),
            _ => if kind is Plus {
                Applied::Fault("Cannot add these values."@, operator.line)
            } else if !(left is Number) {
                Applied::Fault("Left operand must be a number."@, operator.line)
            } else {
                Applied::Fault("Right operand must be a number."@, operator.line)
            },
        }
    }
}

/// Values of different types are never equal: `==` gives `false` for them and `!=` gives
/// `true`, whatever their truth values are.
pub proof fn lemma_different_types_unequal(operator: TokenView, left: Kind, right: Kind)
    requires
        operator.kind.is_equality(),
        left.class() != right.class(),
    ensures
        binary_value(operator, left, right) == Applied::Value(
            Kind::of_bool(operator.kind is BangEqual),
        ),
{
}

/// An operator is applied to the value of its operand, which it replaces.
pub open spec fn apply_unary<'a>(state: State<'a>, operator: &'a Token) -> (State<'a>, ActionView) {
    match unary_value(operator@, state.value(0)) {
        Ok(value) => proceed(state.rest().without(1).with(value)),
        Err((message, line)) => failure(state, message, line),
    }
}

/// An operator is applied to the values of its two operands, which it replaces.
///
/// Arithmetic on two numbers is the caller's: the step asks for it and changes nothing,
/// and the step that is handed the result puts it in the place of the operands.
pub open spec fn apply_binary<'a>(state: State<'a>, operator: &'a Token, reply: Option<u64>) -> (
    State<'a>,
    ActionView,
) {
    let rest = state.rest().without(2);
    match binary_value(operator@, state.value(1), state.value(0)) {
        Applied::Value(value) => proceed(rest.with(value)),
        Applied::Fault(message, line) => failure(state, message, line),
        Applied::Arithmetic(operation, left, right) => match reply {
            Some(bits) => proceed(rest.with(Kind::Number(bits))),
            None => (state, ActionView::Compute { operation, left, right }),
        },
    }
}

/// The value of the left operand of `and` or `or` decides: either it is the value of the
/// whole, or it is dropped and the right operand is evaluated in its place.
pub open spec fn apply_logical<'a>(state: State<'a>, operator: &'a Token, right: &'a Expr) -> State<
    'a,
> {
    if state.value(0).truthy() == (operator@.kind is Or) {
        state.rest()
    } else {
        state.rest().without(1).queue(Task::Evaluate(right))
    }
}

/// One step of a run: the next task is taken from the stack and carried out. `reply` is
/// the result of the arithmetic that the step before asked for, if it asked for any.
pub open spec fn step<'a>(state: State<'a>, reply: Option<u64>) -> (State<'a>, ActionView) {
    if state.tasks.len() == 0 {
        (state, ActionView::Finished)
    } else {
        match state.tasks.last() {
            Task::Execute(statement) => proceed(execute(state.rest(), statement)),
            Task::Evaluate(expression) => evaluate(state, expression),
            Task::Discard => proceed(state.rest().without(1)),
            Task::Print => (state.rest().without(1), ActionView::Print(state.value(0))),
            Task::Define(name) => proceed(
                State {
                    scopes: defined(state.scopes, name@.kind.text(), state.value(0)),
                    ..state.rest().without(1)
                },
            ),
            Task::Branch(statement) => match statement {
                Stmt::If { then_branch, else_branch, .. } => if state.value(0).truthy() {
                    proceed(state.rest().without(1).queue(Task::Execute(&**then_branch)))
                } else {
                    match else_branch {
                        Some(branch) => proceed(
                            state.rest().without(1).queue(Task::Execute(&**branch)),
                        ),
                        None => proceed(state.rest().without(1)),
                    }
                },
                _ => proceed(state.rest().without(1)),
            },
            Task::Repeat(statement) => match statement {
                Stmt::While { body, .. } => if state.value(0).truthy() {
                    proceed(
                        state.rest().without(1).queue(Task::Execute(statement)).queue(
                            Task::Execute(&**body),
                        ),
                    )
                } else {
                    proceed(state.rest().without(1))
                },
                _ => proceed(state.rest().without(1)),
            },
            Task::ExitScope => proceed(
                State { scopes: state.scopes.drop_last(), ..state.rest() },
            ),
            Task::Unary(operator) => apply_unary(state, operator),
            Task::Binary(operator) => apply_binary(state, operator, reply),
            Task::Assign(name) => match lookup(state.scopes, name@.kind.text()) {
                Some(_) => proceed(
                    State {
                        scopes: assigned(state.scopes, name@.kind.text(), state.value(0)),
                        ..state.rest()
                    },
                ),
                None => failure(state, "Undefined variable."@, name.line),
            },
            Task::Logical(operator, right) => proceed(apply_logical(state, operator, right)),
        }
    }
}

/// Steps of a run up to the first that asks something of the caller or ends the run: one
/// step at least, and `budget` steps at most. After that many steps that ask nothing the run
/// pauses, and the outcome is that of the last of them.
pub open spec fn advance<'a>(state: State<'a>, reply: Option<u64>, budget: nat) -> (
    State<'a>,
    ActionView,
)
    decreases budget,
{
    let (next, action) = step(state, reply);
    if action is Continue && budget > 1 {
        advance(next, None, (budget - 1) as nat)
    } else {
        (next, action)
    }
}

/// The kinds of a sequence of values, one for one.
pub open spec fn kinds(values: Seq<TokenType>) -> Seq<Kind> {
    Seq::new(values.len(), |i: int| values[i]@)
}

/// What the two operands of an operator are, as far as the operator cares.
#[derive(Clone, Copy)]
enum Operands {
    Numbers(u64, u64),
    Strings,
    Others { left_is_number: bool },
}

fn operands(left: &TokenType, right: &TokenType) -> (r: Operands)
    ensures
        match r {
            Operands::Numbers(a, b) => left@ == Kind::Number(a) && right@ == Kind::Number(b),
            Operands::Strings => left@ is String && right@ is String,
            Operands::Others { left_is_number } => {
                &&& !(left@ is Number && right@ is Number)
                &&& !(left@ is String && right@ is String)
                &&& left_is_number == left@ is Number
            },
        },
{
    match (left, right) {
        (TokenType::Number(a), TokenType::Number(b)) => Operands::Numbers(*a, *b),
        (TokenType::String(_), TokenType::String(_)) => Operands::Strings,
        (TokenType::Number(_), _) => Operands::Others { left_is_number: true },
        _ => Operands::Others { left_is_number: false },
    }
}

fn operation(token_type: &TokenType) -> (r: Option<Operation>)
    ensures
        r == operation_of(token_type@),
{
    match token_type {
        TokenType::Minus => Some(Operation::Subtract),
        TokenType::Slash => Some(Operation::Divide),
        TokenType::Star => Some(Operation::Multiply),
        TokenType::Plus => Some(Operation::Add),
        _ => None,
    }
}

fn compare(token_type: &TokenType, left: u64, right: u64) -> (r: bool)
    ensures
        r == holds_between(token_type@, left, right),
{
    match token_type {
        TokenType::Greater => number_less(right, left),
        TokenType::GreaterEqual => number_less_equal(right, left),
        TokenType::Less => number_less(left, right),
        _ => number_less_equal(left, right),
    }
}

/// The text of an identifier.
fn name_of(token: &Token) -> (r: &str)
    requires
        token@.kind is Identifier,
    ensures
        r@ == token@.kind.text(),
{
    match &token.token_type {
        TokenType::Identifier(text) => text.as_str(),
        _ => vstd::pervasive::unreached(),
    }
}

/// The state of the language between runs: the global scope with its variables.
pub struct Interpreter {
    environment: Environment,
}

impl View for Interpreter {
    type V = Scope;

    closed spec fn view(&self) -> Scope {
        self.environment@[0]
    }
}

/// A run of a program: an interpreter at work on the statements that it was given.
pub struct Run<'a> {
    environment: Environment,
    tasks: Vec<Task<'a>>,
    values: Vec<TokenType>,
}

impl<'a> View for Run<'a> {
    type V = State<'a>;

    closed spec fn view(&self) -> State<'a> {
        State { scopes: self.environment@, tasks: self.tasks@, values: kinds(self.values@) }
    }
}

impl Default for Interpreter {
    /// An interpreter with no variables.
    fn default() -> (r: Self)
        ensures
            r.well_formed(),
            r@ == Map::<Seq<char>, Kind>::empty(),
    {
        Interpreter::new()
    }
}

impl Interpreter {
    /// Whether the interpreter holds the global scope and no other.
    pub closed spec fn well_formed(&self) -> bool {
        self.environment@.len() == 1
    }

    /// An interpreter with no variables.
    pub fn new() -> (r: Self)
        ensures
            r.well_formed(),
            r@ == Map::<Seq<char>, Kind>::empty(),
    {
        Interpreter { environment: Environment::new(None) }
    }

    /// Begins a run of the statements. Nothing is executed before the first step.
    pub fn interpret<'a>(self, statements: &'a Vec<Stmt>) -> (r: Run<'a>)
        requires
            self.well_formed(),
            all_well_formed(stmt_views(statements@)),
        ensures
            r.well_formed(),
            r@ == (State { scopes: seq![self@], tasks: executes(statements@), values: seq![] }),
    {
        let mut run = Run { environment: self.environment, tasks: Vec::new(), values: Vec::new() };
        proof {
            assert(run@.scopes =~= seq![self@]);
            assert(run@.values =~= Seq::<Kind>::empty());
            assert forall|i: int| 0 <= i < statements@.len() implies (#[trigger] statements@[i])@.well_formed() by {
                assert(stmt_views(statements@)[i].well_formed());
            }
        }
        run.queue_all(statements);
        proof {
            assert(run@.tasks =~= executes(statements@));
            lemma_fits_executes(Seq::empty(), statements@, 0);
        }
        run
    }
}

impl<'a> Run<'a> {
    /// Whether the run is in a state that a run can be in.
    pub open spec fn well_formed(&self) -> bool {
        self@.well_formed()
    }

    /// Puts the tasks that execute the statements on the stack, the first statement last.
    fn queue_all(&mut self, statements: &'a Vec<Stmt>)
        ensures
            final(self).environment == old(self).environment,
            final(self).values == old(self).values,
            final(self).tasks@ == old(self).tasks@ + executes(statements@),
    {
        let mut i: usize = statements.len();
        while i > 0
            invariant
                i <= statements.len(),
                self.environment == old(self).environment,
                self.values == old(self).values,
                self.tasks@ == old(self).tasks@ + executes::<'a>(statements@).take(
                    statements.len() - i,
                ),
            decreases i,
        {
            i = i - 1;
            self.tasks.push(Task::Execute(&statements[i]));
            proof {
                let all = executes::<'a>(statements@);
                assert(all.take(statements.len() - i) =~= all.take(statements.len() - i - 1).push(
                    all[statements.len() - i - 1],
                ));
            }
        }
        proof {
            let all = executes::<'a>(statements@);
            assert(all.take(statements.len() as int) =~= all);
        }
    }

    /// Takes the newest value from the stack.
    fn pop_value(&mut self) -> (r: TokenType)
        requires
            old(self).values@.len() > 0,
        ensures
            final(self).environment == old(self).environment,
            final(self).tasks == old(self).tasks,
            final(self).values@ == old(self).values@.drop_last(),
            r == old(self).values@.last(),
            final(self)@ == old(self)@.without(1),
            r@ == old(self)@.value(0),
    {
        let value = self.values.pop().unwrap();
        proof {
            assert(self@.values =~= old(self)@.without(1).values);
        }
        value
    }

    /// Puts a value on the stack.
    fn push_value(&mut self, value: TokenType)
        ensures
            final(self).environment == old(self).environment,
            final(self).tasks == old(self).tasks,
            final(self).values@ == old(self).values@.push(value),
            final(self)@ == old(self)@.with(value@),
    {
        self.values.push(value);
        proof {
            assert(self@.values =~= old(self)@.with(value@).values);
        }
    }

    /// Takes the next task from the stack.
    fn pop_task(&mut self)
        requires
            old(self).tasks@.len() > 0,
        ensures
            final(self).environment == old(self).environment,
            final(self).values == old(self).values,
            final(self).tasks@ == old(self).tasks@.drop_last(),
            final(self)@ == old(self)@.rest(),
    {
        self.tasks.pop();
    }

    /// Puts a task on the stack.
    fn queue(&mut self, task: Task<'a>)
        ensures
            final(self).environment == old(self).environment,
            final(self).values == old(self).values,
            final(self).tasks@ == old(self).tasks@.push(task),
            final(self)@ == old(self)@.queue(task),
    {
        self.tasks.push(task);
    }

    /// Gives up what is left of the program: leaves the scopes that the tasks were still
    /// to leave, and drops the tasks and the values.
    fn give_up(&mut self, message: &str, line: usize) -> (r: Action)
        requires
            old(self)@.scopes.len() == 1 + exits(old(self)@.tasks),
        ensures
            (final(self)@, r@) == failure(old(self)@, message@, line),
    {
        while self.tasks.len() > 0
            invariant
                old(self).environment@.len() == 1 + exits(old(self).tasks@),
                self.environment@.len() == 1 + exits(self.tasks@),
                exits(self.tasks@) <= exits(old(self).tasks@),
                self.environment@ == old(self).environment@.take(
                    old(self).environment@.len() - (exits(old(self).tasks@) - exits(self.tasks@)),
                ),
            decreases self.tasks@.len(),
        {
            let ghost before = self.tasks@;
            proof {
                lemma_push(before.drop_last(), before.last(), 0);
                assert(before =~= before.drop_last().push(before.last()));
            }
            match self.tasks.pop() {
                Some(Task::ExitScope) => {
                    self.environment.exit_scope();
                    proof {
                        assert(self.environment@ =~= old(self).environment@.take(
                            old(self).environment@.len() - (exits(old(self).tasks@) - exits(
                                self.tasks@,
                            )),
                        ));
                    }
                },
                _ => {},
            }
        }
        self.values = Vec::new();
        proof {
            assert(self@.values =~= Seq::<Kind>::empty());
            assert(self@.tasks =~= Seq::<Task<'a>>::empty());
        }
        Action::Failed(InterpreterError::RuntimeError(String::from_str(message), line))
    }

    /// Takes up a statement.
    fn execute(&mut self, statement: &'a Stmt)
        ensures
            final(self)@ == execute(old(self)@, statement),
    {
        match statement {
            Stmt::Expression { expression } => {
                self.queue(Task::Discard);
                self.queue(Task::Evaluate(expression));
            },
            Stmt::Print { expression } => {
                self.queue(Task::Print);
                self.queue(Task::Evaluate(expression));
            },
            Stmt::Var { name, initializer } => {
                self.queue(Task::Define(name));
                self.queue(Task::Evaluate(initializer));
            },
            Stmt::If { condition, .. } => {
                self.queue(Task::Branch(statement));
                self.queue(Task::Evaluate(condition));
            },
            Stmt::While { condition, .. } => {
                self.queue(Task::Repeat(statement));
                self.queue(Task::Evaluate(condition));
            },
            Stmt::Block { statements } => {
                self.environment.enter_scope();
                self.queue(Task::ExitScope);
                self.queue_all(statements);
            },
        }
    }

    /// Takes up an expression. The task that asked for it is still on the stack.
    fn evaluate(&mut self, expression: &'a Expr) -> (r: Action)
        requires
            old(self)@.tasks.len() > 0,
            old(self)@.scopes.len() == 1 + exits(old(self)@.tasks),
            expression@.well_formed(),
        ensures
            (final(self)@, r@) == evaluate(old(self)@, expression),
    {
        match expression {
            Expr::Literal { value } => {
                self.pop_task();
                self.push_value(value.token_type.clone());
            },
            Expr::Grouping { expression } => {
                self.pop_task();
                self.queue(Task::Evaluate(&**expression));
            },
            Expr::Unary { operator, right } => {
                self.pop_task();
                self.queue(Task::Unary(operator));
                self.queue(Task::Evaluate(&**right));
            },
            Expr::Binary { left, operator, right } => {
                self.pop_task();
                self.queue(Task::Binary(operator));
                self.queue(Task::Evaluate(&**right));
                self.queue(Task::Evaluate(&**left));
            },
            Expr::Logical { left, operator, right } => {
                self.pop_task();
                self.queue(Task::Logical(operator, &**right));
                self.queue(Task::Evaluate(&**left));
            },
            Expr::Var { name } => {
                match self.environment.get(name_of(name)) {
                    Some(value) => {
                        self.pop_task();
                        self.push_value(value);
                    },
                    None => {
                        return self.give_up("Undefined variable.", name.line);
                    },
                }
            },
            Expr::Assign { name, value } => {
                self.pop_task();
                self.queue(Task::Assign(name));
                self.queue(Task::Evaluate(&**value));
            },
        }
        Action::Continue
    }

    /// Applies an operator to the value of its operand.
    fn apply_unary(&mut self, operator: &'a Token) -> (r: Action)
        requires
            old(self)@.tasks.len() > 0,
            old(self)@.values.len() > 0,
            old(self)@.scopes.len() == 1 + exits(old(self)@.tasks),
        ensures
            (final(self)@, r@) == apply_unary(old(self)@, operator),
    {
        let last = self.values.len() - 1;
        if matches!(operator.token_type, TokenType::Minus) {
            match &self.values[last] {
                TokenType::Number(bits) => {
                    let result = negate(*bits);
                    self.pop_task();
                    self.pop_value();
                    self.push_value(TokenType::Number(result));
                },
                _ => {
                    return self.give_up("Operand must be a number.", operator.line);
                },
            }
        } else {
            let truth = self.values[last].is_truthy();
            self.pop_task();
            self.pop_value();
            self.push_value(TokenType::from_bool(!truth));
        }
        Action::Continue
    }

    /// Puts a value in the place of the two operands of the next task, and takes the task
    /// from the stack.
    fn settle(&mut self, value: TokenType)
        requires
            old(self)@.tasks.len() > 0,
            old(self)@.values.len() >= 2,
        ensures
            final(self)@ == old(self)@.rest().without(2).with(value@),
    {
        self.pop_task();
        self.pop_value();
        self.pop_value();
        self.push_value(value);
        proof {
            assert(self@.values =~= old(self)@.rest().without(2).with(value@).values);
        }
    }

    /// Applies an operator to the values of its two operands.
    fn apply_binary(&mut self, operator: &'a Token, reply: Option<u64>) -> (r: Action)
        requires
            old(self)@.tasks.len() > 0,
            old(self)@.values.len() >= 2,
            old(self)@.scopes.len() == 1 + exits(old(self)@.tasks),
        ensures
            (final(self)@, r@) == apply_binary(old(self)@, operator, reply),
    {
        let n = self.values.len();
        let is_plus = matches!(operator.token_type, TokenType::Plus);
        if matches!(operator.token_type, TokenType::EqualEqual | TokenType::BangEqual) {
            let equal = self.values[n - 2].equals(&self.values[n - 1]);
            let wanted = matches!(operator.token_type, TokenType::EqualEqual);
            self.settle(TokenType::from_bool(equal == wanted));
            return Action::Continue;
        }
        match operands(&self.values[n - 2], &self.values[n - 1]) {
            Operands::Numbers(left, right) => {
                match operation(&operator.token_type) {
                    Some(operation) => match reply {
                        Some(bits) => {
                            self.settle(TokenType::Number(bits));
                        },
                        None => {
                            return Action::Compute { operation, left, right };
                        },
                    },
                    None => {
                        let truth = compare(&operator.token_type, left, right);
                        self.settle(TokenType::from_bool(truth));
                    },
                }
                Action::Continue
            },
            Operands::Strings => {
                if is_plus {
                    self.pop_task();
                    let right = self.pop_value();
                    let left = self.pop_value();
                    match (left, right) {
                        (TokenType::String(a), TokenType::String(b)) => {
                            self.push_value(TokenType::String(a.concat(b.as_str())));
                        },
                        _ => {
                            assert(false);
                        },
                    }
                    proof {
                        assert(self@.values =~= apply_binary(old(self)@, operator, reply).0.values);
                    }
                    Action::Continue
                } else {
                    self.give_up("Left operand must be a number.", operator.line)
                }
            },
            Operands::Others { left_is_number } => {
                if is_plus {
                    self.give_up("Cannot add these values.", operator.line)
                } else if !left_is_number {
                    self.give_up("Left operand must be a number.", operator.line)
                } else {
                    self.give_up("Right operand must be a number.", operator.line)
                }
            },
        }
    }

    /// Carries out the next task. `reply` is the result of the arithmetic that the step
    /// before asked for, if it asked for any; any other reply is not looked at.
    pub fn step(&mut self, reply: Option<u64>) -> (r: Action)
        requires
            old(self).well_formed(),
        ensures
            final(self).well_formed(),
            (final(self)@, r@) == step(old(self)@, reply),
    {
        proof {
            lemma_step_well_formed(self@, reply);
            lemma_fits_top(self@.tasks, self@.values.len() as int);
        }
        let n = self.tasks.len();
        if n == 0 {
            return Action::Finished;
        }
        let task = self.tasks[n - 1];
        assert(task.well_formed());
        match task {
            Task::Execute(statement) => {
                self.pop_task();
                self.execute(statement);
                Action::Continue
            },
            Task::Evaluate(expression) => self.evaluate(expression),
            Task::Discard => {
                self.pop_task();
                self.pop_value();
                Action::Continue
            },
            Task::Print => {
                self.pop_task();
                Action::Print(self.pop_value())
            },
            Task::Define(name) => {
                self.pop_task();
                let value = self.pop_value();
                self.environment.define(String::from_str(name_of(name)), value);
                Action::Continue
            },
            Task::Branch(statement) => {
                self.pop_task();
                let truth = self.pop_value().is_truthy();
                match statement {
                    Stmt::If { then_branch, else_branch, .. } => {
                        if truth {
                            self.queue(Task::Execute(&**then_branch));
                        } else {
                            match else_branch {
                                Some(branch) => {
                                    self.queue(Task::Execute(&**branch));
                                },
                                None => {},
                            }
                        }
                    },
                    _ => {},
                }
                Action::Continue
            },
            Task::Repeat(statement) => {
                self.pop_task();
                let truth = self.pop_value().is_truthy();
                match statement {
                    Stmt::While { body, .. } => {
                        if truth {
                            self.queue(Task::Execute(statement));
                            self.queue(Task::Execute(&**body));
                        }
                    },
                    _ => {},
                }
                Action::Continue
            },
            Task::ExitScope => {
                self.pop_task();
                self.environment.exit_scope();
                Action::Continue
            },
            Task::Unary(operator) => self.apply_unary(operator),
            Task::Binary(operator) => self.apply_binary(operator, reply),
            Task::Assign(name) => {
                let value = self.values[self.values.len() - 1].clone();
                match self.environment.assign(name_of(name), value) {
                    Some(_) => {
                        self.pop_task();
                        Action::Continue
                    },
                    None => {
                        proof {
                            lemma_assigned_unknown(
                                old(self)@.scopes,
                                name@.kind.text(),
                                old(self)@.value(0),
                            );
                            assert(self@ == old(self)@);
                        }
                        self.give_up("Undefined variable.", name.line)
                    },
                }
            },
            Task::Logical(operator, right) => {
                let truth = self.values[self.values.len() - 1].is_truthy();
                let is_or = matches!(operator.token_type, TokenType::Or);
                self.pop_task();
                if truth != is_or {
                    self.pop_value();
                    self.queue(Task::Evaluate(right));
                }
                Action::Continue
            },
        }
    }

    /// Carries out tasks up to the first that asks something of the caller or ends the run:
    /// one task at least, and `budget` tasks at most. `Continue` says that the budget was
    /// used up.
    pub fn advance(&mut self, reply: Option<u64>, budget: usize) -> (r: Action)
        requires
            old(self).well_formed(),
        ensures
            final(self).well_formed(),
            (final(self)@, r@) == advance(old(self)@, reply, budget as nat),
    {
        let mut action = self.step(reply);
        let mut left = budget;
        while left > 1 && matches!(action, Action::Continue)
            invariant
                self.well_formed(),
                advance(old(self)@, reply, budget as nat) == if action@ is Continue && left > 1 {
                    advance(self@, None, (left - 1) as nat)
                } else {
                    (self@, action@)
                },
            decreases left,
        {
            left = left - 1;
            action = self.step(None);
        }
        action
    }

    /// Ends the run, finished or not: leaves the scopes that the tasks were still to leave
    /// and hands back the interpreter with the global scope as the run has left it.
    pub fn finish(self) -> (r: Interpreter)
        requires
            self.well_formed(),
        ensures
            r.well_formed(),
            r@ == self@.scopes[0],
    {
        let mut run = self;
        run.give_up("", 0);
        Interpreter { environment: run.environment }
    }
}

/// A task on top finds its values exactly when it finds those that it takes and the tasks
/// below find theirs after it.
proof fn lemma_fits_top(tasks: Seq<Task>, count: int)
    requires
        fits(tasks, count),
    ensures
        tasks.len() > 0 ==> count >= tasks.last().takes(),
        count >= 0,
    decreases tasks.len(),
{
    if tasks.len() > 0 {
        lemma_fits_top(tasks.drop_last(), count - tasks.last().takes() + tasks.last().gives());
    }
}

/// One more task on the stack.
pub(crate) proof fn lemma_push(tasks: Seq<Task>, task: Task, count: int)
    ensures
        fits(tasks.push(task), count) == (count >= task.takes() && fits(
            tasks,
            count - task.takes() + task.gives(),
        )),
        exits(tasks.push(task)) == exits(tasks) + if task is ExitScope {
            1nat
        } else {
            0nat
        },
{
    assert(tasks.push(task).drop_last() =~= tasks);
}

/// Tasks that execute statements take and give no values and leave no scope.
proof fn lemma_fits_executes(tasks: Seq<Task>, statements: Seq<Stmt>, count: int)
    ensures
        fits(tasks + executes(statements), count) == fits(tasks, count),
        exits(tasks + executes(statements)) == exits(tasks),
    decreases statements.len(),
{
    let all = tasks + executes(statements);
    if statements.len() == 0 {
        assert(all =~= tasks);
    } else {
        let fewer = statements.drop_first();
        lemma_fits_executes(tasks, fewer, count);
        assert(all.drop_last() =~= tasks + executes(fewer));
        assert(all.last() is Execute);
    }
}

/// A step leaves a state that a run can be in.
pub proof fn lemma_step_well_formed(state: State, reply: Option<u64>)
    requires
        state.well_formed(),
    ensures
        step(state, reply).0.well_formed(),
{
    let after = step(state, reply).0;
    let count = state.values.len() as int;
    lemma_fits_top(state.tasks, count);
    if state.tasks.len() > 0 {
        let task = state.tasks.last();
        let rest = state.rest();
        assert(task.well_formed());
        assert(state.tasks =~= rest.tasks.push(task));
        lemma_push(rest.tasks, task, count);
        assert(state.given_up().well_formed());
        assert forall|i: int| 0 <= i < rest.tasks.len() implies (#[trigger] rest.tasks[i]).well_formed() by {
            assert(state.tasks[i].well_formed());
        }
        match task {
            Task::Execute(statement) => {
                lemma_execute_well_formed(rest, statement);
            },
            Task::Evaluate(expression) => {
                lemma_evaluate_well_formed(state, expression);
            },
            Task::Branch(statement) => {
                match statement {
                    Stmt::If { then_branch, else_branch, .. } => {
                        lemma_queue(rest.without(1), Task::Execute(&**then_branch), count - 1);
                        if let Some(branch) = else_branch {
                            lemma_queue(rest.without(1), Task::Execute(&**branch), count - 1);
                        }
                    },
                    _ => {},
                }
            },
            Task::Repeat(statement) => {
                match statement {
                    Stmt::While { body, .. } => {
                        lemma_queue(rest.without(1), Task::Execute(statement), count - 1);
                        lemma_queue(
                            rest.without(1).queue(Task::Execute(statement)),
                            Task::Execute(&**body),
                            count - 1,
                        );
                    },
                    _ => {},
                }
            },
            Task::Assign(name) => {
                lemma_assigned_len(state.scopes, name@.kind.text(), state.value(0));
            },
            Task::Logical(operator, right) => {
                lemma_queue(rest.without(1), Task::Evaluate(right), count - 1);
            },
            _ => {},
        }
    }
}

/// One more well-formed task on a stack of well-formed tasks.
proof fn lemma_queue(state: State, task: Task, count: int)
    requires
        forall|i: int| 0 <= i < state.tasks.len() ==> (#[trigger] state.tasks[i]).well_formed(),
        task.well_formed(),
    ensures
        forall|i: int|
            0 <= i < state.queue(task).tasks.len() ==> (#[trigger] state.queue(
                task,
            ).tasks[i]).well_formed(),
        fits(state.queue(task).tasks, count) == (count >= task.takes() && fits(
            state.tasks,
            count - task.takes() + task.gives(),
        )),
        exits(state.queue(task).tasks) == exits(state.tasks) + if task is ExitScope {
            1nat
        } else {
            0nat
        },
{
    lemma_push(state.tasks, task, count);
}

/// Taking up a well-formed statement keeps the state well formed.
proof fn lemma_execute_well_formed(state: State, statement: &Stmt)
    requires
        state.well_formed(),
        statement@.well_formed(),
    ensures
        execute(state, statement).well_formed(),
{
    let count = state.values.len() as int;
    match statement {
        Stmt::Expression { expression } => {
            lemma_queue(state, Task::Discard, count + 1);
            lemma_queue(state.queue(Task::Discard), Task::Evaluate(expression), count);
        },
        Stmt::Print { expression } => {
            lemma_queue(state, Task::Print, count + 1);
            lemma_queue(state.queue(Task::Print), Task::Evaluate(expression), count);
        },
        Stmt::Var { name, initializer } => {
            lemma_queue(state, Task::Define(name), count + 1);
            lemma_queue(state.queue(Task::Define(name)), Task::Evaluate(initializer), count);
        },
        Stmt::If { condition, .. } => {
            lemma_queue(state, Task::Branch(statement), count + 1);
            lemma_queue(state.queue(Task::Branch(statement)), Task::Evaluate(condition), count);
        },
        Stmt::While { condition, .. } => {
            lemma_queue(state, Task::Repeat(statement), count + 1);
            lemma_queue(state.queue(Task::Repeat(statement)), Task::Evaluate(condition), count);
        },
        Stmt::Block { statements } => {
            let after = execute(state, statement);
            lemma_queue(state, Task::ExitScope, count);
            lemma_fits_executes(
                state.tasks.push(Task::ExitScope),
                statements@,
                state.values.len() as int,
            );
            assert forall|i: int| 0 <= i < after.tasks.len() implies (#[trigger] after.tasks[i]).well_formed() by {
                if i > state.tasks.len() {
                    let j = statements@.len() - 1 - (i - state.tasks.len() - 1);
                    assert(statement@->Block_statements[j].well_formed());
                }
            }
        },
    }
}

/// Taking up a well-formed expression keeps the state well formed.
proof fn lemma_evaluate_well_formed(state: State, expression: &Expr)
    requires
        state.well_formed(),
        state.tasks.len() > 0,
        state.tasks.last() == Task::Evaluate(expression),
    ensures
        evaluate(state, expression).0.well_formed(),
{
    let rest = state.rest();
    let count = state.values.len() as int;
    assert(state.tasks.last().well_formed());
    assert(state.tasks =~= rest.tasks.push(state.tasks.last()));
    lemma_push(rest.tasks, state.tasks.last(), count);
    assert forall|i: int| 0 <= i < rest.tasks.len() implies (#[trigger] rest.tasks[i]).well_formed() by {
        assert(state.tasks[i].well_formed());
    }
    match expression {
        Expr::Grouping { expression } => {
            lemma_queue(rest, Task::Evaluate(&**expression), count);
        },
        Expr::Unary { operator, right } => {
            lemma_queue(rest, Task::Unary(operator), count + 1);
            lemma_queue(rest.queue(Task::Unary(operator)), Task::Evaluate(&**right), count);
        },
        Expr::Binary { left, operator, right } => {
            lemma_queue(rest, Task::Binary(operator), count + 2);
            lemma_queue(rest.queue(Task::Binary(operator)), Task::Evaluate(&**right), count + 1);
            lemma_queue(
                rest.queue(Task::Binary(operator)).queue(Task::Evaluate(&**right)),
                Task::Evaluate(&**left),
                count,
            );
        },
        Expr::Logical { left, operator, right } => {
            lemma_queue(rest, Task::Logical(operator, &**right), count + 1);
            lemma_queue(
                rest.queue(Task::Logical(operator, &**right)),
                Task::Evaluate(&**left),
                count,
            );
        },
        Expr::Assign { name, value } => {
            lemma_queue(rest, Task::Assign(name), count + 1);
            lemma_queue(rest.queue(Task::Assign(name)), Task::Evaluate(&**value), count);
        },
        _ => {},
    }
}

/// When a run has ended, by reaching the end of the program or by an error, no task and no
/// value is left and the environment holds the global scope alone: every scope that a
/// block had entered has been left.
pub proof fn lemma_ended(state: State, reply: Option<u64>)
    requires
        state.well_formed(),
        step(state, reply).1 is Finished || step(state, reply).1 is Failed,
    ensures
        step(state, reply).0.tasks.len() == 0,
        step(state, reply).0.values.len() == 0,
        step(state, reply).0.scopes.len() == 1,
{
    lemma_step_well_formed(state, reply);
    let after = step(state, reply).0;
    if after.tasks.len() > 0 {
        assert(state.tasks.len() > 0);
    }
}

} // verus!
