//! The parser: from tokens to statements, by recursive descent.
//!
//! ```text
//! program     -> declaration* Eof
//! declaration -> "var" varDecl | statement
//! varDecl     -> Identifier ("=" expression)? ";"
//! statement   -> exprStmt | printStmt | ifStmt | whileStmt | forStmt | block
//! ifStmt      -> "if" "(" expression ")" statement ("else" statement)?
//! whileStmt   -> "while" "(" expression ")" statement
//! forStmt     -> "for" "(" (varDecl | exprStmt | ";") expression? ";" expression? ")" statement
//! block       -> "{" declaration* "}"
//! expression  -> assignment
//! assignment  -> logic_or ("=" assignment)?
//! logic_or    -> logic_and ("or" logic_and)*
//! logic_and   -> equality ("and" equality)*
//! equality    -> comparison (("!=" | "==") comparison)*
//! comparison  -> term ((">" | ">=" | "<" | "<=") term)*
//! term        -> factor (("-" | "+") factor)*
//! factor      -> unary (("/" | "*") unary)*
//! unary       -> ("!" | "-") unary | primary
//! primary     -> "false" | "true" | "nil" | Number | String | Identifier | "(" expression ")"
//! ```
//!
//! The grammar is stated below as functions from a sequence of tokens and a position to a
//! tree and the number of tokens used. The parser stops at the first error. It calls itself
//! once for each level at which expressions and statements are nested in the text, and sets
//! no limit to that depth.

use vstd::prelude::*;
use vstd::string::*;
use crate::ast::{all_well_formed, stmt_views, Expr, ExprView, Stmt, StmtView};
use crate::tokens::{token_views, Kind, Token, TokenType, TokenView};

verus! {

/// Why a sequence of tokens could not be parsed.
#[derive(Debug, PartialEq)]
pub enum ParseError {
    /// An expression was expected at a token that begins none, with the token's line.
    ExpectedExpression(usize),
    /// Any other syntax error, with its message.
    Panic(String),
}

/// The mathematical value of a `ParseError`.
pub enum ParseFault {
    ExpectedExpression(usize),
    Panic(Seq<char>),
}

impl View for ParseError {
    type V = ParseFault;

    open spec fn view(&self) -> ParseFault {
        match self {
            ParseError::ExpectedExpression(line) => ParseFault::ExpectedExpression(*line),
            ParseError::Panic(message) => ParseFault::Panic(message@),
        }
    }
}

/// What a grammar rule makes of the tokens from some position on: a tree or an error, and
/// the number of tokens that the parser has moved over when it returns.
pub struct Parsed<T> {
    pub result: Result<T, ParseFault>,
    pub used: nat,
}

/// A rule that succeeded.
pub open spec fn done<T>(value: T, used: nat) -> Parsed<T> {
    Parsed { result: Ok(value), used }
}

/// A rule that failed with a message.
pub open spec fn fail<T>(message: Seq<char>, used: nat) -> Parsed<T> {
    Parsed { result: Err(ParseFault::Panic(message)), used }
}

/// A rule that failed with the error of one of its parts.
pub open spec fn stop<T>(fault: ParseFault, used: nat) -> Parsed<T> {
    Parsed { result: Err(fault), used }
}

/// The same outcome after `n` more tokens in front.
pub open spec fn after<T>(n: nat, parsed: Parsed<T>) -> Parsed<T> {
    Parsed { result: parsed.result, used: n + parsed.used }
}

/// Whether no token is left at `pos`: the position is outside the sequence or holds `Eof`.
pub open spec fn at_end(tokens: Seq<TokenView>, pos: int) -> bool {
    pos < 0 || pos >= tokens.len() || tokens[pos].kind is Eof
}

/// The number of tokens from `pos` on.
pub open spec fn remaining(tokens: Seq<TokenView>, pos: int) -> nat {
    if pos < tokens.len() {
        (tokens.len() - pos) as nat
    } else {
        0
    }
}

/// Whether the token at `pos` is of the same variant as `kind`.
pub open spec fn check(tokens: Seq<TokenView>, pos: int, kind: Kind) -> bool {
    !at_end(tokens, pos) && tokens[pos].kind.class() == kind.class()
}

/// The line that an error at `pos` reports: that of the token there, or of the last token
/// when the position is past them all.
pub open spec fn line_at(tokens: Seq<TokenView>, pos: int) -> usize {
    if 0 <= pos < tokens.len() {
        tokens[pos].line
    } else if tokens.len() > 0 {
        tokens.last().line
    } else {
        0
    }
}

/// Whether a token of this kind is a binary operator of the given tier. Tier 0 binds
/// loosest.
pub open spec fn is_operator(tier: nat, kind: Kind) -> bool {
    if tier == 0 {
        kind is Or
    } else if tier == 1 {
        kind is And
    } else if tier == 2 {
        kind is BangEqual || kind is EqualEqual
    } else if tier == 3 {
        kind is Greater || kind is GreaterEqual || kind is Less || kind is LessEqual
    } else if tier == 4 {
        kind is Minus || kind is Plus
    } else {
        kind is Slash || kind is Star
    }
}

/// The node that joins two operands of a tier: `Logical` for `or` and `and`, `Binary` for
/// the rest.
pub open spec fn join(tier: nat, left: ExprView, operator: TokenView, right: ExprView) -> ExprView {
    if tier <= 1 {
        ExprView::Logical { left: Box::new(left), operator, right: Box::new(right) }
    } else {
        ExprView::Binary { left: Box::new(left), operator, right: Box::new(right) }
    }
}

/// The rank of a tier among the rules that may follow one another without a token
/// between them.
pub open spec fn tier_rank(tier: nat) -> nat {
    if tier >= 5 {
        2
    } else {
        (2 * (6 - tier)) as nat
    }
}

/// primary -> "false" | "true" | "nil" | Number | String | Identifier | "(" expression ")"
pub open spec fn primary(tokens: Seq<TokenView>, pos: int) -> Parsed<ExprView>
    decreases remaining(tokens, pos), 0nat,
{
    if at_end(tokens, pos) {
        stop(ParseFault::ExpectedExpression(line_at(tokens, pos)), 0)
    } else if tokens[pos].kind.is_literal() {
        done(ExprView::Literal { value: tokens[pos] }, 1)
    } else if tokens[pos].kind is Identifier {
        done(ExprView::Var { name: tokens[pos] }, 1)
    } else if tokens[pos].kind is LeftParen {
        let inner = assignment(tokens, pos + 1);
        match inner.result {
            Err(fault) => stop(fault, 1 + inner.used),
            Ok(expression) => if check(tokens, pos + 1 + inner.used, Kind::RightParen) {
                done(ExprView::Grouping { expression: Box::new(expression) }, inner.used + 2)
            } else {
                fail("Expect ')' after expression."@, 1 + inner.used)
            },
        }
    } else {
        stop(ParseFault::ExpectedExpression(line_at(tokens, pos)), 0)
    }
}

/// unary -> ("!" | "-") unary | primary
pub open spec fn unary(tokens: Seq<TokenView>, pos: int) -> Parsed<ExprView>
    decreases remaining(tokens, pos), 1nat,
{
    if check(tokens, pos, Kind::Bang) || check(tokens, pos, Kind::Minus) {
        let operand = unary(tokens, pos + 1);
        match operand.result {
            Err(fault) => stop(fault, 1 + operand.used),
            Ok(right) => done(
                ExprView::Unary { operator: tokens[pos], right: Box::new(right) },
                1 + operand.used,
            ),
        }
    } else {
        primary(tokens, pos)
    }
}

/// An operand of a tier: an expression of the next tier, or a unary expression below the
/// last.
pub open spec fn operand(tokens: Seq<TokenView>, pos: int, tier: nat) -> Parsed<ExprView>
    decreases remaining(tokens, pos), tier_rank(tier),
{
    if tier >= 5 {
        unary(tokens, pos)
    } else {
        binary(tokens, pos, tier + 1)
    }
}

/// One tier of binary operators: operand (operator operand)*, joined to the left.
pub open spec fn binary(tokens: Seq<TokenView>, pos: int, tier: nat) -> Parsed<ExprView>
    decreases remaining(tokens, pos), tier_rank(tier) + 1,
{
    let first = operand(tokens, pos, tier);
    match first.result {
        Err(_) => first,
        Ok(left) => after(first.used, binary_rest(tokens, pos + first.used, tier, left)),
    }
}

/// What follows the operand `left` in a tier: (operator operand)*.
pub open spec fn binary_rest(tokens: Seq<TokenView>, pos: int, tier: nat, left: ExprView) -> Parsed<
    ExprView,
>
    decreases remaining(tokens, pos), 0nat,
{
    if !at_end(tokens, pos) && is_operator(tier, tokens[pos].kind) {
        let next = operand(tokens, pos + 1, tier);
        match next.result {
            Err(fault) => stop(fault, 1 + next.used),
            Ok(right) => after(
                1 + next.used,
                binary_rest(
                    tokens,
                    pos + 1 + next.used,
                    tier,
                    join(tier, left, tokens[pos], right),
                ),
            ),
        }
    } else {
        done(left, 0)
    }
}

/// assignment -> logic_or ("=" assignment)?
///
/// What stands left of the equals sign must be a variable.
pub open spec fn assignment(tokens: Seq<TokenView>, pos: int) -> Parsed<ExprView>
    decreases remaining(tokens, pos), 14nat,
{
    let target = binary(tokens, pos, 0);
    match target.result {
        Err(_) => target,
        Ok(left) => if check(tokens, pos + target.used, Kind::Equal) {
            let right = assignment(tokens, pos + target.used + 1);
            let used = target.used + 1 + right.used;
            match right.result {
                Err(fault) => stop(fault, used),
                Ok(value) => match left {
                    ExprView::Var { name } => done(
                        ExprView::Assign { name, value: Box::new(value) },
                        used,
                    ),
                    _ => fail("Invalid assignment target."@, used),
                },
            }
        } else {
            target
        },
    }
}

/// expression -> assignment
pub open spec fn expression(tokens: Seq<TokenView>, pos: int) -> Parsed<ExprView> {
    assignment(tokens, pos)
}

/// An expression and the semicolon that ends it.
pub open spec fn terminated(tokens: Seq<TokenView>, pos: int, message: Seq<char>) -> Parsed<
    ExprView,
> {
    let value = expression(tokens, pos);
    match value.result {
        Err(_) => value,
        Ok(_) => if check(tokens, pos + value.used, Kind::Semicolon) {
            after(1, value)
        } else {
            fail(message, value.used)
        },
    }
}

/// exprStmt -> expression ";"
pub open spec fn expression_statement(tokens: Seq<TokenView>, pos: int) -> Parsed<StmtView> {
    let value = terminated(tokens, pos, "Expect ';' after value."@);
    match value.result {
        Err(fault) => stop(fault, value.used),
        Ok(expression) => done(StmtView::Expression { expression }, value.used),
    }
}

/// printStmt -> "print" expression ";", from the token after `print`.
pub open spec fn print_statement(tokens: Seq<TokenView>, pos: int) -> Parsed<StmtView> {
    let value = terminated(tokens, pos, "Expect ';' after value."@);
    match value.result {
        Err(fault) => stop(fault, value.used),
        Ok(expression) => done(StmtView::Print { expression }, value.used),
    }
}

/// The literal `nil`, as the parser supplies it for a variable without an initializer.
pub open spec fn nil_literal() -> ExprView {
    ExprView::Literal { value: TokenView { kind: Kind::Nil, line: 0 } }
}

/// The literal `true`, as the parser supplies it for a loop without a condition.
pub open spec fn true_literal() -> ExprView {
    ExprView::Literal { value: TokenView { kind: Kind::True, line: 0 } }
}

/// varDecl -> Identifier ("=" expression)? ";", from the token after `var`.
pub open spec fn var_declaration(tokens: Seq<TokenView>, pos: int) -> Parsed<StmtView> {
    if !check(tokens, pos, Kind::Identifier(Seq::empty())) {
        fail("Expect variable name."@, 0)
    } else if check(tokens, pos + 1, Kind::Equal) {
        let value = after(
            2,
            terminated(tokens, pos + 2, "Expect ';' after variable declaration."@),
        );
        match value.result {
            Err(fault) => stop(fault, value.used),
            Ok(initializer) => done(StmtView::Var { name: tokens[pos], initializer }, value.used),
        }
    } else if check(tokens, pos + 1, Kind::Semicolon) {
        done(StmtView::Var { name: tokens[pos], initializer: nil_literal() }, 2)
    } else {
        fail("Expect ';' after variable declaration."@, 1)
    }
}

/// Whether a statement may begin with a token of this kind: where the parser takes up
/// again after an error.
pub open spec fn begins_statement(kind: Kind) -> bool {
    kind is Class || kind is Fun || kind is Var || kind is For || kind is If || kind is While
        || kind is Print || kind is Return
}

/// The number of tokens from `pos` to the next statement boundary: the token after a
/// semicolon, a token that begins a statement, or the end.
pub open spec fn boundary(tokens: Seq<TokenView>, pos: int) -> nat
    decreases remaining(tokens, pos),
{
    if at_end(tokens, pos) {
        0
    } else if pos >= 1 && tokens[pos - 1].kind is Semicolon {
        0
    } else if begins_statement(tokens[pos].kind) {
        0
    } else {
        1 + boundary(tokens, pos + 1)
    }
}

/// The number of tokens that the parser skips after an error at `pos`: one token, unless
/// none is left, and then those up to the next statement boundary.
pub open spec fn synchronize(tokens: Seq<TokenView>, pos: int) -> nat {
    if at_end(tokens, pos) {
        0
    } else {
        1 + boundary(tokens, pos + 1)
    }
}

/// The loop that a `for` statement stands for. The increment, if there is one, follows the
/// body in a block; the condition, if there is none, is `true`; the initializer, if there
/// is one, goes before the loop in a block of their own.
pub open spec fn desugar_for(
    initializer: Option<StmtView>,
    condition: Option<ExprView>,
    increment: Option<ExprView>,
    body: StmtView,
) -> StmtView {
    let body = match increment {
        Some(expression) => StmtView::Block {
            statements: seq![body, StmtView::Expression { expression }],
        },
        None => body,
    };
    let condition = match condition {
        Some(expression) => expression,
        None => true_literal(),
    };
    let repeat = StmtView::While { condition, body: Box::new(body) };
    match initializer {
        Some(first) => StmtView::Block { statements: seq![first, repeat] },
        None => repeat,
    }
}

/// The first clause of a `for` statement: `;`, a variable declaration or an expression
/// statement.
pub open spec fn for_initializer(tokens: Seq<TokenView>, pos: int) -> Parsed<Option<StmtView>> {
    if check(tokens, pos, Kind::Semicolon) {
        done(None, 1)
    } else {
        let first = if check(tokens, pos, Kind::Var) {
            after(1, var_declaration(tokens, pos + 1))
        } else {
            expression_statement(tokens, pos)
        };
        match first.result {
            Err(fault) => stop(fault, first.used),
            Ok(statement) => done(Some(statement), first.used),
        }
    }
}

/// A clause of a `for` statement that may be empty: an expression, unless the token that
/// closes the clause comes at once. The closing token is not used up.
pub open spec fn for_clause(tokens: Seq<TokenView>, pos: int, close: Kind) -> Parsed<
    Option<ExprView>,
> {
    if check(tokens, pos, close) {
        done(None, 0)
    } else {
        let clause = expression(tokens, pos);
        match clause.result {
            Err(fault) => stop(fault, clause.used),
            Ok(value) => done(Some(value), clause.used),
        }
    }
}

/// The clauses of a `for` statement, from the token after `for` to the closing
/// parenthesis.
pub open spec fn for_header(tokens: Seq<TokenView>, pos: int) -> Parsed<
    (Option<StmtView>, Option<ExprView>, Option<ExprView>),
> {
    if !check(tokens, pos, Kind::LeftParen) {
        fail("Expect '(' after 'for'."@, 0)
    } else {
        let first = after(1, for_initializer(tokens, pos + 1));
        match first.result {
            Err(fault) => stop(fault, first.used),
            Ok(initializer) => {
                let second = after(
                    first.used,
                    for_clause(tokens, pos + first.used, Kind::Semicolon),
                );
                match second.result {
                    Err(fault) => stop(fault, second.used),
                    Ok(condition) => if !check(tokens, pos + second.used, Kind::Semicolon) {
                        fail("Expect ';' after loop condition."@, second.used)
                    } else {
                        let third = after(
                            second.used + 1,
                            for_clause(tokens, pos + second.used + 1, Kind::RightParen),
                        );
                        match third.result {
                            Err(fault) => stop(fault, third.used),
                            Ok(increment) => if !check(
                                tokens,
                                pos + third.used,
                                Kind::RightParen,
                            ) {
                                fail("Expect ')' after for clauses."@, third.used)
                            } else {
                                done((initializer, condition, increment), third.used + 1)
                            },
                        }
                    },
                }
            },
        }
    }
}

/// A condition between parentheses, as `if` and `while` take it.
pub open spec fn condition(
    tokens: Seq<TokenView>,
    pos: int,
    open_message: Seq<char>,
    close_message: Seq<char>,
) -> Parsed<ExprView> {
    if !check(tokens, pos, Kind::LeftParen) {
        fail(open_message, 0)
    } else {
        let inner = after(1, expression(tokens, pos + 1));
        match inner.result {
            Err(_) => inner,
            Ok(_) => if check(tokens, pos + inner.used, Kind::RightParen) {
                after(1, inner)
            } else {
                fail(close_message, inner.used)
            },
        }
    }
}

/// forStmt, from the token after `for`.
pub open spec fn for_statement(tokens: Seq<TokenView>, pos: int) -> Parsed<StmtView>
    decreases remaining(tokens, pos), 0nat,
{
    let header = for_header(tokens, pos);
    match header.result {
        Err(fault) => stop(fault, header.used),
        Ok((initializer, condition, increment)) => {
            let body = after(header.used, statement(tokens, pos + header.used));
            match body.result {
                Err(fault) => stop(fault, body.used),
                Ok(inner) => done(desugar_for(initializer, condition, increment, inner), body.used),
            }
        },
    }
}

/// whileStmt, from the token after `while`.
pub open spec fn while_statement(tokens: Seq<TokenView>, pos: int) -> Parsed<StmtView>
    decreases remaining(tokens, pos), 0nat,
{
    let head = condition(
        tokens,
        pos,
        "Expect '(' after 'while'."@,
        "Expect ')' after condition."@,
    );
    match head.result {
        Err(fault) => stop(fault, head.used),
        Ok(condition) => {
            let body = after(head.used, statement(tokens, pos + head.used));
            match body.result {
                Err(fault) => stop(fault, body.used),
                Ok(inner) => done(StmtView::While { condition, body: Box::new(inner) }, body.used),
            }
        },
    }
}

/// ifStmt, from the token after `if`.
pub open spec fn if_statement(tokens: Seq<TokenView>, pos: int) -> Parsed<StmtView>
    decreases remaining(tokens, pos), 0nat,
{
    let head = condition(
        tokens,
        pos,
        "Expect '(' after 'if'."@,
        "Expect ')' after if condition."@,
    );
    match head.result {
        Err(fault) => stop(fault, head.used),
        Ok(condition) => {
            let first = after(head.used, statement(tokens, pos + head.used));
            match first.result {
                Err(fault) => stop(fault, first.used),
                Ok(then_branch) => if check(tokens, pos + first.used, Kind::Else) {
                    let second = after(
                        first.used + 1,
                        statement(tokens, pos + first.used + 1),
                    );
                    match second.result {
                        Err(fault) => stop(fault, second.used),
                        Ok(else_branch) => done(
                            StmtView::If {
                                condition,
                                then_branch: Box::new(then_branch),
                                else_branch: Some(Box::new(else_branch)),
                            },
                            second.used,
                        ),
                    }
                } else {
                    done(
                        StmtView::If {
                            condition,
                            then_branch: Box::new(then_branch),
                            else_branch: None,
                        },
                        first.used,
                    )
                },
            }
        },
    }
}

/// The declarations of a block, up to its closing brace or the end of the tokens.
///
/// A declaration that succeeds uses at least one token (`lemma_declaration_advances`), so
/// the case that ends the list after a declaration of no tokens never arises.
pub open spec fn block_items(tokens: Seq<TokenView>, pos: int) -> Parsed<Seq<StmtView>>
    decreases remaining(tokens, pos), 3nat,
{
    if check(tokens, pos, Kind::RightBrace) || at_end(tokens, pos) {
        done(Seq::empty(), 0)
    } else {
        let first = declaration(tokens, pos);
        match first.result {
            Err(fault) => stop(fault, first.used),
            Ok(statement) => if first.used == 0 {
                done(seq![statement], 0)
            } else {
                let rest = after(first.used, block_items(tokens, pos + first.used));
                match rest.result {
                    Err(fault) => stop(fault, rest.used),
                    Ok(others) => done(seq![statement] + others, rest.used),
                }
            },
        }
    }
}

/// block -> "{" declaration* "}", from the token after the opening brace.
pub open spec fn block_statement(tokens: Seq<TokenView>, pos: int) -> Parsed<StmtView>
    decreases remaining(tokens, pos), 4nat,
{
    let items = block_items(tokens, pos);
    match items.result {
        Err(fault) => stop(fault, items.used),
        Ok(statements) => if check(tokens, pos + items.used, Kind::RightBrace) {
            done(StmtView::Block { statements }, items.used + 1)
        } else {
            fail("Expect '}' after block."@, items.used)
        },
    }
}

/// statement -> exprStmt | printStmt | ifStmt | whileStmt | forStmt | block
pub open spec fn statement(tokens: Seq<TokenView>, pos: int) -> Parsed<StmtView>
    decreases remaining(tokens, pos), 1nat,
{
    if check(tokens, pos, Kind::For) {
        after(1, for_statement(tokens, pos + 1))
    } else if check(tokens, pos, Kind::If) {
        after(1, if_statement(tokens, pos + 1))
    } else if check(tokens, pos, Kind::Print) {
        after(1, print_statement(tokens, pos + 1))
    } else if check(tokens, pos, Kind::While) {
        after(1, while_statement(tokens, pos + 1))
    } else if check(tokens, pos, Kind::LeftBrace) {
        after(1, block_statement(tokens, pos + 1))
    } else {
        expression_statement(tokens, pos)
    }
}

/// declaration -> "var" varDecl | statement
///
/// After a variable declaration that fails, the parser moves on to the next statement
/// boundary before it reports the error.
pub open spec fn declaration(tokens: Seq<TokenView>, pos: int) -> Parsed<StmtView>
    decreases remaining(tokens, pos), 2nat,
{
    if check(tokens, pos, Kind::Var) {
        let variable = after(1, var_declaration(tokens, pos + 1));
        match variable.result {
            Ok(_) => variable,
            Err(fault) => stop(fault, variable.used + synchronize(tokens, pos + variable.used)),
        }
    } else {
        statement(tokens, pos)
    }
}

/// program -> declaration* Eof
///
/// The statements of the tokens from `pos` to the end, or the first error.
pub open spec fn program(tokens: Seq<TokenView>, pos: int) -> Parsed<Seq<StmtView>>
    decreases remaining(tokens, pos),
{
    if at_end(tokens, pos) {
        done(Seq::empty(), 0)
    } else {
        let first = declaration(tokens, pos);
        match first.result {
            Err(fault) => stop(fault, first.used),
            Ok(statement) => if first.used == 0 {
                done(seq![statement], 0)
            } else {
                let rest = after(first.used, program(tokens, pos + first.used));
                match rest.result {
                    Err(fault) => stop(fault, rest.used),
                    Ok(others) => done(seq![statement] + others, rest.used),
                }
            },
        }
    }
}

/// The statements that a whole sequence of tokens spells, or the first error.
pub open spec fn parse(tokens: Seq<TokenView>) -> Result<Seq<StmtView>, ParseFault> {
    program(tokens, 0).result
}

/// A unary expression that succeeds uses at least one token.
pub proof fn lemma_unary_advances(tokens: Seq<TokenView>, pos: int)
    ensures
        unary(tokens, pos).result is Ok ==> unary(tokens, pos).used >= 1,
        primary(tokens, pos).result is Ok ==> primary(tokens, pos).used >= 1,
{
}

/// A tier of binary operators that succeeds uses at least one token.
pub proof fn lemma_binary_advances(tokens: Seq<TokenView>, pos: int, tier: nat)
    ensures
        binary(tokens, pos, tier).result is Ok ==> binary(tokens, pos, tier).used >= 1,
        operand(tokens, pos, tier).result is Ok ==> operand(tokens, pos, tier).used >= 1,
    decreases tier_rank(tier),
{
    if tier < 5 {
        lemma_binary_advances(tokens, pos, tier + 1);
    } else {
        lemma_unary_advances(tokens, pos);
    }
    let first = operand(tokens, pos, tier);
    if let Ok(left) = first.result {
        assert(binary(tokens, pos, tier).used == first.used + binary_rest(
            tokens,
            pos + first.used,
            tier,
            left,
        ).used);
    }
}

/// An expression that succeeds uses at least one token.
pub proof fn lemma_expression_advances(tokens: Seq<TokenView>, pos: int)
    ensures
        expression(tokens, pos).result is Ok ==> expression(tokens, pos).used >= 1,
{
    lemma_binary_advances(tokens, pos, 0);
}

/// A declaration that succeeds uses at least one token.
pub proof fn lemma_declaration_advances(tokens: Seq<TokenView>, pos: int)
    ensures
        declaration(tokens, pos).result is Ok ==> declaration(tokens, pos).used >= 1,
        statement(tokens, pos).result is Ok ==> statement(tokens, pos).used >= 1,
{
    lemma_expression_advances(tokens, pos);
}

/// A literal alone is an expression of every tier, of one token, where no operator of that
/// tier or a tighter one follows it.
proof fn lemma_literal_operand(tokens: Seq<TokenView>, pos: int, tier: nat)
    requires
        0 <= pos,
        pos + 1 < tokens.len(),
        tier <= 5,
        tokens[pos].kind.is_literal(),
        forall|t: nat| tier <= t <= 5 ==> !(#[trigger] is_operator(t, tokens[pos + 1].kind)),
    ensures
        binary(tokens, pos, tier) == done(ExprView::Literal { value: tokens[pos] }, 1),
        operand(tokens, pos, tier) == done(ExprView::Literal { value: tokens[pos] }, 1),
    decreases tier_rank(tier),
{
    let literal = ExprView::Literal { value: tokens[pos] };
    assert(primary(tokens, pos) == done(literal, 1));
    assert(unary(tokens, pos) == done(literal, 1));
    if tier < 5 {
        lemma_literal_operand(tokens, pos, tier + 1);
    }
    assert(!is_operator(tier, tokens[pos + 1].kind));
    assert(binary_rest(tokens, pos + 1, tier, literal) == done(literal, 0));
}

/// The statement that is the sum of `a` and the product of `b` and `c`.
pub open spec fn sum_of_product(
    a: TokenView,
    plus: TokenView,
    b: TokenView,
    star: TokenView,
    c: TokenView,
) -> StmtView {
    StmtView::Expression {
        expression: ExprView::Binary {
            left: Box::new(ExprView::Literal { value: a }),
            operator: plus,
            right: Box::new(
                ExprView::Binary {
                    left: Box::new(ExprView::Literal { value: b }),
                    operator: star,
                    right: Box::new(ExprView::Literal { value: c }),
                },
            ),
        },
    }
}

/// Multiplication binds tighter than addition, for any tokens that begin with
/// `a + b * c ;`, with literals for `a`, `b` and `c`, and end there: with `Eof` or with
/// nothing at all.
pub proof fn lemma_product_binds_tighter_in(tokens: Seq<TokenView>)
    requires
        tokens.len() >= 6,
        tokens[0].kind.is_literal(),
        tokens[1].kind is Plus,
        tokens[2].kind.is_literal(),
        tokens[3].kind is Star,
        tokens[4].kind.is_literal(),
        tokens[5].kind is Semicolon,
        at_end(tokens, 6),
    ensures
        program(tokens, 0) == done(
            seq![sum_of_product(tokens[0], tokens[1], tokens[2], tokens[3], tokens[4])],
            6,
        ),
{
    let first = ExprView::Literal { value: tokens[0] };
    let second = ExprView::Literal { value: tokens[2] };
    let third = ExprView::Literal { value: tokens[4] };
    let product = ExprView::Binary {
        left: Box::new(second),
        operator: tokens[3],
        right: Box::new(third),
    };
    let sum = ExprView::Binary { left: Box::new(first), operator: tokens[1], right: Box::new(product) };
    // The operands of the product, and the product.
    lemma_literal_operand(tokens, 0, 5);
    assert(primary(tokens, 2) == done(second, 1));
    assert(unary(tokens, 2) == done(second, 1));
    assert(operand(tokens, 2, 5) == done(second, 1));
    lemma_literal_operand(tokens, 4, 5);
    assert(binary_rest(tokens, 5, 5, product) == done(product, 0));
    assert(binary_rest(tokens, 3, 5, second) == done(product, 2));
    assert(binary(tokens, 2, 5) == done(product, 3));
    assert(operand(tokens, 2, 4) == done(product, 3));
    // The sum.
    assert(binary_rest(tokens, 1, 5, first) == done(first, 0));
    assert(binary(tokens, 0, 5) == done(first, 1));
    assert(operand(tokens, 0, 4) == done(first, 1));
    assert(binary_rest(tokens, 5, 4, sum) == done(sum, 0));
    assert(binary_rest(tokens, 1, 4, first) == done(sum, 4));
    assert(binary(tokens, 0, 4) == done(sum, 5));
    // Nothing of a looser tier follows.
    assert(operand(tokens, 0, 3) == done(sum, 5));
    assert(binary_rest(tokens, 5, 3, sum) == done(sum, 0));
    assert(binary(tokens, 0, 3) == done(sum, 5));
    assert(operand(tokens, 0, 2) == done(sum, 5));
    assert(binary_rest(tokens, 5, 2, sum) == done(sum, 0));
    assert(binary(tokens, 0, 2) == done(sum, 5));
    assert(operand(tokens, 0, 1) == done(sum, 5));
    assert(binary_rest(tokens, 5, 1, sum) == done(sum, 0));
    assert(binary(tokens, 0, 1) == done(sum, 5));
    assert(operand(tokens, 0, 0) == done(sum, 5));
    assert(binary_rest(tokens, 5, 0, sum) == done(sum, 0));
    assert(binary(tokens, 0, 0) == done(sum, 5));
    assert(assignment(tokens, 0) == done(sum, 5));
    assert(terminated(tokens, 0, "Expect ';' after value."@) == done(sum, 6));
    assert(expression_statement(tokens, 0) == done(StmtView::Expression { expression: sum }, 6));
    assert(statement(tokens, 0) == done(StmtView::Expression { expression: sum }, 6));
    assert(declaration(tokens, 0) == done(StmtView::Expression { expression: sum }, 6));
    assert(program(tokens, 6) == done(Seq::<StmtView>::empty(), 0));
    assert(seq![StmtView::Expression { expression: sum }] + Seq::<StmtView>::empty()
        =~= seq![StmtView::Expression { expression: sum }]);
}

/// Multiplication binds tighter than addition: the tokens of `a + b * c;`, with literals
/// for `a`, `b` and `c` and with the `Eof` that closes them, parse to the sum of `a` and
/// the product of `b` and `c`.
pub proof fn lemma_product_binds_tighter(
    a: TokenView,
    plus: TokenView,
    b: TokenView,
    star: TokenView,
    c: TokenView,
    end: TokenView,
    eof: TokenView,
)
    requires
        a.kind.is_literal(),
        b.kind.is_literal(),
        c.kind.is_literal(),
        plus.kind is Plus,
        star.kind is Star,
        end.kind is Semicolon,
        eof.kind is Eof,
    ensures
        parse(seq![a, plus, b, star, c, end, eof]) == Ok::<Seq<StmtView>, ParseFault>(
            seq![sum_of_product(a, plus, b, star, c)],
        ),
{
    lemma_product_binds_tighter_in(seq![a, plus, b, star, c, end, eof]);
}

/// Only a variable can be assigned to, for any tokens that begin with `a = b ;`, with
/// literals for `a` and `b`: whatever follows, they are an error.
pub proof fn lemma_invalid_assignment_target_in(tokens: Seq<TokenView>)
    requires
        tokens.len() >= 4,
        tokens[0].kind.is_literal(),
        tokens[1].kind is Equal,
        tokens[2].kind.is_literal(),
        tokens[3].kind is Semicolon,
    ensures
        program(tokens, 0) == fail::<Seq<StmtView>>("Invalid assignment target."@, 3),
{
    lemma_literal_operand(tokens, 0, 0);
    lemma_literal_operand(tokens, 2, 0);
    assert(assignment(tokens, 2) == done(ExprView::Literal { value: tokens[2] }, 1));
    assert(assignment(tokens, 0) == fail::<ExprView>("Invalid assignment target."@, 3));
    assert(terminated(tokens, 0, "Expect ';' after value."@) == fail::<ExprView>(
        "Invalid assignment target."@,
        3,
    ));
    assert(statement(tokens, 0) == fail::<StmtView>("Invalid assignment target."@, 3));
    assert(declaration(tokens, 0) == fail::<StmtView>("Invalid assignment target."@, 3));
}

/// Only a variable can be assigned to: the tokens of `a = b;`, with literals for `a` and
/// `b` and with the `Eof` that closes them, are an error.
pub proof fn lemma_invalid_assignment_target(
    a: TokenView,
    equal: TokenView,
    b: TokenView,
    end: TokenView,
    eof: TokenView,
)
    requires
        a.kind.is_literal(),
        b.kind.is_literal(),
        equal.kind is Equal,
        end.kind is Semicolon,
        eof.kind is Eof,
    ensures
        parse(seq![a, equal, b, end, eof]) == Err::<Seq<StmtView>, ParseFault>(
            ParseFault::Panic("Invalid assignment target."@),
        ),
{
    lemma_invalid_assignment_target_in(seq![a, equal, b, end, eof]);
}

/// The tokens that are left after a token has been used.
proof fn lemma_remaining(tokens: Seq<TokenView>, pos: int)
    requires
        0 <= pos,
    ensures
        !at_end(tokens, pos) ==> remaining(tokens, pos) == 1 + remaining(tokens, pos + 1),
        remaining(tokens, pos + 1) <= remaining(tokens, pos),
{
}

/// A unary expression uses no more tokens than are left.
pub proof fn lemma_unary_within(tokens: Seq<TokenView>, pos: int)
    requires
        0 <= pos,
    ensures
        unary(tokens, pos).used <= remaining(tokens, pos),
        primary(tokens, pos).used <= remaining(tokens, pos),
    decreases remaining(tokens, pos), 1nat,
{
    lemma_remaining(tokens, pos);
    if check(tokens, pos, Kind::Bang) || check(tokens, pos, Kind::Minus) {
        lemma_unary_within(tokens, pos + 1);
    }
    lemma_primary_within(tokens, pos);
}

/// A primary expression uses no more tokens than are left.
proof fn lemma_primary_within(tokens: Seq<TokenView>, pos: int)
    requires
        0 <= pos,
    ensures
        primary(tokens, pos).used <= remaining(tokens, pos),
    decreases remaining(tokens, pos), 0nat,
{
    lemma_remaining(tokens, pos);
    if !at_end(tokens, pos) && tokens[pos].kind is LeftParen {
        lemma_assignment_within(tokens, pos + 1);
        let inner = assignment(tokens, pos + 1);
        lemma_remaining(tokens, pos + 1 + inner.used);
    }
}

/// A tier of binary operators uses no more tokens than are left.
pub proof fn lemma_binary_within(tokens: Seq<TokenView>, pos: int, tier: nat)
    requires
        0 <= pos,
    ensures
        binary(tokens, pos, tier).used <= remaining(tokens, pos),
    decreases remaining(tokens, pos), tier_rank(tier) + 1,
{
    lemma_operand_within(tokens, pos, tier);
    let first = operand(tokens, pos, tier);
    if let Ok(left) = first.result {
        lemma_binary_rest_within(tokens, pos + first.used, tier, left);
    }
}

/// An operand of a tier uses no more tokens than are left.
proof fn lemma_operand_within(tokens: Seq<TokenView>, pos: int, tier: nat)
    requires
        0 <= pos,
    ensures
        operand(tokens, pos, tier).used <= remaining(tokens, pos),
    decreases remaining(tokens, pos), tier_rank(tier),
{
    if tier >= 5 {
        lemma_unary_within(tokens, pos);
    } else {
        lemma_binary_within(tokens, pos, tier + 1);
    }
}

/// What follows an operand in a tier uses no more tokens than are left.
proof fn lemma_binary_rest_within(tokens: Seq<TokenView>, pos: int, tier: nat, left: ExprView)
    requires
        0 <= pos,
    ensures
        binary_rest(tokens, pos, tier, left).used <= remaining(tokens, pos),
    decreases remaining(tokens, pos), 0nat,
{
    lemma_remaining(tokens, pos);
    if !at_end(tokens, pos) && is_operator(tier, tokens[pos].kind) {
        lemma_operand_within(tokens, pos + 1, tier);
        let next = operand(tokens, pos + 1, tier);
        if let Ok(right) = next.result {
            lemma_binary_rest_within(
                tokens,
                pos + 1 + next.used,
                tier,
                join(tier, left, tokens[pos], right),
            );
        }
    }
}

/// An expression uses no more tokens than are left.
pub proof fn lemma_assignment_within(tokens: Seq<TokenView>, pos: int)
    requires
        0 <= pos,
    ensures
        assignment(tokens, pos).used <= remaining(tokens, pos),
        expression(tokens, pos).used <= remaining(tokens, pos),
    decreases remaining(tokens, pos), 14nat,
{
    lemma_binary_within(tokens, pos, 0);
    let target = binary(tokens, pos, 0);
    if target.result is Ok && check(tokens, pos + target.used, Kind::Equal) {
        lemma_remaining(tokens, pos + target.used);
        lemma_assignment_within(tokens, pos + target.used + 1);
    }
}

/// The rules that hold expressions and no statements use no more tokens than are left.
proof fn lemma_clauses_within(tokens: Seq<TokenView>, pos: int)
    requires
        0 <= pos,
    ensures
        forall|message: Seq<char>| #[trigger]
            terminated(tokens, pos, message).used <= remaining(tokens, pos),
        expression_statement(tokens, pos).used <= remaining(tokens, pos),
        print_statement(tokens, pos).used <= remaining(tokens, pos),
        var_declaration(tokens, pos).used <= remaining(tokens, pos),
        for_initializer(tokens, pos).used <= remaining(tokens, pos),
        forall|close: Kind| #[trigger] for_clause(tokens, pos, close).used <= remaining(tokens, pos),
        forall|open_message: Seq<char>, close_message: Seq<char>| #[trigger]
            condition(tokens, pos, open_message, close_message).used <= remaining(tokens, pos),
{
    lemma_assignment_within(tokens, pos);
    lemma_remaining(tokens, pos);
    lemma_remaining(tokens, pos + expression(tokens, pos).used);
    // A variable declaration: the name, and perhaps `=` and an initializer.
    lemma_remaining(tokens, pos + 1);
    lemma_assignment_within(tokens, pos + 2);
    lemma_remaining(tokens, pos + 2 + expression(tokens, pos + 2).used);
    assert(var_declaration(tokens, pos).used <= remaining(tokens, pos));
    // The first clause of a `for` statement.
    lemma_assignment_within(tokens, pos + 3);
    lemma_remaining(tokens, pos + 2);
    lemma_remaining(tokens, pos + 3 + expression(tokens, pos + 3).used);
    assert(var_declaration(tokens, pos + 1).used <= remaining(tokens, pos + 1));
    assert(for_initializer(tokens, pos).used <= remaining(tokens, pos));
    // A condition between parentheses.
    lemma_assignment_within(tokens, pos + 1);
    lemma_remaining(tokens, pos + 1 + expression(tokens, pos + 1).used);
}

/// The clauses of a `for` statement use no more tokens than are left.
proof fn lemma_for_header_within(tokens: Seq<TokenView>, pos: int)
    requires
        0 <= pos,
    ensures
        for_header(tokens, pos).used <= remaining(tokens, pos),
{
    lemma_remaining(tokens, pos);
    if check(tokens, pos, Kind::LeftParen) {
        lemma_clauses_within(tokens, pos + 1);
        let first = after(1, for_initializer(tokens, pos + 1));
        if first.result is Ok {
            lemma_clauses_within(tokens, pos + first.used);
            let second = after(first.used, for_clause(tokens, pos + first.used, Kind::Semicolon));
            if second.result is Ok && check(tokens, pos + second.used, Kind::Semicolon) {
                lemma_remaining(tokens, pos + second.used);
                lemma_clauses_within(tokens, pos + second.used + 1);
                let third = after(
                    second.used + 1,
                    for_clause(tokens, pos + second.used + 1, Kind::RightParen),
                );
                lemma_remaining(tokens, pos + third.used);
            }
        }
    }
}

/// The tokens up to the next statement boundary are no more than are left.
proof fn lemma_boundary_within(tokens: Seq<TokenView>, pos: int)
    requires
        0 <= pos,
    ensures
        boundary(tokens, pos) <= remaining(tokens, pos),
        synchronize(tokens, pos) <= remaining(tokens, pos),
    decreases remaining(tokens, pos),
{
    lemma_remaining(tokens, pos);
    if !at_end(tokens, pos) {
        lemma_boundary_within(tokens, pos + 1);
    }
}

/// A statement uses no more tokens than are left, and so does a declaration.
pub proof fn lemma_statement_within(tokens: Seq<TokenView>, pos: int)
    requires
        0 <= pos,
    ensures
        statement(tokens, pos).used <= remaining(tokens, pos),
    decreases remaining(tokens, pos), 1nat,
{
    lemma_remaining(tokens, pos);
    lemma_clauses_within(tokens, pos);
    lemma_clauses_within(tokens, pos + 1);
    if check(tokens, pos, Kind::For) {
        lemma_for_within(tokens, pos + 1);
    } else if check(tokens, pos, Kind::If) {
        lemma_if_within(tokens, pos + 1);
    } else if check(tokens, pos, Kind::Print) {
    } else if check(tokens, pos, Kind::While) {
        lemma_while_within(tokens, pos + 1);
    } else if check(tokens, pos, Kind::LeftBrace) {
        lemma_block_within(tokens, pos + 1);
    }
}

/// A `for` statement uses no more tokens than are left.
proof fn lemma_for_within(tokens: Seq<TokenView>, pos: int)
    requires
        0 <= pos,
    ensures
        for_statement(tokens, pos).used <= remaining(tokens, pos),
    decreases remaining(tokens, pos), 0nat,
{
    lemma_for_header_within(tokens, pos);
    let header = for_header(tokens, pos);
    if header.result is Ok {
        lemma_statement_within(tokens, pos + header.used);
    }
}

/// A `while` statement uses no more tokens than are left.
proof fn lemma_while_within(tokens: Seq<TokenView>, pos: int)
    requires
        0 <= pos,
    ensures
        while_statement(tokens, pos).used <= remaining(tokens, pos),
    decreases remaining(tokens, pos), 0nat,
{
    lemma_clauses_within(tokens, pos);
    let head = condition(
        tokens,
        pos,
        "Expect '(' after 'while'."@,
        "Expect ')' after condition."@,
    );
    if head.result is Ok {
        lemma_statement_within(tokens, pos + head.used);
    }
}

/// An `if` statement uses no more tokens than are left.
proof fn lemma_if_within(tokens: Seq<TokenView>, pos: int)
    requires
        0 <= pos,
    ensures
        if_statement(tokens, pos).used <= remaining(tokens, pos),
    decreases remaining(tokens, pos), 0nat,
{
    lemma_clauses_within(tokens, pos);
    let head = condition(tokens, pos, "Expect '(' after 'if'."@, "Expect ')' after if condition."@);
    if head.result is Ok {
        lemma_statement_within(tokens, pos + head.used);
        let first = after(head.used, statement(tokens, pos + head.used));
        if first.result is Ok && check(tokens, pos + first.used, Kind::Else) {
            lemma_remaining(tokens, pos + first.used);
            lemma_statement_within(tokens, pos + first.used + 1);
        }
    }
}

/// A block uses no more tokens than are left.
proof fn lemma_block_within(tokens: Seq<TokenView>, pos: int)
    requires
        0 <= pos,
    ensures
        block_statement(tokens, pos).used <= remaining(tokens, pos),
    decreases remaining(tokens, pos), 4nat,
{
    lemma_block_items_within(tokens, pos);
    lemma_remaining(tokens, pos + block_items(tokens, pos).used);
}

/// The declarations of a block use no more tokens than are left.
proof fn lemma_block_items_within(tokens: Seq<TokenView>, pos: int)
    requires
        0 <= pos,
    ensures
        block_items(tokens, pos).used <= remaining(tokens, pos),
    decreases remaining(tokens, pos), 3nat,
{
    if !(check(tokens, pos, Kind::RightBrace) || at_end(tokens, pos)) {
        lemma_declaration_within(tokens, pos);
        let first = declaration(tokens, pos);
        if first.result is Ok && first.used != 0 {
            lemma_block_items_within(tokens, pos + first.used);
        }
    }
}

/// A declaration uses no more tokens than are left, the tokens that are skipped after an
/// error included.
pub proof fn lemma_declaration_within(tokens: Seq<TokenView>, pos: int)
    requires
        0 <= pos,
    ensures
        declaration(tokens, pos).used <= remaining(tokens, pos),
    decreases remaining(tokens, pos), 2nat,
{
    lemma_remaining(tokens, pos);
    if check(tokens, pos, Kind::Var) {
        lemma_clauses_within(tokens, pos + 1);
        let variable = after(1, var_declaration(tokens, pos + 1));
        lemma_boundary_within(tokens, pos + variable.used);
    } else {
        lemma_statement_within(tokens, pos);
    }
}

/// The parser never goes past the tokens: a program uses no more tokens than are left, so
/// that the parser ends at the closing `Eof` or before it, or at the end of the tokens
/// where no `Eof` closes them.
pub proof fn lemma_program_within(tokens: Seq<TokenView>, pos: int)
    requires
        0 <= pos,
    ensures
        program(tokens, pos).used <= remaining(tokens, pos),
        pos + program(tokens, pos).used <= tokens.len() || program(tokens, pos).used == 0,
    decreases remaining(tokens, pos),
{
    if !at_end(tokens, pos) {
        lemma_declaration_within(tokens, pos);
        let first = declaration(tokens, pos);
        if first.result is Ok && first.used != 0 {
            lemma_program_within(tokens, pos + first.used);
        }
    }
}

/// A program that parses ends where no token is left: at the closing `Eof`, or at the end
/// of the tokens where no `Eof` closes them.
pub proof fn lemma_program_ends(tokens: Seq<TokenView>, pos: int)
    requires
        0 <= pos,
    ensures
        program(tokens, pos).result is Ok ==> at_end(tokens, pos + program(tokens, pos).used),
    decreases remaining(tokens, pos),
{
    if !at_end(tokens, pos) {
        lemma_declaration_advances(tokens, pos);
        let first = declaration(tokens, pos);
        if first.result is Ok {
            lemma_program_ends(tokens, pos + first.used);
        }
    }
}

/// Whether what a parsing function returned is what the grammar rule gives.
pub open spec fn expr_is(r: Result<Expr, ParseError>, parsed: Parsed<ExprView>) -> bool {
    match r {
        Ok(tree) => parsed.result == Ok::<ExprView, ParseFault>(tree@) && parsed.used >= 1
            && tree@.well_formed(),
        Err(error) => parsed.result == Err::<ExprView, ParseFault>(error@),
    }
}

/// Whether what a parsing function returned is what the grammar rule gives.
pub open spec fn stmt_is(r: Result<Stmt, ParseError>, parsed: Parsed<StmtView>) -> bool {
    match r {
        Ok(tree) => parsed.result == Ok::<StmtView, ParseFault>(tree@) && parsed.used >= 1
            && tree@.well_formed(),
        Err(error) => parsed.result == Err::<StmtView, ParseFault>(error@),
    }
}

/// Whether what a parsing function returned is what the grammar rule gives.
pub open spec fn stmts_are(r: Result<Vec<Stmt>, ParseError>, parsed: Parsed<Seq<StmtView>>) -> bool {
    match r {
        Ok(trees) => parsed.result == Ok::<Seq<StmtView>, ParseFault>(stmt_views(trees@))
            && all_well_formed(stmt_views(trees@)),
        Err(error) => parsed.result == Err::<Seq<StmtView>, ParseFault>(error@),
    }
}

fn is_literal_token(token_type: &TokenType) -> (r: bool)
    ensures
        r == token_type@.is_literal(),
{
    match token_type {
        TokenType::False => true,
        TokenType::True => true,
        TokenType::Nil => true,
        TokenType::Number(_) => true,
        TokenType::String(_) => true,
        _ => false,
    }
}

fn is_operator_token(tier: u8, token_type: &TokenType) -> (r: bool)
    ensures
        r == is_operator(tier as nat, token_type@),
{
    if tier == 0 {
        matches!(token_type, TokenType::Or)
    } else if tier == 1 {
        matches!(token_type, TokenType::And)
    } else if tier == 2 {
        matches!(token_type, TokenType::BangEqual | TokenType::EqualEqual)
    } else if tier == 3 {
        matches!(
            token_type,
            TokenType::Greater | TokenType::GreaterEqual | TokenType::Less | TokenType::LessEqual
        )
    } else if tier == 4 {
        matches!(token_type, TokenType::Minus | TokenType::Plus)
    } else {
        matches!(token_type, TokenType::Slash | TokenType::Star)
    }
}

fn begins_statement_token(token_type: &TokenType) -> (r: bool)
    ensures
        r == begins_statement(token_type@),
{
    matches!(
        token_type,
        TokenType::Class | TokenType::Fun | TokenType::Var | TokenType::For | TokenType::If
            | TokenType::While | TokenType::Print | TokenType::Return
    )
}

/// Builds the loop that a `for` statement stands for.
fn build_for(
    initializer: Option<Stmt>,
    condition: Option<Expr>,
    increment: Option<Expr>,
    body: Stmt,
) -> (r: Stmt)
    requires
        initializer matches Some(statement) ==> statement@.well_formed(),
        condition matches Some(expression) ==> expression@.well_formed(),
        increment matches Some(expression) ==> expression@.well_formed(),
        body@.well_formed(),
    ensures
        r@.well_formed(),
        r@ == desugar_for(
            match initializer {
                Some(statement) => Some(statement@),
                None => None,
            },
            match condition {
                Some(expression) => Some(expression@),
                None => None,
            },
            match increment {
                Some(expression) => Some(expression@),
                None => None,
            },
            body@,
        ),
{
    let ghost body_view = body@;
    let body = match increment {
        Some(expression) => {
            let ghost step = expression@;
            let mut statements: Vec<Stmt> = Vec::new();
            statements.push(body);
            statements.push(Stmt::Expression { expression });
            let block = Stmt::Block { statements };
            proof {
                assert(statements@[0].model() == body_view);
                assert(statements@[1].model() == StmtView::Expression { expression: step });
                assert(block@->Block_statements =~= seq![
                    body_view,
                    StmtView::Expression { expression: step },
                ]);
                assert(StmtView::Expression { expression: step }.well_formed());
                assert(block@.well_formed());
            }
            block
        },
        None => body,
    };
    let condition = match condition {
        Some(expression) => expression,
        None => Expr::Literal { value: Token::new(TokenType::True, 0) },
    };
    assert(body@.well_formed());
    assert(condition@.well_formed());
    let repeat = Stmt::While { condition, body: Box::new(body) };
    assert(repeat@.well_formed());
    match initializer {
        Some(first) => {
            let ghost first_view = first@;
            let ghost repeat_view = repeat@;
            let mut statements: Vec<Stmt> = Vec::new();
            statements.push(first);
            statements.push(repeat);
            let block = Stmt::Block { statements };
            proof {
                assert(statements@[0].model() == first_view);
                assert(statements@[1].model() == repeat_view);
                assert(block@->Block_statements =~= seq![first_view, repeat_view]);
                assert(block@.well_formed());
            }
            block
        },
        None => repeat,
    }
}

/// The parser: the tokens, and the number of them that have been used.
pub struct Parser {
    pub tokens: Vec<Token>,
    pub current: usize,
}

impl Parser {
    /// The tokens as the grammar sees them.
    pub open spec fn views(&self) -> Seq<TokenView> {
        token_views(self.tokens@)
    }

    /// The position as the grammar sees it.
    pub open spec fn pos(&self) -> int {
        self.current as int
    }

    /// Whether this parser is `before` moved on by `used` tokens.
    pub open spec fn moved(&self, before: &Parser, used: nat) -> bool {
        self.tokens == before.tokens && self.current == before.current + used
    }

    /// A parser at the first of `tokens`.
    pub fn new(tokens: Vec<Token>) -> (r: Self)
        ensures
            r.tokens == tokens,
            r.current == 0,
    {
        Parser { tokens, current: 0 }
    }

    /// Parses the tokens from the current one to the end: the statements, or the first
    /// error. The parser never goes past the tokens, and after a success it stands where
    /// no token is left.
    pub fn parse(&mut self) -> (r: Result<Vec<Stmt>, ParseError>)
        ensures
            final(self).moved(old(self), program(old(self).views(), old(self).pos()).used),
            stmts_are(r, program(old(self).views(), old(self).pos())),
            old(self).current <= old(self).tokens@.len() ==> final(self).current
                <= final(self).tokens@.len(),
            r is Ok ==> at_end(final(self).views(), final(self).pos()),
    {
        let ghost target = program(old(self).views(), old(self).pos());
        proof {
            lemma_program_within(old(self).views(), old(self).pos());
            assert(self.tokens@.len() == self.views().len());
        }
        let mut statements: Vec<Stmt> = Vec::new();
        proof {
            assert(stmt_views(statements@) =~= Seq::<StmtView>::empty());
        }
        while !self.is_at_end()
            invariant
                self.tokens == old(self).tokens,
                old(self).current <= self.current,
                target == program(old(self).views(), old(self).pos()),
                old(self).current <= old(self).tokens@.len() ==> old(self).current + target.used
                    <= old(self).tokens@.len(),
                all_well_formed(stmt_views(statements@)),
                target.used == (self.current - old(self).current) + program(
                    self.views(),
                    self.pos(),
                ).used,
                match program(self.views(), self.pos()).result {
                    Ok(others) => target.result == Ok::<Seq<StmtView>, ParseFault>(
                        stmt_views(statements@) + others,
                    ),
                    Err(fault) => target.result == Err::<Seq<StmtView>, ParseFault>(fault),
                },
            decreases remaining(self.views(), self.pos()),
        {
            let ghost done_before = stmt_views(statements@);
            match self.declaration() {
                Err(error) => {
                    return Err(error);
                },
                Ok(statement) => {
                    proof {
                        let rest = program(self.views(), self.pos());
                        if let Ok(others) = rest.result {
                            assert(done_before + (seq![statement@] + others) =~= done_before.push(
                                statement@,
                            ) + others);
                        }
                        assert(stmt_views(statements@.push(statement)) =~= done_before.push(
                            statement@,
                        ));
                    }
                    statements.push(statement);
                },
            }
        }
        proof {
            assert(stmt_views(statements@) + Seq::<StmtView>::empty() =~= stmt_views(statements@));
        }
        Ok(statements)
    }

    fn declaration(&mut self) -> (r: Result<Stmt, ParseError>)
        ensures
            final(self).moved(old(self), declaration(old(self).views(), old(self).pos()).used),
            stmt_is(r, declaration(old(self).views(), old(self).pos())),
        decreases remaining(old(self).views(), old(self).pos()), 2nat,
    {
        if self.check(&TokenType::Var) {
            self.skip();
            match self.var_declaration() {
                Ok(statement) => Ok(statement),
                Err(error) => {
                    self.synchronize();
                    Err(error)
                },
            }
        } else {
            self.statement()
        }
    }

    fn var_declaration(&mut self) -> (r: Result<Stmt, ParseError>)
        ensures
            final(self).moved(old(self), var_declaration(old(self).views(), old(self).pos()).used),
            stmt_is(r, var_declaration(old(self).views(), old(self).pos())),
    {
        let name = self.consume(TokenType::Identifier(String::new()), "Expect variable name.")?;
        let initializer = if self.check(&TokenType::Equal) {
            self.skip();
            self.expression()?
        } else {
            Expr::Literal { value: Token::new(TokenType::Nil, 0) }
        };
        self.consume(TokenType::Semicolon, "Expect ';' after variable declaration.")?;
        Ok(Stmt::Var { name, initializer })
    }

    fn statement(&mut self) -> (r: Result<Stmt, ParseError>)
        ensures
            final(self).moved(old(self), statement(old(self).views(), old(self).pos()).used),
            stmt_is(r, statement(old(self).views(), old(self).pos())),
        decreases remaining(old(self).views(), old(self).pos()), 1nat,
    {
        if self.check(&TokenType::For) {
            self.skip();
            self.for_statement()
        } else if self.check(&TokenType::If) {
            self.skip();
            self.if_statement()
        } else if self.check(&TokenType::Print) {
            self.skip();
            self.print_statement()
        } else if self.check(&TokenType::While) {
            self.skip();
            self.while_statement()
        } else if self.check(&TokenType::LeftBrace) {
            self.skip();
            self.block_statement()
        } else {
            self.expression_statement()
        }
    }

    /// The first clause of a `for` statement.
    fn for_initializer(&mut self) -> (r: Result<Option<Stmt>, ParseError>)
        ensures
            final(self).moved(old(self), for_initializer(old(self).views(), old(self).pos()).used),
            match r {
                Ok(Some(statement)) => statement@.well_formed() && for_initializer(
                    old(self).views(),
                    old(self).pos(),
                ).result == Ok::<Option<StmtView>, ParseFault>(Some(statement@)),
                Ok(None) => for_initializer(old(self).views(), old(self).pos()).result == Ok::<
                    Option<StmtView>,
                    ParseFault,
                >(None),
                Err(error) => for_initializer(old(self).views(), old(self).pos()).result == Err::<
                    Option<StmtView>,
                    ParseFault,
                >(error@),
            },
    {
        if self.check(&TokenType::Semicolon) {
            self.skip();
            Ok(None)
        } else if self.check(&TokenType::Var) {
            self.skip();
            Ok(Some(self.var_declaration()?))
        } else {
            Ok(Some(self.expression_statement()?))
        }
    }

    /// A clause of a `for` statement that may be empty.
    fn for_clause(&mut self, close: TokenType) -> (r: Result<Option<Expr>, ParseError>)
        ensures
            final(self).moved(
                old(self),
                for_clause(old(self).views(), old(self).pos(), close@).used,
            ),
            match r {
                Ok(Some(expression)) => expression@.well_formed() && for_clause(
                    old(self).views(),
                    old(self).pos(),
                    close@,
                ).result == Ok::<Option<ExprView>, ParseFault>(Some(expression@)),
                Ok(None) => for_clause(old(self).views(), old(self).pos(), close@).result == Ok::<
                    Option<ExprView>,
                    ParseFault,
                >(None),
                Err(error) => for_clause(old(self).views(), old(self).pos(), close@).result
                    == Err::<Option<ExprView>, ParseFault>(error@),
            },
    {
        if self.check(&close) {
            Ok(None)
        } else {
            Ok(Some(self.expression()?))
        }
    }

    fn for_statement(&mut self) -> (r: Result<Stmt, ParseError>)
        ensures
            final(self).moved(old(self), for_statement(old(self).views(), old(self).pos()).used),
            stmt_is(r, after(1, for_statement(old(self).views(), old(self).pos()))),
        decreases remaining(old(self).views(), old(self).pos()), 0nat,
    {
        self.consume(TokenType::LeftParen, "Expect '(' after 'for'.")?;
        let initializer = self.for_initializer()?;
        let condition = self.for_clause(TokenType::Semicolon)?;
        self.consume(TokenType::Semicolon, "Expect ';' after loop condition.")?;
        let increment = self.for_clause(TokenType::RightParen)?;
        self.consume(TokenType::RightParen, "Expect ')' after for clauses.")?;
        let body = self.statement()?;
        Ok(build_for(initializer, condition, increment, body))
    }

    /// A condition between parentheses.
    fn condition(&mut self, open_message: &str, close_message: &str) -> (r: Result<
        Expr,
        ParseError,
    >)
        ensures
            final(self).moved(
                old(self),
                condition(old(self).views(), old(self).pos(), open_message@, close_message@).used,
            ),
            expr_is(
                r,
                condition(old(self).views(), old(self).pos(), open_message@, close_message@),
            ),
    {
        self.consume(TokenType::LeftParen, open_message)?;
        let inner = self.expression()?;
        self.consume(TokenType::RightParen, close_message)?;
        Ok(inner)
    }

    fn while_statement(&mut self) -> (r: Result<Stmt, ParseError>)
        ensures
            final(self).moved(old(self), while_statement(old(self).views(), old(self).pos()).used),
            stmt_is(r, after(1, while_statement(old(self).views(), old(self).pos()))),
        decreases remaining(old(self).views(), old(self).pos()), 0nat,
    {
        let condition = self.condition("Expect '(' after 'while'.", "Expect ')' after condition.")?;
        let body = Box::new(self.statement()?);
        Ok(Stmt::While { condition, body })
    }

    fn if_statement(&mut self) -> (r: Result<Stmt, ParseError>)
        ensures
            final(self).moved(old(self), if_statement(old(self).views(), old(self).pos()).used),
            stmt_is(r, after(1, if_statement(old(self).views(), old(self).pos()))),
        decreases remaining(old(self).views(), old(self).pos()), 0nat,
    {
        let condition = self.condition("Expect '(' after 'if'.", "Expect ')' after if condition.")?;
        let then_branch = Box::new(self.statement()?);
        let else_branch = if self.check(&TokenType::Else) {
            self.skip();
            Some(Box::new(self.statement()?))
        } else {
            None
        };
        Ok(Stmt::If { condition, then_branch, else_branch })
    }

    fn block_statement(&mut self) -> (r: Result<Stmt, ParseError>)
        ensures
            final(self).moved(old(self), block_statement(old(self).views(), old(self).pos()).used),
            stmt_is(r, after(1, block_statement(old(self).views(), old(self).pos()))),
        decreases remaining(old(self).views(), old(self).pos()), 4nat,
    {
        let ghost target = block_items(old(self).views(), old(self).pos());
        let mut statements: Vec<Stmt> = Vec::new();
        proof {
            assert(stmt_views(statements@) =~= Seq::<StmtView>::empty());
        }
        while !self.check(&TokenType::RightBrace) && !self.is_at_end()
            invariant
                self.tokens == old(self).tokens,
                old(self).current <= self.current,
                target == block_items(old(self).views(), old(self).pos()),
                all_well_formed(stmt_views(statements@)),
                target.used == (self.current - old(self).current) + block_items(
                    self.views(),
                    self.pos(),
                ).used,
                match block_items(self.views(), self.pos()).result {
                    Ok(others) => target.result == Ok::<Seq<StmtView>, ParseFault>(
                        stmt_views(statements@) + others,
                    ),
                    Err(fault) => target.result == Err::<Seq<StmtView>, ParseFault>(fault),
                },
            decreases remaining(self.views(), self.pos()),
        {
            let ghost done_before = stmt_views(statements@);
            match self.declaration() {
                Err(error) => {
                    return Err(error);
                },
                Ok(statement) => {
                    proof {
                        let rest = block_items(self.views(), self.pos());
                        if let Ok(others) = rest.result {
                            assert(done_before + (seq![statement@] + others) =~= done_before.push(
                                statement@,
                            ) + others);
                        }
                        assert(stmt_views(statements@.push(statement)) =~= done_before.push(
                            statement@,
                        ));
                    }
                    statements.push(statement);
                },
            }
        }
        proof {
            assert(stmt_views(statements@) + Seq::<StmtView>::empty() =~= stmt_views(statements@));
        }
        self.consume(TokenType::RightBrace, "Expect '}' after block.")?;
        let block = Stmt::Block { statements };
        proof {
            assert(block@->Block_statements =~= stmt_views(statements@));
        }
        Ok(block)
    }

    /// An expression and the semicolon that ends it.
    fn terminated(&mut self, message: &str) -> (r: Result<Expr, ParseError>)
        ensures
            final(self).moved(
                old(self),
                terminated(old(self).views(), old(self).pos(), message@).used,
            ),
            expr_is(r, terminated(old(self).views(), old(self).pos(), message@)),
    {
        let value = self.expression()?;
        self.consume(TokenType::Semicolon, message)?;
        Ok(value)
    }

    fn print_statement(&mut self) -> (r: Result<Stmt, ParseError>)
        ensures
            final(self).moved(old(self), print_statement(old(self).views(), old(self).pos()).used),
            stmt_is(r, print_statement(old(self).views(), old(self).pos())),
    {
        let expression = self.terminated("Expect ';' after value.")?;
        Ok(Stmt::Print { expression })
    }

    fn expression_statement(&mut self) -> (r: Result<Stmt, ParseError>)
        ensures
            final(self).moved(
                old(self),
                expression_statement(old(self).views(), old(self).pos()).used,
            ),
            stmt_is(r, expression_statement(old(self).views(), old(self).pos())),
    {
        let expression = self.terminated("Expect ';' after value.")?;
        Ok(Stmt::Expression { expression })
    }

    fn expression(&mut self) -> (r: Result<Expr, ParseError>)
        ensures
            final(self).moved(old(self), expression(old(self).views(), old(self).pos()).used),
            expr_is(r, expression(old(self).views(), old(self).pos())),
        decreases remaining(old(self).views(), old(self).pos()), 15nat,
    {
        self.assignment()
    }

    fn assignment(&mut self) -> (r: Result<Expr, ParseError>)
        ensures
            final(self).moved(old(self), assignment(old(self).views(), old(self).pos()).used),
            expr_is(r, assignment(old(self).views(), old(self).pos())),
        decreases remaining(old(self).views(), old(self).pos()), 14nat,
    {
        let target = self.binary(0)?;
        if self.check(&TokenType::Equal) {
            self.skip();
            let value = self.assignment()?;
            match target {
                Expr::Var { name } => Ok(Expr::Assign { name, value: Box::new(value) }),
                _ => Err(ParseError::Panic(String::from_str("Invalid assignment target."))),
            }
        } else {
            Ok(target)
        }
    }

    /// An operand of a tier of binary operators.
    fn operand(&mut self, tier: u8) -> (r: Result<Expr, ParseError>)
        ensures
            final(self).moved(
                old(self),
                operand(old(self).views(), old(self).pos(), tier as nat).used,
            ),
            expr_is(r, operand(old(self).views(), old(self).pos(), tier as nat)),
        decreases remaining(old(self).views(), old(self).pos()), tier_rank(tier as nat),
    {
        if tier >= 5 {
            self.unary()
        } else {
            self.binary(tier + 1)
        }
    }

    /// One tier of binary operators: `or`, `and`, equality, comparison, term and factor
    /// are the tiers 0 to 5.
    fn binary(&mut self, tier: u8) -> (r: Result<Expr, ParseError>)
        ensures
            final(self).moved(
                old(self),
                binary(old(self).views(), old(self).pos(), tier as nat).used,
            ),
            expr_is(r, binary(old(self).views(), old(self).pos(), tier as nat)),
        decreases remaining(old(self).views(), old(self).pos()), tier_rank(tier as nat) + 1,
    {
        let mut expr = self.operand(tier)?;
        let ghost start = self.current;
        let ghost target = binary_rest(self.views(), self.pos(), tier as nat, expr@);
        while !self.is_at_end() && is_operator_token(tier, &self.tokens[self.current].token_type)
            invariant
                self.tokens == old(self).tokens,
                old(self).current < start <= self.current,
                expr@.well_formed(),
                binary(old(self).views(), old(self).pos(), tier as nat) == after(
                    (start - old(self).current) as nat,
                    target,
                ),
                target.used == (self.current - start) + binary_rest(
                    self.views(),
                    self.pos(),
                    tier as nat,
                    expr@,
                ).used,
                target.result == binary_rest(self.views(), self.pos(), tier as nat, expr@).result,
            decreases remaining(self.views(), self.pos()),
        {
            let operator = self.tokens[self.current].clone();
            self.skip();
            let right = self.operand(tier)?;
            expr = if tier <= 1 {
                Expr::Logical { left: Box::new(expr), operator, right: Box::new(right) }
            } else {
                Expr::Binary { left: Box::new(expr), operator, right: Box::new(right) }
            };
        }
        proof {
            let first = operand(old(self).views(), old(self).pos(), tier as nat);
            assert(binary(old(self).views(), old(self).pos(), tier as nat) == after(
                first.used,
                target,
            ));
            assert(binary_rest(self.views(), self.pos(), tier as nat, expr@) == done(expr@, 0));
        }
        Ok(expr)
    }

    fn unary(&mut self) -> (r: Result<Expr, ParseError>)
        ensures
            final(self).moved(old(self), unary(old(self).views(), old(self).pos()).used),
            expr_is(r, unary(old(self).views(), old(self).pos())),
        decreases remaining(old(self).views(), old(self).pos()), 1nat,
    {
        if self.check(&TokenType::Bang) || self.check(&TokenType::Minus) {
            let operator = self.advance();
            let right = self.unary()?;
            Ok(Expr::Unary { operator, right: Box::new(right) })
        } else {
            self.primary()
        }
    }

    fn primary(&mut self) -> (r: Result<Expr, ParseError>)
        ensures
            final(self).moved(old(self), primary(old(self).views(), old(self).pos()).used),
            expr_is(r, primary(old(self).views(), old(self).pos())),
        decreases remaining(old(self).views(), old(self).pos()), 0nat,
    {
        if self.is_at_end() {
            return Err(ParseError::ExpectedExpression(self.peek_line()));
        }
        if is_literal_token(&self.tokens[self.current].token_type) {
            let value = self.advance();
            Ok(Expr::Literal { value })
        } else if self.check(&TokenType::Identifier(String::new())) {
            let name = self.advance();
            Ok(Expr::Var { name })
        } else if self.check(&TokenType::LeftParen) {
            self.skip();
            let expression = self.expression()?;
            self.consume(TokenType::RightParen, "Expect ')' after expression.")?;
            Ok(Expr::Grouping { expression: Box::new(expression) })
        } else {
            Err(ParseError::ExpectedExpression(self.peek_line()))
        }
    }

    /// Uses up a token of the given kind, or fails with the message.
    fn consume(&mut self, token_type: TokenType, message: &str) -> (r: Result<Token, ParseError>)
        ensures
            final(self).tokens == old(self).tokens,
            match r {
                Ok(token) => {
                    &&& check(old(self).views(), old(self).pos(), token_type@)
                    &&& final(self).current == old(self).current + 1
                    &&& token == old(self).tokens@[old(self).pos()]
                },
                Err(error) => {
                    &&& !check(old(self).views(), old(self).pos(), token_type@)
                    &&& final(self).current == old(self).current
                    &&& error@ == ParseFault::Panic(message@)
                },
            },
    {
        if self.check(&token_type) {
            Ok(self.advance())
        } else {
            Err(ParseError::Panic(String::from_str(message)))
        }
    }

    /// Moves on to the next statement boundary.
    fn synchronize(&mut self)
        ensures
            final(self).moved(old(self), synchronize(old(self).views(), old(self).pos())),
    {
        if self.is_at_end() {
            return ;
        }
        self.skip();
        while !self.is_at_end() && !(self.current >= 1 && matches!(
            self.tokens[self.current - 1].token_type,
            TokenType::Semicolon
        )) && !begins_statement_token(&self.tokens[self.current].token_type)
            invariant
                self.tokens == old(self).tokens,
                old(self).current < self.current,
                synchronize(old(self).views(), old(self).pos()) == (self.current - old(
                    self,
                ).current) + boundary(self.views(), self.pos()),
            decreases remaining(self.views(), self.pos()),
        {
            self.skip();
        }
    }

    /// Whether the current token is of the same variant as `token_type`.
    fn check(&self, token_type: &TokenType) -> (r: bool)
        ensures
            r == check(self.views(), self.pos(), token_type@),
    {
        if self.is_at_end() {
            return false;
        }
        self.tokens[self.current].token_type.same_kind(token_type)
    }

    /// Uses up the current token and returns it.
    fn advance(&mut self) -> (r: Token)
        requires
            !at_end(old(self).views(), old(self).pos()),
        ensures
            final(self).moved(old(self), 1),
            r == old(self).tokens@[old(self).pos()],
    {
        let token = self.tokens[self.current].clone();
        self.skip();
        token
    }

    /// Uses up the current token.
    fn skip(&mut self)
        requires
            !at_end(old(self).views(), old(self).pos()),
        ensures
            final(self).moved(old(self), 1),
    {
        assert(self.tokens.len() <= usize::MAX);
        self.current = self.current + 1;
    }

    /// Whether no token is left.
    fn is_at_end(&self) -> (r: bool)
        ensures
            r == at_end(self.views(), self.pos()),
    {
        self.current >= self.tokens.len() || matches!(
            self.tokens[self.current].token_type,
            TokenType::Eof
        )
    }

    /// The line that an error at the current token reports.
    fn peek_line(&self) -> (r: usize)
        ensures
            r == line_at(self.views(), self.pos()),
    {
        if self.current < self.tokens.len() {
            self.tokens[self.current].line
        } else if self.tokens.len() > 0 {
            self.tokens[self.tokens.len() - 1].line
        } else {
            0
        }
    }
}

} // verus!
