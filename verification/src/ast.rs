//! The syntax trees that the parser builds and the interpreter walks.

use vstd::prelude::*;
use vstd::string::*;
use crate::tokens::{Kind, Token, TokenType, TokenView};

verus! {

/// An expression.
#[derive(Debug, PartialEq)]
#[allow(inconsistent_fields)]
pub enum Expr {
    Assign { name: Token, value: Box<Expr> },
    Binary { left: Box<Expr>, operator: Token, right: Box<Expr> },
    Grouping { expression: Box<Expr> },
    Literal { value: Token },
    Logical { left: Box<Expr>, operator: Token, right: Box<Expr> },
    Unary { operator: Token, right: Box<Expr> },
    Var { name: Token },
}

/// A statement.
#[derive(Debug, PartialEq)]
pub enum Stmt {
    Expression { expression: Expr },
    If { condition: Expr, then_branch: Box<Stmt>, else_branch: Option<Box<Stmt>> },
    Print { expression: Expr },
    Var { name: Token, initializer: Expr },
    While { condition: Expr, body: Box<Stmt> },
    Block { statements: Vec<Stmt> },
}

/// The mathematical value of an `Expr`.
#[allow(inconsistent_fields)]
pub enum ExprView {
    Assign { name: TokenView, value: Box<ExprView> },
    Binary { left: Box<ExprView>, operator: TokenView, right: Box<ExprView> },
    Grouping { expression: Box<ExprView> },
    Literal { value: TokenView },
    Logical { left: Box<ExprView>, operator: TokenView, right: Box<ExprView> },
    Unary { operator: TokenView, right: Box<ExprView> },
    Var { name: TokenView },
}

/// The mathematical value of a `Stmt`.
pub enum StmtView {
    Expression { expression: ExprView },
    If { condition: ExprView, then_branch: Box<StmtView>, else_branch: Option<Box<StmtView>> },
    Print { expression: ExprView },
    Var { name: TokenView, initializer: ExprView },
    While { condition: ExprView, body: Box<StmtView> },
    Block { statements: Seq<StmtView> },
}

impl Expr {
    /// The mathematical value of the expression.
    pub open spec fn model(&self) -> ExprView
        decreases self,
    {
        match self {
            Expr::Assign { name, value } => ExprView::Assign {
                name: name@,
                value: Box::new(value.model()),
            },
            Expr::Binary { left, operator, right } => ExprView::Binary {
                left: Box::new(left.model()),
                operator: operator@,
                right: Box::new(right.model()),
            },
            Expr::Grouping { expression } => ExprView::Grouping {
                expression: Box::new(expression.model()),
            },
            Expr::Literal { value } => ExprView::Literal { value: value@ },
            Expr::Logical { left, operator, right } => ExprView::Logical {
                left: Box::new(left.model()),
                operator: operator@,
                right: Box::new(right.model()),
            },
            Expr::Unary { operator, right } => ExprView::Unary {
                operator: operator@,
                right: Box::new(right.model()),
            },
            Expr::Var { name } => ExprView::Var { name: name@ },
        }
    }
}

impl Stmt {
    /// The mathematical value of the statement.
    pub open spec fn model(&self) -> StmtView
        decreases self,
    {
        match self {
            Stmt::Expression { expression } => StmtView::Expression { expression: expression.model() },
            Stmt::If { condition, then_branch, else_branch } => StmtView::If {
                condition: condition.model(),
                then_branch: Box::new(then_branch.model()),
                else_branch: match else_branch {
                    Some(branch) => Some(Box::new(branch.model())),
                    None => None,
                },
            },
            Stmt::Print { expression } => StmtView::Print { expression: expression.model() },
            Stmt::Var { name, initializer } => StmtView::Var {
                name: name@,
                initializer: initializer.model(),
            },
            Stmt::While { condition, body } => StmtView::While {
                condition: condition.model(),
                body: Box::new(body.model()),
            },
            Stmt::Block { statements } => StmtView::Block {
                statements: Seq::new(
                    statements@.len(),
                    |i: int|
                        if 0 <= i < statements@.len() {
                            statements@[i].model()
                        } else {
                            StmtView::Block { statements: Seq::empty() }
                        },
                ),
            },
        }
    }
}

impl View for Expr {
    type V = ExprView;

    open spec fn view(&self) -> ExprView {
        self.model()
    }
}

impl View for Stmt {
    type V = StmtView;

    open spec fn view(&self) -> StmtView {
        self.model()
    }
}

impl ExprView {
    /// Whether the tree is one that the grammar can produce: each literal is a literal token,
    /// each name an identifier, each operator one that its node can apply.
    pub open spec fn well_formed(self) -> bool
        decreases self,
    {
        match self {
            ExprView::Assign { name, value } => name.kind is Identifier && value.well_formed(),
            ExprView::Binary { left, operator, right } => operator.kind.is_binary_operator()
                && left.well_formed() && right.well_formed(),
            ExprView::Grouping { expression } => expression.well_formed(),
            ExprView::Literal { value } => value.kind.is_literal(),
            ExprView::Logical { left, operator, right } => operator.kind.is_logical_operator()
                && left.well_formed() && right.well_formed(),
            ExprView::Unary { operator, right } => operator.kind.is_unary_operator()
                && right.well_formed(),
            ExprView::Var { name } => name.kind is Identifier,
        }
    }
}

impl StmtView {
    /// Whether the tree is one that the grammar can produce.
    pub open spec fn well_formed(self) -> bool
        decreases self,
    {
        match self {
            StmtView::Expression { expression } => expression.well_formed(),
            StmtView::If { condition, then_branch, else_branch } => condition.well_formed()
                && then_branch.well_formed() && match else_branch {
                Some(branch) => branch.well_formed(),
                None => true,
            },
            StmtView::Print { expression } => expression.well_formed(),
            StmtView::Var { name, initializer } => name.kind is Identifier
                && initializer.well_formed(),
            StmtView::While { condition, body } => condition.well_formed() && body.well_formed(),
            StmtView::Block { statements } => forall|i: int|
                0 <= i < statements.len() ==> (#[trigger] statements[i]).well_formed(),
        }
    }
}

/// Whether each of the statements is one that the grammar can produce.
pub open spec fn all_well_formed(statements: Seq<StmtView>) -> bool {
    forall|i: int| 0 <= i < statements.len() ==> (#[trigger] statements[i]).well_formed()
}

fn is_unary_operator(token_type: &TokenType) -> (r: bool)
    ensures
        r == token_type@.is_unary_operator(),
{
    matches!(token_type, TokenType::Minus | TokenType::Bang)
}

fn is_binary_operator(token_type: &TokenType) -> (r: bool)
    ensures
        r == token_type@.is_binary_operator(),
{
    matches!(
        token_type,
        TokenType::Minus | TokenType::Slash | TokenType::Star | TokenType::Plus
            | TokenType::Greater | TokenType::GreaterEqual | TokenType::Less
            | TokenType::LessEqual | TokenType::EqualEqual | TokenType::BangEqual
    )
}

fn is_logical_operator(token_type: &TokenType) -> (r: bool)
    ensures
        r == token_type@.is_logical_operator(),
{
    matches!(token_type, TokenType::And | TokenType::Or)
}

fn is_literal(token_type: &TokenType) -> (r: bool)
    ensures
        r == token_type@.is_literal(),
{
    matches!(
        token_type,
        TokenType::False | TokenType::True | TokenType::Nil | TokenType::Number(_)
            | TokenType::String(_)
    )
}

fn is_identifier(token_type: &TokenType) -> (r: bool)
    ensures
        r == token_type@ is Identifier,
{
    matches!(token_type, TokenType::Identifier(_))
}

impl Expr {
    /// Whether the tree is one that the grammar can produce.
    pub fn is_well_formed(&self) -> (r: bool)
        ensures
            r == self@.well_formed(),
        decreases self,
    {
        match self {
            Expr::Assign { name, value } => is_identifier(&name.token_type)
                && value.is_well_formed(),
            Expr::Binary { left, operator, right } => is_binary_operator(&operator.token_type)
                && left.is_well_formed() && right.is_well_formed(),
            Expr::Grouping { expression } => expression.is_well_formed(),
            Expr::Literal { value } => is_literal(&value.token_type),
            Expr::Logical { left, operator, right } => is_logical_operator(&operator.token_type)
                && left.is_well_formed() && right.is_well_formed(),
            Expr::Unary { operator, right } => is_unary_operator(&operator.token_type)
                && right.is_well_formed(),
            Expr::Var { name } => is_identifier(&name.token_type),
        }
    }
}

impl Stmt {
    /// Whether the tree is one that the grammar can produce.
    pub fn is_well_formed(&self) -> (r: bool)
        ensures
            r == self@.well_formed(),
        decreases self,
    {
        match self {
            Stmt::Expression { expression } => expression.is_well_formed(),
            Stmt::If { condition, then_branch, else_branch } => condition.is_well_formed()
                && then_branch.is_well_formed() && match else_branch {
                Some(branch) => branch.is_well_formed(),
                None => true,
            },
            Stmt::Print { expression } => expression.is_well_formed(),
            Stmt::Var { name, initializer } => is_identifier(&name.token_type)
                && initializer.is_well_formed(),
            Stmt::While { condition, body } => condition.is_well_formed()
                && body.is_well_formed(),
            Stmt::Block { statements } => {
                let mut i: usize = 0;
                while i < statements.len()
                    invariant
                        i <= statements.len(),
                        *self == (Stmt::Block { statements: *statements }),
                        forall|j: int| 0 <= j < i ==> (#[trigger] statements@[j]).model().well_formed(),
                    decreases statements.len() - i,
                {
                    proof {
                        assert(decreases_to!(self => statements@[i as int]));
                    }
                    if !statements[i].is_well_formed() {
                        assert(!self@->Block_statements[i as int].well_formed());
                        return false;
                    }
                    i = i + 1;
                }
                true
            },
        }
    }
}

/// Whether each of the statements is one that the grammar can produce.
pub fn are_well_formed(statements: &Vec<Stmt>) -> (r: bool)
    ensures
        r == all_well_formed(stmt_views(statements@)),
{
    let mut i: usize = 0;
    while i < statements.len()
        invariant
            i <= statements.len(),
            forall|j: int| 0 <= j < i ==> (#[trigger] statements@[j])@.well_formed(),
        decreases statements.len() - i,
    {
        if !statements[i].is_well_formed() {
            assert(!stmt_views(statements@)[i as int].well_formed());
            return false;
        }
        i = i + 1;
    }
    assert forall|j: int| 0 <= j < stmt_views(statements@).len() implies (
    #[trigger] stmt_views(statements@)[j]).well_formed() by {
        assert(statements@[j]@.well_formed());
    }
    true
}

/// The views of a sequence of statements, one for one.
pub open spec fn stmt_views(statements: Seq<Stmt>) -> Seq<StmtView> {
    Seq::new(statements.len(), |i: int| statements[i]@)
}

/// A piece of the text of a tree: text as it stands, or a number, which the caller renders.
#[derive(Debug, PartialEq)]
pub enum Piece {
    Text(String),
    Number(u64),
}

/// The mathematical value of a `Piece`.
pub enum PieceView {
    Text(Seq<char>),
    Number(u64),
}

impl View for Piece {
    type V = PieceView;

    open spec fn view(&self) -> PieceView {
        match self {
            Piece::Text(text) => PieceView::Text(text@),
            Piece::Number(bits) => PieceView::Number(*bits),
        }
    }
}

/// The views of a sequence of pieces, one for one.
pub open spec fn piece_views(pieces: Seq<Piece>) -> Seq<PieceView> {
    Seq::new(pieces.len(), |i: int| pieces[i]@)
}

/// How a token is written: a number as itself, a string between double quotes, any other
/// token as its text.
pub open spec fn written(token: TokenView) -> Seq<PieceView> {
    match token.kind {
        Kind::Number(bits) => seq![PieceView::Number(bits)],
        Kind::String(text) => seq![
            PieceView::Text("\""@),
            PieceView::Text(text),
            PieceView::Text("\""@),
        ],
        kind => seq![PieceView::Text(kind.text())],
    }
}

/// The text of one piece.
pub open spec fn text(text: Seq<char>) -> Seq<PieceView> {
    seq![PieceView::Text(text)]
}

/// How an expression is written, with parentheses around each operator and its operands.
pub open spec fn printed(expression: ExprView) -> Seq<PieceView>
    decreases expression,
{
    match expression {
        ExprView::Assign { name, value } => written(name) + text("="@) + printed(*value),
        ExprView::Binary { left, operator, right } => text("("@) + printed(*left) + text(" "@)
            + written(operator) + text(" "@) + printed(*right) + text(")"@),
        ExprView::Grouping { expression } => text("(group "@) + printed(*expression) + text(
            ")"@,
        ),
        ExprView::Literal { value } => written(value),
        ExprView::Logical { left, operator, right } => text("("@) + printed(*left) + text(" "@)
            + written(operator) + text(" "@) + printed(*right) + text(")"@),
        ExprView::Unary { operator, right } => text("("@) + written(operator) + printed(*right)
            + text(")"@),
        ExprView::Var { name } => written(name),
    }
}

/// Appends a piece of text.
fn put(out: &mut Vec<Piece>, piece: &str)
    ensures
        piece_views(final(out)@) == piece_views(old(out)@) + text(piece@),
{
    out.push(Piece::Text(String::from_str(piece)));
    proof {
        assert(piece_views(out@) =~= piece_views(old(out)@) + text(piece@));
    }
}

/// Appends a token as it is written.
fn put_token(out: &mut Vec<Piece>, token: &Token)
    ensures
        piece_views(final(out)@) == piece_views(old(out)@) + written(token@),
{
    match &token.token_type {
        TokenType::Number(bits) => {
            out.push(Piece::Number(*bits));
            proof {
                assert(piece_views(out@) =~= piece_views(old(out)@) + written(token@));
            }
        },
        TokenType::String(text) => {
            out.push(Piece::Text(String::from_str("\"")));
            out.push(Piece::Text(text.clone()));
            out.push(Piece::Text(String::from_str("\"")));
            proof {
                assert(piece_views(out@) =~= piece_views(old(out)@) + written(token@));
            }
        },
        other => {
            out.push(Piece::Text(other.text()));
            proof {
                assert(piece_views(out@) =~= piece_views(old(out)@) + written(token@));
            }
        },
    }
}

/// Writes expressions out, for a reader who wants to see how they were parsed.
pub struct AstPrinter {}

impl AstPrinter {
    /// The expression as it is written, in pieces.
    pub fn print(&mut self, expr: &Expr) -> (r: Vec<Piece>)
        ensures
            piece_views(r@) == printed(expr@),
    {
        let mut out: Vec<Piece> = Vec::new();
        proof {
            assert(piece_views(out@) =~= Seq::<PieceView>::empty());
        }
        self.append(expr, &mut out);
        proof {
            assert(Seq::<PieceView>::empty() + printed(expr@) =~= printed(expr@));
        }
        out
    }

    /// Appends the expression as it is written.
    fn append(&self, expr: &Expr, out: &mut Vec<Piece>)
        ensures
            piece_views(final(out)@) == piece_views(old(out)@) + printed(expr@),
        decreases expr,
    {
        let ghost before = piece_views(out@);
        match expr {
            Expr::Assign { name, value } => {
                put_token(out, name);
                put(out, "=");
                self.append(value, out);
                proof {
                    assert(piece_views(out@) =~= before + printed(expr@));
                }
            },
            Expr::Binary { left, operator, right } => {
                put(out, "(");
                self.append(left, out);
                put(out, " ");
                put_token(out, operator);
                put(out, " ");
                self.append(right, out);
                put(out, ")");
                proof {
                    assert(piece_views(out@) =~= before + printed(expr@));
                }
            },
            Expr::Grouping { expression } => {
                put(out, "(group ");
                self.append(expression, out);
                put(out, ")");
                proof {
                    assert(piece_views(out@) =~= before + printed(expr@));
                }
            },
            Expr::Literal { value } => {
                put_token(out, value);
            },
            Expr::Logical { left, operator, right } => {
                put(out, "(");
                self.append(left, out);
                put(out, " ");
                put_token(out, operator);
                put(out, " ");
                self.append(right, out);
                put(out, ")");
                proof {
                    assert(piece_views(out@) =~= before + printed(expr@));
                }
            },
            Expr::Unary { operator, right } => {
                put(out, "(");
                put_token(out, operator);
                self.append(right, out);
                put(out, ")");
                proof {
                    assert(piece_views(out@) =~= before + printed(expr@));
                }
            },
            Expr::Var { name } => {
                put_token(out, name);
            },
        }
    }
}

} // verus!
