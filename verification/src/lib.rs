//! A tree-walking interpreter for a small scripting language: a scanner, a parser, an
//! environment of nested scopes, and a machine that runs a program step by step.

use vstd::prelude::*;

pub mod ast;
pub mod chars;
pub mod environment;
pub mod interpreter;
pub mod number;
pub mod parser;
pub mod scanner;
pub mod semantics;
pub mod tokens;

use crate::ast::{all_well_formed, stmt_views, Stmt, StmtView};
use crate::number::{decimal_value, lemma_one_digit, lemma_small_numbers, nearest_binary64};
use crate::parser::{
    lemma_invalid_assignment_target, lemma_product_binds_tighter, sum_of_product, ParseError,
    ParseFault, Parser,
};
use crate::scanner::{
    lemma_scan_rest_at_end, run_len, scan_rest, scan_step, Class, ScanError, Scanner, Step,
};
use crate::tokens::{token_views, Kind, TokenView};

verus! {

/// Why a text is no program, or why a program failed.
#[derive(Debug, PartialEq)]
pub enum LoxError {
    ParseError(ParseError),
    InterpreterError(interpreter::InterpreterError),
    ScanError(ScanError),
}

/// The mathematical value of a `LoxError` that reading a program can give.
pub enum ReadFault {
    Scan(ScanError),
    Parse(ParseFault),
}

/// The statements that a text spells: those that its tokens parse to. A text that cannot
/// be scanned fails with the error of the scanner, and one whose tokens cannot be parsed
/// with the error of the parser.
pub open spec fn program_of(source: Seq<char>) -> Result<Seq<StmtView>, ReadFault> {
    match scanner::scan(source) {
        Err(error) => Err(ReadFault::Scan(error)),
        Ok(tokens) => match parser::parse(tokens) {
            Err(fault) => Err(ReadFault::Parse(fault)),
            Ok(statements) => Ok(statements),
        },
    }
}

/// Scans and parses a text. The statements that come back are ready to be interpreted.
pub fn read_program(source: &str) -> (r: Result<Vec<Stmt>, LoxError>)
    ensures
        match r {
            Ok(statements) => program_of(source@) == Ok::<Seq<StmtView>, ReadFault>(
                stmt_views(statements@),
            ) && all_well_formed(stmt_views(statements@)),
            Err(LoxError::ScanError(error)) => program_of(source@) == Err::<
                Seq<StmtView>,
                ReadFault,
            >(ReadFault::Scan(error)),
            Err(LoxError::ParseError(error)) => program_of(source@) == Err::<
                Seq<StmtView>,
                ReadFault,
            >(ReadFault::Parse(error@)),
            Err(LoxError::InterpreterError(_)) => false,
        },
{
    let mut scanner = Scanner::new(source);
    let tokens = match scanner.scan_tokens() {
        Ok(tokens) => tokens,
        Err(error) => {
            return Err(LoxError::ScanError(error));
        },
    };
    proof {
        assert(token_views(Seq::<tokens::Token>::empty()) + scanner::scan(source@)->Ok_0
            =~= scanner::scan(source@)->Ok_0);
    }
    let mut parser = Parser::new(tokens);
    match parser.parse() {
        Ok(statements) => Ok(statements),
        Err(error) => Err(LoxError::ParseError(error)),
    }
}

/// The token of a kind on line one.
pub open spec fn on_line_one(kind: Kind) -> TokenView {
    TokenView { kind, line: 1 }
}

/// The step that reads a number of one digit on line one, where no digit follows it.
proof fn lemma_digit_step(source: Seq<char>, pos: int, value: nat)
    requires
        0 <= pos < source.len(),
        '0' <= source[pos] <= '9',
        source[pos] as nat - '0' as nat == value,
        pos + 1 < source.len() ==> !('0' <= source[pos + 1] <= '9'),
    ensures
        scan_step(source, pos, 1) == (Step::Read {
            token: on_line_one(Kind::Number(nearest_binary64(value))),
            pos: pos + 1,
            line: 1,
        }),
{
    reveal_with_fuel(run_len, 2);
    assert(run_len(source, pos, Class::Digits) == 1);
    assert(source.subrange(pos, pos + 1) =~= seq![source[pos]]);
    lemma_one_digit(source[pos]);
}

/// The step that reads an operator or delimiter of one character on line one.
proof fn lemma_sign_step(source: Seq<char>, pos: int, kind: Kind)
    requires
        0 <= pos < source.len(),
        pos + 1 < source.len() ==> source[pos + 1] != '=' && source[pos + 1] != '/',
        scanner::punctuation(source[pos], false) == Some((kind, 1int)),
    ensures
        scan_step(source, pos, 1) == (Step::Read { token: on_line_one(kind), pos: pos + 1, line: 1 }),
{
}

/// A space on line one is passed over.
proof fn lemma_space_step(source: Seq<char>, pos: int)
    requires
        0 <= pos < source.len(),
        source[pos] == ' ',
    ensures
        scan_step(source, pos, 1) == scan_step(source, pos + 1, 1),
{
}

/// The tokens from a step that reads a token are that token and those that follow.
proof fn lemma_read(source: Seq<char>, pos: int, token: TokenView, rest: Seq<TokenView>)
    requires
        scan_step(source, pos, 1) == (Step::Read { token, pos: pos + 1, line: 1 }),
        scan_rest(source, pos + 1, 1) == (scanner::Scanned {
            tokens: rest,
            pos: source.len() as int,
            line: 1,
            error: None,
        }),
    ensures
        scan_rest(source, pos, 1) == (scanner::Scanned {
            tokens: seq![token] + rest,
            pos: source.len() as int,
            line: 1,
            error: None,
        }),
{
}

/// The tokens of the text `1+2*3;`.
proof fn lemma_sum_of_product_tokens()
    ensures
        scanner::scan("1+2*3;"@) == Ok::<Seq<TokenView>, ScanError>(
            seq![
                on_line_one(Kind::Number(0x3ff0_0000_0000_0000)),
                on_line_one(Kind::Plus),
                on_line_one(Kind::Number(0x4000_0000_0000_0000)),
                on_line_one(Kind::Star),
                on_line_one(Kind::Number(0x4008_0000_0000_0000)),
                on_line_one(Kind::Semicolon),
                on_line_one(Kind::Eof),
            ],
        ),
{
    reveal_strlit("1+2*3;");
    let source = "1+2*3;"@;
    assert(source =~= seq!['1', '+', '2', '*', '3', ';']);
    lemma_small_numbers();
    let a = on_line_one(Kind::Number(0x3ff0_0000_0000_0000));
    let plus = on_line_one(Kind::Plus);
    let b = on_line_one(Kind::Number(0x4000_0000_0000_0000));
    let star = on_line_one(Kind::Star);
    let c = on_line_one(Kind::Number(0x4008_0000_0000_0000));
    let end = on_line_one(Kind::Semicolon);
    lemma_digit_step(source, 0, 1);
    lemma_sign_step(source, 1, Kind::Plus);
    lemma_digit_step(source, 2, 2);
    lemma_sign_step(source, 3, Kind::Star);
    lemma_digit_step(source, 4, 3);
    lemma_sign_step(source, 5, Kind::Semicolon);
    lemma_scan_rest_at_end(source, 6, 1);
    lemma_read(source, 5, end, seq![]);
    assert(seq![end] + Seq::<TokenView>::empty() =~= seq![end]);
    lemma_read(source, 4, c, seq![end]);
    assert(seq![c] + seq![end] =~= seq![c, end]);
    lemma_read(source, 3, star, seq![c, end]);
    assert(seq![star] + seq![c, end] =~= seq![star, c, end]);
    lemma_read(source, 2, b, seq![star, c, end]);
    assert(seq![b] + seq![star, c, end] =~= seq![b, star, c, end]);
    lemma_read(source, 1, plus, seq![b, star, c, end]);
    assert(seq![plus] + seq![b, star, c, end] =~= seq![plus, b, star, c, end]);
    lemma_read(source, 0, a, seq![plus, b, star, c, end]);
    assert(seq![a] + seq![plus, b, star, c, end] =~= seq![a, plus, b, star, c, end]);
    assert(seq![a, plus, b, star, c, end].push(on_line_one(Kind::Eof)) =~= seq![
        a,
        plus,
        b,
        star,
        c,
        end,
        on_line_one(Kind::Eof),
    ]);
}

/// The text `1+2*3;` is the program of one statement: the sum of one and the product of
/// two and three.
pub proof fn lemma_sum_of_product_text()
    ensures
        program_of("1+2*3;"@) == Ok::<Seq<StmtView>, ReadFault>(
            seq![
                sum_of_product(
                    on_line_one(Kind::Number(0x3ff0_0000_0000_0000)),
                    on_line_one(Kind::Plus),
                    on_line_one(Kind::Number(0x4000_0000_0000_0000)),
                    on_line_one(Kind::Star),
                    on_line_one(Kind::Number(0x4008_0000_0000_0000)),
                ),
            ],
        ),
{
    lemma_sum_of_product_tokens();
    lemma_product_binds_tighter(
        on_line_one(Kind::Number(0x3ff0_0000_0000_0000)),
        on_line_one(Kind::Plus),
        on_line_one(Kind::Number(0x4000_0000_0000_0000)),
        on_line_one(Kind::Star),
        on_line_one(Kind::Number(0x4008_0000_0000_0000)),
        on_line_one(Kind::Semicolon),
        on_line_one(Kind::Eof),
    );
}

/// The tokens of the text `1 = 2;`.
proof fn lemma_invalid_assignment_tokens()
    ensures
        scanner::scan("1 = 2;"@) == Ok::<Seq<TokenView>, ScanError>(
            seq![
                on_line_one(Kind::Number(0x3ff0_0000_0000_0000)),
                on_line_one(Kind::Equal),
                on_line_one(Kind::Number(0x4000_0000_0000_0000)),
                on_line_one(Kind::Semicolon),
                on_line_one(Kind::Eof),
            ],
        ),
{
    reveal_strlit("1 = 2;");
    let source = "1 = 2;"@;
    assert(source =~= seq!['1', ' ', '=', ' ', '2', ';']);
    lemma_small_numbers();
    let a = on_line_one(Kind::Number(0x3ff0_0000_0000_0000));
    let equal = on_line_one(Kind::Equal);
    let b = on_line_one(Kind::Number(0x4000_0000_0000_0000));
    let end = on_line_one(Kind::Semicolon);
    lemma_digit_step(source, 0, 1);
    lemma_space_step(source, 1);
    lemma_sign_step(source, 2, Kind::Equal);
    lemma_space_step(source, 3);
    lemma_digit_step(source, 4, 2);
    lemma_sign_step(source, 5, Kind::Semicolon);
    lemma_scan_rest_at_end(source, 6, 1);
    lemma_read(source, 5, end, seq![]);
    assert(seq![end] + Seq::<TokenView>::empty() =~= seq![end]);
    lemma_read(source, 4, b, seq![end]);
    assert(seq![b] + seq![end] =~= seq![b, end]);
    assert(scan_rest(source, 3, 1) == scan_rest(source, 4, 1)) by {
        lemma_space_rest(source, 3);
    }
    lemma_read(source, 2, equal, seq![b, end]);
    assert(seq![equal] + seq![b, end] =~= seq![equal, b, end]);
    assert(scan_rest(source, 1, 1) == scan_rest(source, 2, 1)) by {
        lemma_space_rest(source, 1);
    }
    lemma_read(source, 0, a, seq![equal, b, end]);
    assert(seq![a] + seq![equal, b, end] =~= seq![a, equal, b, end]);
    assert(seq![a, equal, b, end].push(on_line_one(Kind::Eof)) =~= seq![
        a,
        equal,
        b,
        end,
        on_line_one(Kind::Eof),
    ]);
}

/// The tokens from a space on are those from the character after it on, where a token
/// follows.
proof fn lemma_space_rest(source: Seq<char>, pos: int)
    requires
        0 <= pos < source.len(),
        source[pos] == ' ',
        scan_step(source, pos + 1, 1) is Read,
    ensures
        scan_rest(source, pos, 1) == scan_rest(source, pos + 1, 1),
{
    lemma_space_step(source, pos);
}

/// The text `1 = 2;` is no program: a number cannot be assigned to.
pub proof fn lemma_invalid_assignment_text()
    ensures
        program_of("1 = 2;"@) == Err::<Seq<StmtView>, ReadFault>(
            ReadFault::Parse(ParseFault::Panic("Invalid assignment target."@)),
        ),
{
    lemma_invalid_assignment_tokens();
    lemma_invalid_assignment_target(
        on_line_one(Kind::Number(0x3ff0_0000_0000_0000)),
        on_line_one(Kind::Equal),
        on_line_one(Kind::Number(0x4000_0000_0000_0000)),
        on_line_one(Kind::Semicolon),
        on_line_one(Kind::Eof),
    );
}

} // verus!
