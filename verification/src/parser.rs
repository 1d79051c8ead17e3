//! The parser: tokens to statements, by recursive descent with one level of
//! precedence per rule, and with recovery after a malformed statement.

use crate::ast::{
    lemma_block_view, stmt_views, Expr, ExprView, Stmt, StmtView, Value, ValueView,
};
use crate::reporter::{
    lemma_static_chain, lemma_static_step, only_static_added, reported_to, sink_of,
    DiagnosticView, ErrorReporter, Sink,
};
use crate::text::push_text;
use crate::tokens::{token_views, Payload, Token, TokenKind, TokenType, TokenView};
use vstd::prelude::*;

verus! {

/// Why a statement could not be parsed.
#[derive(Clone, Copy, PartialEq, Eq, Structural, Debug)]
pub enum ParseError {
    ExpectExpression,
    ConsumeUntilTokenNotFound,
}

/// The result of parsing from some position: the value or the error, how
/// many tokens were used, and the sink with what was reported added to it.
pub struct Parsed<T> {
    pub value: Result<T, ParseError>,
    pub consumed: nat,
    pub sink: Sink,
}

/// The same result, seen from `offset` tokens earlier.
pub open spec fn resumed<T>(parsed: Parsed<T>, offset: nat) -> Parsed<T> {
    Parsed { value: parsed.value, consumed: parsed.consumed + offset, sink: parsed.sink }
}

/// The error of `parsed`, as the result of a rule with another value.
pub open spec fn failed<T, U>(parsed: Parsed<T>) -> Parsed<U> {
    Parsed {
        value: match parsed.value {
            Ok(_) => Err(ParseError::ExpectExpression),
            Err(error) => Err(error),
        },
        consumed: parsed.consumed,
        sink: parsed.sink,
    }
}

/// The place of a token in a diagnostic: `at end` for the end of the file,
/// else the token's text between single quotes.
pub open spec fn location_of(token: TokenView) -> Seq<char> {
    if token.kind == TokenKind::EndOfFile {
        " at end"@
    } else {
        " at '"@ + token.lexeme + "'"@
    }
}

/// The diagnostic of a parse error at `token`.
pub open spec fn fault_at(token: TokenView, message: Seq<char>) -> DiagnosticView {
    DiagnosticView::Static { line: token.line, location: location_of(token), message }
}

/// How many tokens stand at `pos` and behind it.
pub open spec fn remaining(ts: Seq<TokenView>, pos: int) -> nat {
    if pos < ts.len() {
        (ts.len() - pos) as nat
    } else {
        0
    }
}

/// Parsing is at its end at the end-of-file token.
pub open spec fn at_end(ts: Seq<TokenView>, pos: int) -> bool {
    !(0 <= pos < ts.len()) || ts[pos].kind == TokenKind::EndOfFile
}

/// The next token is of the kind `kind`.
pub open spec fn check(ts: Seq<TokenView>, pos: int, kind: TokenKind) -> bool {
    !at_end(ts, pos) && ts[pos].kind == kind
}

/// The token of kind `kind` that is expected next; where another one stands
/// there, the error `message` at that token.
pub open spec fn consume_expected(
    ts: Seq<TokenView>,
    pos: int,
    sink: Sink,
    kind: TokenKind,
    message: Seq<char>,
) -> Parsed<TokenView> {
    if check(ts, pos, kind) {
        Parsed { value: Ok(ts[pos]), consumed: 1, sink }
    } else {
        Parsed {
            value: Err(ParseError::ConsumeUntilTokenNotFound),
            consumed: 0,
            sink: reported_to(sink, fault_at(ts[pos], message)),
        }
    }
}

/// The value that a literal token stands for.
pub open spec fn literal_of(token: TokenView) -> ValueView {
    match token.payload {
        Payload::Number(value) => ValueView::Number(value),
        Payload::Text(text) => ValueView::Text(text),
        Payload::Nothing => ValueView::Nil,
    }
}

/// The operators of each level of precedence, from the tightest:
/// `/ *`, then `- +`, then the comparisons, then `!= ==`.
pub open spec fn is_operator(level: nat, kind: TokenKind) -> bool {
    if level == 0 {
        kind == TokenKind::Slash || kind == TokenKind::Star
    } else if level == 1 {
        kind == TokenKind::Minus || kind == TokenKind::Plus
    } else if level == 2 {
        kind == TokenKind::Greater || kind == TokenKind::GreaterEqual || kind == TokenKind::Less
            || kind == TokenKind::LessEqual
    } else if level == 3 {
        kind == TokenKind::BangEqual || kind == TokenKind::EqualEqual
    } else {
        false
    }
}

/// The level of equality, the loosest of the binary operators.
pub open spec fn equality_level() -> nat {
    3
}

/// `primary = "false" | "true" | "nil" | NUMBER | STRING | IDENT
///          | "(" expression ")"`.
pub open spec fn primary(ts: Seq<TokenView>, pos: int, sink: Sink) -> Parsed<ExprView>
    decreases remaining(ts, pos), 0nat,
{
    if check(ts, pos, TokenKind::False) {
        Parsed { value: Ok(ExprView::Literal(ValueView::Bool(false))), consumed: 1, sink }
    } else if check(ts, pos, TokenKind::True) {
        Parsed { value: Ok(ExprView::Literal(ValueView::Bool(true))), consumed: 1, sink }
    } else if check(ts, pos, TokenKind::Nil) {
        Parsed { value: Ok(ExprView::Literal(ValueView::Nil)), consumed: 1, sink }
    } else if check(ts, pos, TokenKind::Number) || check(ts, pos, TokenKind::String) {
        Parsed { value: Ok(ExprView::Literal(literal_of(ts[pos]))), consumed: 1, sink }
    } else if check(ts, pos, TokenKind::Identifier) {
        Parsed { value: Ok(ExprView::Variable(ts[pos])), consumed: 1, sink }
    } else if check(ts, pos, TokenKind::LeftParen) {
        let inner = expression(ts, pos + 1, sink);
        match inner.value {
            Err(_) => resumed(inner, 1),
            Ok(expr) => {
                let close = consume_expected(
                    ts,
                    pos + 1 + inner.consumed,
                    inner.sink,
                    TokenKind::RightParen,
                    "Expect ')' after expression"@,
                );
                Parsed {
                    value: match close.value {
                        Ok(_) => Ok(ExprView::Grouping(Box::new(expr))),
                        Err(error) => Err(error),
                    },
                    consumed: 1 + inner.consumed + close.consumed,
                    sink: close.sink,
                }
            },
        }
    } else {
        Parsed {
            value: Err(ParseError::ExpectExpression),
            consumed: 0,
            sink: reported_to(sink, fault_at(ts[pos], "Expect expression."@)),
        }
    }
}

/// `unary = ( "!" | "-" ) unary | primary`.
pub open spec fn unary(ts: Seq<TokenView>, pos: int, sink: Sink) -> Parsed<ExprView>
    decreases remaining(ts, pos), 1nat,
{
    if check(ts, pos, TokenKind::Bang) || check(ts, pos, TokenKind::Minus) {
        let right = unary(ts, pos + 1, sink);
        Parsed {
            value: match right.value {
                Ok(expr) => Ok(ExprView::Unary { operator: ts[pos], right: Box::new(expr) }),
                Err(error) => Err(error),
            },
            consumed: 1 + right.consumed,
            sink: right.sink,
        }
    } else {
        primary(ts, pos, sink)
    }
}

/// The operand of a binary operator of level `level`: an expression of the
/// next tighter level.
#[verifier::opaque]
pub open spec fn operand(level: nat, ts: Seq<TokenView>, pos: int, sink: Sink) -> Parsed<ExprView>
    decreases remaining(ts, pos), 2 + 3 * level,
{
    if level == 0 {
        unary(ts, pos, sink)
    } else {
        binary(( level - 1 ) as nat, ts, pos, sink)
    }
}

/// What follows the operand `left` at level `level`: while an operator of
/// the level comes next, it and the operand behind it are folded into `left`,
/// so that operators of one level associate to the left.
pub open spec fn binary_rest(
    level: nat,
    ts: Seq<TokenView>,
    pos: int,
    sink: Sink,
    left: ExprView,
) -> Parsed<ExprView>
    decreases remaining(ts, pos), 3 + 3 * level,
{
    if !at_end(ts, pos) && is_operator(level, ts[pos].kind) {
        let right = operand(level, ts, pos + 1, sink);
        match right.value {
            Err(_) => resumed(right, 1),
            Ok(expr) => resumed(
                binary_rest(
                    level,
                    ts,
                    pos + 1 + right.consumed,
                    right.sink,
                    ExprView::Binary {
                        left: Box::new(left),
                        operator: ts[pos],
                        right: Box::new(expr),
                    },
                ),
                1 + right.consumed,
            ),
        }
    } else {
        Parsed { value: Ok(left), consumed: 0, sink }
    }
}

/// An expression of level `level`: operands of the next tighter level,
/// joined by operators of the level.
pub open spec fn binary(level: nat, ts: Seq<TokenView>, pos: int, sink: Sink) -> Parsed<ExprView>
    decreases remaining(ts, pos), 4 + 3 * level,
{
    let first = operand(level, ts, pos, sink);
    match first.value {
        Err(_) => first,
        Ok(left) => resumed(
            binary_rest(level, ts, pos + first.consumed, first.sink, left),
            first.consumed,
        ),
    }
}

/// `assignment = equality ( "=" assignment )?`.
///
/// It associates to the right. Where the left side is not a variable, the
/// error `Invalid assignment target.` is reported at the `=`, nothing is
/// assigned, and the right side alone is the result: parsing goes on behind
/// it without recovery.
pub open spec fn assignment(ts: Seq<TokenView>, pos: int, sink: Sink) -> Parsed<ExprView>
    decreases remaining(ts, pos), 20nat,
{
    let target = binary(equality_level(), ts, pos, sink);
    match target.value {
        Err(_) => target,
        Ok(expr) => {
            let equals = pos + target.consumed;
            if check(ts, equals, TokenKind::Equal) {
                let value = assignment(ts, equals + 1, target.sink);
                match value.value {
                    Err(_) => resumed(value, target.consumed + 1),
                    Ok(assigned) => match expr {
                        ExprView::Variable(name) => Parsed {
                            value: Ok(ExprView::Assign(name, Box::new(assigned))),
                            consumed: target.consumed + 1 + value.consumed,
                            sink: value.sink,
                        },
                        _ => Parsed {
                            value: Ok(assigned),
                            consumed: target.consumed + 1 + value.consumed,
                            sink: reported_to(
                                value.sink,
                                fault_at(ts[equals], "Invalid assignment target."@),
                            ),
                        },
                    },
                }
            } else {
                target
            }
        },
    }
}

/// `expression = assignment`.
#[verifier::opaque]
pub open spec fn expression(ts: Seq<TokenView>, pos: int, sink: Sink) -> Parsed<ExprView>
    decreases remaining(ts, pos), 21nat,
{
    assignment(ts, pos, sink)
}

/// An expression and the `;` behind it, whose absence is the error
/// `message`.
pub open spec fn terminated_expression(
    ts: Seq<TokenView>,
    pos: int,
    sink: Sink,
    message: Seq<char>,
) -> Parsed<ExprView>
    decreases remaining(ts, pos), 22nat,
{
    let expr = expression(ts, pos, sink);
    match expr.value {
        Err(_) => expr,
        Ok(value) => {
            let end = consume_expected(
                ts,
                pos + expr.consumed,
                expr.sink,
                TokenKind::Semicolon,
                message,
            );
            Parsed {
                value: match end.value {
                    Ok(_) => Ok(value),
                    Err(error) => Err(error),
                },
                consumed: expr.consumed + end.consumed,
                sink: end.sink,
            }
        },
    }
}

/// The rest of `varDecl = "var" IDENT ( "=" expression )? ";"` behind `var`.
pub open spec fn var_declaration(ts: Seq<TokenView>, pos: int, sink: Sink) -> Parsed<StmtView>
    decreases remaining(ts, pos), 23nat,
{
    let name = consume_expected(ts, pos, sink, TokenKind::Identifier, "Expect variable name."@);
    match name.value {
        Err(_) => failed(name),
        Ok(token) => if check(ts, pos + 1, TokenKind::Equal) {
            let initializer = terminated_expression(
                ts,
                pos + 2,
                sink,
                "Expect ';' after variable declaration."@,
            );
            Parsed {
                value: match initializer.value {
                    Ok(expr) => Ok(StmtView::Var(token, Some(expr))),
                    Err(error) => Err(error),
                },
                consumed: 2 + initializer.consumed,
                sink: initializer.sink,
            }
        } else {
            let end = consume_expected(
                ts,
                pos + 1,
                sink,
                TokenKind::Semicolon,
                "Expect ';' after variable declaration."@,
            );
            Parsed {
                value: match end.value {
                    Ok(_) => Ok(StmtView::Var(token, None)),
                    Err(error) => Err(error),
                },
                consumed: 1 + end.consumed,
                sink: end.sink,
            }
        },
    }
}

/// `statement = "print" expression ";" | "{" declaration* "}"
///            | expression ";"`.
pub open spec fn statement(ts: Seq<TokenView>, pos: int, sink: Sink) -> Parsed<StmtView>
    decreases remaining(ts, pos), 24nat,
{
    if check(ts, pos, TokenKind::Print) {
        let value = terminated_expression(ts, pos + 1, sink, "Expect ';' after value."@);
        Parsed {
            value: match value.value {
                Ok(expr) => Ok(StmtView::Print(expr)),
                Err(error) => Err(error),
            },
            consumed: 1 + value.consumed,
            sink: value.sink,
        }
    } else if check(ts, pos, TokenKind::LeftBrace) {
        let body = block(ts, pos + 1, sink, Seq::empty());
        Parsed {
            value: match body.value {
                Ok(statements) => Ok(StmtView::Block(statements)),
                Err(error) => Err(error),
            },
            consumed: 1 + body.consumed,
            sink: body.sink,
        }
    } else {
        let value = terminated_expression(ts, pos, sink, "Expect ';' after expression."@);
        Parsed {
            value: match value.value {
                Ok(expr) => Ok(StmtView::Expression(expr)),
                Err(error) => Err(error),
            },
            consumed: value.consumed,
            sink: value.sink,
        }
    }
}

/// `declaration = "var" varDecl | statement`.
#[verifier::opaque]
pub open spec fn declaration(ts: Seq<TokenView>, pos: int, sink: Sink) -> Parsed<StmtView>
    decreases remaining(ts, pos), 25nat,
{
    if check(ts, pos, TokenKind::Var) {
        resumed(var_declaration(ts, pos + 1, sink), 1)
    } else {
        statement(ts, pos, sink)
    }
}

/// The declarations of a block behind those in `done`, up to the `}` that
/// closes it. The first one that fails ends the block with its error.
///
/// A declaration that succeeds uses at least one token, so the branch for
/// one that uses none is never taken.
pub open spec fn block(
    ts: Seq<TokenView>,
    pos: int,
    sink: Sink,
    done: Seq<StmtView>,
) -> Parsed<Seq<StmtView>>
    decreases remaining(ts, pos), 26nat,
{
    if !check(ts, pos, TokenKind::RightBrace) && !at_end(ts, pos) {
        let next = declaration(ts, pos, sink);
        match next.value {
            Err(_) => failed(next),
            Ok(stmt) => if next.consumed > 0 {
                resumed(
                    block(ts, pos + next.consumed, next.sink, done.push(stmt)),
                    next.consumed,
                )
            } else {
                failed(next)
            },
        }
    } else {
        let close = consume_expected(
            ts,
            pos,
            sink,
            TokenKind::RightBrace,
            "Expect '}' after block."@,
        );
        Parsed {
            value: match close.value {
                Ok(_) => Ok(done),
                Err(error) => Err(error),
            },
            consumed: close.consumed,
            sink: close.sink,
        }
    }
}

/// The tokens that start a statement.
pub open spec fn starts_statement(kind: TokenKind) -> bool {
    kind == TokenKind::Class || kind == TokenKind::Fun || kind == TokenKind::Var || kind
        == TokenKind::For || kind == TokenKind::If || kind == TokenKind::While || kind
        == TokenKind::Print || kind == TokenKind::Return
}

/// How many tokens recovery skips from `pos` on: up to the end, to behind a
/// `;`, or to a token that starts a statement.
pub open spec fn skipped(ts: Seq<TokenView>, pos: int) -> nat
    decreases remaining(ts, pos),
{
    if at_end(ts, pos) || (pos >= 1 && ts[pos - 1].kind == TokenKind::Semicolon)
        || starts_statement(ts[pos].kind) {
        0
    } else {
        1 + skipped(ts, pos + 1)
    }
}

/// How many tokens recovery uses: the offending one, unless it is the end of
/// the file, and those skipped behind it.
pub open spec fn synchronized(ts: Seq<TokenView>, pos: int) -> nat {
    if at_end(ts, pos) {
        0
    } else {
        1 + skipped(ts, pos + 1)
    }
}

/// The statements of a program and what was reported while parsing it.
pub struct Program {
    pub statements: Seq<StmtView>,
    pub consumed: nat,
    pub sink: Sink,
}

/// The same program, seen from `offset` tokens earlier.
pub open spec fn extended(rest: Program, offset: nat) -> Program {
    Program { statements: rest.statements, consumed: rest.consumed + offset, sink: rest.sink }
}

/// The declarations from `pos` to the end of the file, behind those in
/// `done`. One that fails is left out: parsing goes on where recovery ends.
///
/// Each round uses at least one token, so the last branch is never taken.
pub open spec fn program(ts: Seq<TokenView>, pos: int, sink: Sink, done: Seq<StmtView>) -> Program
    decreases remaining(ts, pos),
{
    if at_end(ts, pos) {
        Program { statements: done, consumed: 0, sink }
    } else {
        let next = declaration(ts, pos, sink);
        let used = match next.value {
            Ok(_) => next.consumed,
            Err(_) => next.consumed + synchronized(ts, pos + next.consumed),
        };
        let kept = match next.value {
            Ok(stmt) => done.push(stmt),
            Err(_) => done,
        };
        if used > 0 {
            extended(program(ts, pos + used, next.sink, kept), used)
        } else {
            Program { statements: kept, consumed: 0, sink: next.sink }
        }
    }
}

/// The level of a binary operator: 0 for `/ *`, 1 for `- +`, 2 for the
/// comparisons, 3 for `!= ==`.
pub open spec fn operator_level(kind: TokenKind) -> Option<nat> {
    if is_operator(0, kind) {
        Some(0)
    } else if is_operator(1, kind) {
        Some(1)
    } else if is_operator(2, kind) {
        Some(2)
    } else if is_operator(3, kind) {
        Some(3)
    } else {
        None
    }
}

/// The level of an assignment, looser than every binary operator.
pub open spec fn assignment_level() -> int {
    4
}

/// `expr` respects precedence and may stand where an expression of level
/// `level` is expected (-1 where only a unary or primary expression may
/// stand).
///
/// A binary node has an operator of a level up to `level`; its left operand
/// may be of the same level, which makes the operators of a level associate
/// to the left, and its right operand is of a tighter level. The operand of
/// a unary operator is unary or primary. Between parentheses any expression
/// may stand. An assignment stands only where any expression may.
pub open spec fn fits(expr: ExprView, level: int) -> bool
    decreases expr,
{
    match expr {
        ExprView::Binary { left, operator, right } => match operator_level(operator.kind) {
            Some(l) => l <= level && fits(*left, l as int) && fits(*right, l - 1),
            None => false,
        },
        ExprView::Unary { operator, right } => (operator.kind == TokenKind::Bang || operator.kind
            == TokenKind::Minus) && fits(*right, -1),
        ExprView::Grouping(inner) => fits(*inner, assignment_level()),
        ExprView::Literal(_) => true,
        ExprView::Variable(_) => true,
        ExprView::Assign(_, value) => level >= assignment_level() && fits(
            *value,
            assignment_level(),
        ),
    }
}

/// What fits a level fits every looser level.
pub proof fn lemma_fits_looser(expr: ExprView, level: int, looser: int)
    requires
        fits(expr, level),
        level <= looser,
    ensures
        fits(expr, looser),
{
}

proof fn lemma_primary_fits(ts: Seq<TokenView>, pos: int, sink: Sink)
    ensures
        match primary(ts, pos, sink).value {
            Ok(expr) => fits(expr, -1),
            Err(_) => true,
        },
    decreases remaining(ts, pos), 0nat,
{
    reveal(expression);
    if check(ts, pos, TokenKind::LeftParen) {
        lemma_expression_fits(ts, pos + 1, sink);
    }
}

proof fn lemma_unary_fits(ts: Seq<TokenView>, pos: int, sink: Sink)
    ensures
        match unary(ts, pos, sink).value {
            Ok(expr) => fits(expr, -1),
            Err(_) => true,
        },
    decreases remaining(ts, pos), 1nat,
{
    if check(ts, pos, TokenKind::Bang) || check(ts, pos, TokenKind::Minus) {
        lemma_unary_fits(ts, pos + 1, sink);
    } else {
        lemma_primary_fits(ts, pos, sink);
    }
}

proof fn lemma_operand_fits(level: nat, ts: Seq<TokenView>, pos: int, sink: Sink)
    requires
        level <= 3,
    ensures
        match operand(level, ts, pos, sink).value {
            Ok(expr) => fits(expr, level - 1),
            Err(_) => true,
        },
    decreases remaining(ts, pos), 2 + 3 * level,
{
    reveal(operand);
    if level == 0 {
        lemma_unary_fits(ts, pos, sink);
    } else {
        lemma_binary_fits((level - 1) as nat, ts, pos, sink);
    }
}

proof fn lemma_binary_rest_fits(
    level: nat,
    ts: Seq<TokenView>,
    pos: int,
    sink: Sink,
    left: ExprView,
)
    requires
        level <= 3,
        fits(left, level as int),
    ensures
        match binary_rest(level, ts, pos, sink, left).value {
            Ok(expr) => fits(expr, level as int),
            Err(_) => true,
        },
    decreases remaining(ts, pos), 3 + 3 * level,
{
    reveal(operand);
    if !at_end(ts, pos) && is_operator(level, ts[pos].kind) {
        let right = operand(level, ts, pos + 1, sink);
        lemma_operand_fits(level, ts, pos + 1, sink);
        match right.value {
            Ok(expr) => {
                let folded = ExprView::Binary {
                    left: Box::new(left),
                    operator: ts[pos],
                    right: Box::new(expr),
                };
                assert(operator_level(ts[pos].kind) == Some(level));
                assert(fits(folded, level as int));
                lemma_binary_rest_fits(level, ts, pos + 1 + right.consumed, right.sink, folded);
            },
            Err(_) => {},
        }
    }
}

proof fn lemma_binary_fits(level: nat, ts: Seq<TokenView>, pos: int, sink: Sink)
    requires
        level <= 3,
    ensures
        match binary(level, ts, pos, sink).value {
            Ok(expr) => fits(expr, level as int),
            Err(_) => true,
        },
    decreases remaining(ts, pos), 4 + 3 * level,
{
    reveal(operand);
    let first = operand(level, ts, pos, sink);
    lemma_operand_fits(level, ts, pos, sink);
    match first.value {
        Ok(left) => {
            lemma_fits_looser(left, level - 1, level as int);
            lemma_binary_rest_fits(level, ts, pos + first.consumed, first.sink, left);
        },
        Err(_) => {},
    }
}

proof fn lemma_assignment_fits(ts: Seq<TokenView>, pos: int, sink: Sink)
    ensures
        match assignment(ts, pos, sink).value {
            Ok(expr) => fits(expr, assignment_level()),
            Err(_) => true,
        },
    decreases remaining(ts, pos), 20nat,
{
    let target = binary(equality_level(), ts, pos, sink);
    lemma_binary_fits(equality_level(), ts, pos, sink);
    match target.value {
        Ok(expr) => {
            lemma_fits_looser(expr, equality_level() as int, assignment_level());
            let equals = pos + target.consumed;
            if check(ts, equals, TokenKind::Equal) {
                lemma_assignment_fits(ts, equals + 1, target.sink);
            }
        },
        Err(_) => {},
    }
}

/// The parser respects precedence: every expression that it gives fits the
/// grammar's levels. So in `1 + 2 * 3` the product is the right operand of
/// the sum: a sum cannot be the left operand of a product.
pub proof fn lemma_expression_fits(ts: Seq<TokenView>, pos: int, sink: Sink)
    ensures
        match expression(ts, pos, sink).value {
            Ok(expr) => fits(expr, assignment_level()),
            Err(_) => true,
        },
    decreases remaining(ts, pos), 21nat,
{
    reveal(expression);
    lemma_assignment_fits(ts, pos, sink);
}

/// Every expression of the statement respects precedence.
pub open spec fn stmt_fits(stmt: StmtView) -> bool
    decreases stmt,
{
    match stmt {
        StmtView::Expression(expr) => fits(expr, assignment_level()),
        StmtView::Print(expr) => fits(expr, assignment_level()),
        StmtView::Var(_, initializer) => match initializer {
            Some(expr) => fits(expr, assignment_level()),
            None => true,
        },
        StmtView::Block(statements) => forall|i: int|
            0 <= i < statements.len() ==> stmt_fits(#[trigger] statements[i]),
    }
}

/// Every expression of every statement respects precedence.
pub open spec fn all_fit(statements: Seq<StmtView>) -> bool {
    forall|i: int| 0 <= i < statements.len() ==> stmt_fits(#[trigger] statements[i])
}

proof fn lemma_terminated_expression_fits(
    ts: Seq<TokenView>,
    pos: int,
    sink: Sink,
    message: Seq<char>,
)
    ensures
        match terminated_expression(ts, pos, sink, message).value {
            Ok(expr) => fits(expr, assignment_level()),
            Err(_) => true,
        },
{
    lemma_expression_fits(ts, pos, sink);
}

proof fn lemma_statement_fits(ts: Seq<TokenView>, pos: int, sink: Sink)
    ensures
        match statement(ts, pos, sink).value {
            Ok(stmt) => stmt_fits(stmt),
            Err(_) => true,
        },
    decreases remaining(ts, pos), 24nat,
{
    reveal(declaration);
    if check(ts, pos, TokenKind::Print) {
        lemma_terminated_expression_fits(ts, pos + 1, sink, "Expect ';' after value."@);
    } else if check(ts, pos, TokenKind::LeftBrace) {
        lemma_block_fits(ts, pos + 1, sink, Seq::empty());
    } else {
        lemma_terminated_expression_fits(ts, pos, sink, "Expect ';' after expression."@);
    }
}

proof fn lemma_declaration_fits(ts: Seq<TokenView>, pos: int, sink: Sink)
    ensures
        match declaration(ts, pos, sink).value {
            Ok(stmt) => stmt_fits(stmt),
            Err(_) => true,
        },
    decreases remaining(ts, pos), 25nat,
{
    reveal(declaration);
    if check(ts, pos, TokenKind::Var) {
        lemma_terminated_expression_fits(
            ts,
            pos + 3,
            sink,
            "Expect ';' after variable declaration."@,
        );
    } else {
        lemma_statement_fits(ts, pos, sink);
    }
}

proof fn lemma_block_fits(ts: Seq<TokenView>, pos: int, sink: Sink, done: Seq<StmtView>)
    requires
        all_fit(done),
    ensures
        match block(ts, pos, sink, done).value {
            Ok(statements) => all_fit(statements),
            Err(_) => true,
        },
    decreases remaining(ts, pos), 26nat,
{
    reveal(declaration);
    if !check(ts, pos, TokenKind::RightBrace) && !at_end(ts, pos) {
        let next = declaration(ts, pos, sink);
        lemma_declaration_fits(ts, pos, sink);
        match next.value {
            Ok(stmt) => {
                if next.consumed > 0 {
                    lemma_block_fits(ts, pos + next.consumed, next.sink, done.push(stmt));
                }
            },
            Err(_) => {},
        }
    }
}

/// The parser respects precedence in every statement that it gives.
pub proof fn lemma_program_fits(ts: Seq<TokenView>, pos: int, sink: Sink, done: Seq<StmtView>)
    requires
        all_fit(done),
    ensures
        all_fit(program(ts, pos, sink, done).statements),
    decreases remaining(ts, pos),
{
    if !at_end(ts, pos) {
        let next = declaration(ts, pos, sink);
        lemma_declaration_fits(ts, pos, sink);
        let used = match next.value {
            Ok(_) => next.consumed,
            Err(_) => next.consumed + synchronized(ts, pos + next.consumed),
        };
        let kept = match next.value {
            Ok(stmt) => done.push(stmt),
            Err(_) => done,
        };
        if used > 0 {
            lemma_program_fits(ts, pos + used, next.sink, kept);
        }
    }
}

proof fn lemma_consume_expected_reports(
    ts: Seq<TokenView>,
    pos: int,
    sink: Sink,
    kind: TokenKind,
    message: Seq<char>,
)
    ensures
        only_static_added(sink, consume_expected(ts, pos, sink, kind, message).sink),
{
    lemma_static_step(sink, fault_at(ts[pos], message));
}

proof fn lemma_primary_reports(ts: Seq<TokenView>, pos: int, sink: Sink)
    ensures
        only_static_added(sink, primary(ts, pos, sink).sink),
    decreases remaining(ts, pos), 0nat,
{
    reveal(expression);
    lemma_static_step(sink, fault_at(ts[pos], "Expect expression."@));
    if check(ts, pos, TokenKind::LeftParen) {
        let inner = expression(ts, pos + 1, sink);
        lemma_expression_reports(ts, pos + 1, sink);
        let close = consume_expected(
            ts,
            pos + 1 + inner.consumed,
            inner.sink,
            TokenKind::RightParen,
            "Expect ')' after expression"@,
        );
        lemma_consume_expected_reports(
            ts,
            pos + 1 + inner.consumed,
            inner.sink,
            TokenKind::RightParen,
            "Expect ')' after expression"@,
        );
        lemma_static_chain(sink, inner.sink, close.sink);
    }
}

proof fn lemma_unary_reports(ts: Seq<TokenView>, pos: int, sink: Sink)
    ensures
        only_static_added(sink, unary(ts, pos, sink).sink),
    decreases remaining(ts, pos), 1nat,
{
    if check(ts, pos, TokenKind::Bang) || check(ts, pos, TokenKind::Minus) {
        lemma_unary_reports(ts, pos + 1, sink);
    } else {
        lemma_primary_reports(ts, pos, sink);
    }
}

proof fn lemma_operand_reports(level: nat, ts: Seq<TokenView>, pos: int, sink: Sink)
    ensures
        only_static_added(sink, operand(level, ts, pos, sink).sink),
    decreases remaining(ts, pos), 2 + 3 * level,
{
    reveal(operand);
    if level == 0 {
        lemma_unary_reports(ts, pos, sink);
    } else {
        lemma_binary_reports((level - 1) as nat, ts, pos, sink);
    }
}

proof fn lemma_binary_rest_reports(
    level: nat,
    ts: Seq<TokenView>,
    pos: int,
    sink: Sink,
    left: ExprView,
)
    ensures
        only_static_added(sink, binary_rest(level, ts, pos, sink, left).sink),
    decreases remaining(ts, pos), 3 + 3 * level,
{
    reveal(operand);
    lemma_static_step(sink, fault_at(ts[pos], Seq::empty()));
    if !at_end(ts, pos) && is_operator(level, ts[pos].kind) {
        let right = operand(level, ts, pos + 1, sink);
        lemma_operand_reports(level, ts, pos + 1, sink);
        match right.value {
            Ok(expr) => {
                let folded = ExprView::Binary {
                    left: Box::new(left),
                    operator: ts[pos],
                    right: Box::new(expr),
                };
                lemma_binary_rest_reports(level, ts, pos + 1 + right.consumed, right.sink, folded);
                lemma_static_chain(
                    sink,
                    right.sink,
                    binary_rest(level, ts, pos + 1 + right.consumed, right.sink, folded).sink,
                );
            },
            Err(_) => {},
        }
    }
}

proof fn lemma_binary_reports(level: nat, ts: Seq<TokenView>, pos: int, sink: Sink)
    ensures
        only_static_added(sink, binary(level, ts, pos, sink).sink),
    decreases remaining(ts, pos), 4 + 3 * level,
{
    reveal(operand);
    let first = operand(level, ts, pos, sink);
    lemma_operand_reports(level, ts, pos, sink);
    match first.value {
        Ok(left) => {
            lemma_binary_rest_reports(level, ts, pos + first.consumed, first.sink, left);
            lemma_static_chain(
                sink,
                first.sink,
                binary_rest(level, ts, pos + first.consumed, first.sink, left).sink,
            );
        },
        Err(_) => {},
    }
}

proof fn lemma_assignment_reports(ts: Seq<TokenView>, pos: int, sink: Sink)
    ensures
        only_static_added(sink, assignment(ts, pos, sink).sink),
    decreases remaining(ts, pos), 20nat,
{
    let target = binary(equality_level(), ts, pos, sink);
    lemma_binary_reports(equality_level(), ts, pos, sink);
    match target.value {
        Ok(expr) => {
            let equals = pos + target.consumed;
            if check(ts, equals, TokenKind::Equal) {
                let value = assignment(ts, equals + 1, target.sink);
                lemma_assignment_reports(ts, equals + 1, target.sink);
                lemma_static_chain(sink, target.sink, value.sink);
                let fault = fault_at(ts[equals], "Invalid assignment target."@);
                lemma_static_step(value.sink, fault);
                lemma_static_chain(sink, value.sink, reported_to(value.sink, fault));
            }
        },
        Err(_) => {},
    }
}

proof fn lemma_expression_reports(ts: Seq<TokenView>, pos: int, sink: Sink)
    ensures
        only_static_added(sink, expression(ts, pos, sink).sink),
    decreases remaining(ts, pos), 21nat,
{
    reveal(expression);
    lemma_assignment_reports(ts, pos, sink);
}

proof fn lemma_terminated_expression_reports(
    ts: Seq<TokenView>,
    pos: int,
    sink: Sink,
    message: Seq<char>,
)
    ensures
        only_static_added(sink, terminated_expression(ts, pos, sink, message).sink),
{
    let expr = expression(ts, pos, sink);
    lemma_expression_reports(ts, pos, sink);
    let end = consume_expected(ts, pos + expr.consumed, expr.sink, TokenKind::Semicolon, message);
    lemma_consume_expected_reports(
        ts,
        pos + expr.consumed,
        expr.sink,
        TokenKind::Semicolon,
        message,
    );
    lemma_static_chain(sink, expr.sink, end.sink);
}

proof fn lemma_var_declaration_reports(ts: Seq<TokenView>, pos: int, sink: Sink)
    ensures
        only_static_added(sink, var_declaration(ts, pos, sink).sink),
{
    let message = "Expect ';' after variable declaration."@;
    lemma_consume_expected_reports(
        ts,
        pos,
        sink,
        TokenKind::Identifier,
        "Expect variable name."@,
    );
    lemma_terminated_expression_reports(ts, pos + 2, sink, message);
    lemma_consume_expected_reports(ts, pos + 1, sink, TokenKind::Semicolon, message);
}

proof fn lemma_statement_reports(ts: Seq<TokenView>, pos: int, sink: Sink)
    ensures
        only_static_added(sink, statement(ts, pos, sink).sink),
    decreases remaining(ts, pos), 24nat,
{
    reveal(declaration);
    if check(ts, pos, TokenKind::Print) {
        lemma_terminated_expression_reports(ts, pos + 1, sink, "Expect ';' after value."@);
    } else if check(ts, pos, TokenKind::LeftBrace) {
        lemma_block_reports(ts, pos + 1, sink, Seq::empty());
    } else {
        lemma_terminated_expression_reports(ts, pos, sink, "Expect ';' after expression."@);
    }
}

proof fn lemma_declaration_reports(ts: Seq<TokenView>, pos: int, sink: Sink)
    ensures
        only_static_added(sink, declaration(ts, pos, sink).sink),
    decreases remaining(ts, pos), 25nat,
{
    reveal(declaration);
    if check(ts, pos, TokenKind::Var) {
        lemma_var_declaration_reports(ts, pos + 1, sink);
    } else {
        lemma_statement_reports(ts, pos, sink);
    }
}

proof fn lemma_block_reports(ts: Seq<TokenView>, pos: int, sink: Sink, done: Seq<StmtView>)
    ensures
        only_static_added(sink, block(ts, pos, sink, done).sink),
    decreases remaining(ts, pos), 26nat,
{
    reveal(declaration);
    if !check(ts, pos, TokenKind::RightBrace) && !at_end(ts, pos) {
        let next = declaration(ts, pos, sink);
        lemma_declaration_reports(ts, pos, sink);
        match next.value {
            Ok(stmt) => {
                if next.consumed > 0 {
                    lemma_block_reports(ts, pos + next.consumed, next.sink, done.push(stmt));
                    lemma_static_chain(
                        sink,
                        next.sink,
                        block(ts, pos + next.consumed, next.sink, done.push(stmt)).sink,
                    );
                }
            },
            Err(_) => {},
        }
    } else {
        lemma_consume_expected_reports(
            ts,
            pos,
            sink,
            TokenKind::RightBrace,
            "Expect '}' after block."@,
        );
    }
}

/// The parser keeps what the reporter held and adds static reports only.
pub proof fn lemma_program_reports(ts: Seq<TokenView>, pos: int, sink: Sink, done: Seq<StmtView>)
    ensures
        only_static_added(sink, program(ts, pos, sink, done).sink),
    decreases remaining(ts, pos),
{
    lemma_static_step(sink, fault_at(ts[pos], Seq::empty()));
    if !at_end(ts, pos) {
        let next = declaration(ts, pos, sink);
        lemma_declaration_reports(ts, pos, sink);
        let used = match next.value {
            Ok(_) => next.consumed,
            Err(_) => next.consumed + synchronized(ts, pos + next.consumed),
        };
        let kept = match next.value {
            Ok(stmt) => done.push(stmt),
            Err(_) => done,
        };
        if used > 0 {
            lemma_program_reports(ts, pos + used, next.sink, kept);
            lemma_static_chain(sink, next.sink, program(ts, pos + used, next.sink, kept).sink);
        }
    }
}

/// The tokens end with the end-of-file token.
pub open spec fn terminated(tokens: Seq<Token>) -> bool {
    tokens.len() > 0 && tokens.last()@.kind == TokenKind::EndOfFile
}

/// A declaration that succeeds uses at least one token.
pub proof fn lemma_declaration_advances(ts: Seq<TokenView>, pos: int, sink: Sink)
    ensures
        declaration(ts, pos, sink).value is Ok ==> declaration(ts, pos, sink).consumed > 0,
{
    reveal(declaration);
    if !check(ts, pos, TokenKind::Var) && !check(ts, pos, TokenKind::Print) && !check(
        ts,
        pos,
        TokenKind::LeftBrace,
    ) {
        let message = "Expect ';' after expression."@;
        let whole = terminated_expression(ts, pos, sink, message);
        let expr = expression(ts, pos, sink);
        if whole.value is Ok {
            let end = consume_expected(
                ts,
                pos + expr.consumed,
                expr.sink,
                TokenKind::Semicolon,
                message,
            );
            assert(end.value is Ok);
            assert(end.consumed == 1);
        }
    }
}

/// One round of parsing a program: a declaration that succeeds is kept, one
/// that fails is skipped with the tokens that recovery uses.
proof fn lemma_program_round(ts: Seq<TokenView>, pos: int, sink: Sink, done: Seq<StmtView>)
    requires
        !at_end(ts, pos),
    ensures
        ({
            let next = declaration(ts, pos, sink);
            match next.value {
                Ok(stmt) => program(ts, pos, sink, done) == extended(
                    program(ts, pos + next.consumed, next.sink, done.push(stmt)),
                    next.consumed,
                ),
                Err(_) => program(ts, pos, sink, done) == extended(
                    program(
                        ts,
                        pos + next.consumed + synchronized(ts, pos + next.consumed),
                        next.sink,
                        done,
                    ),
                    next.consumed + synchronized(ts, pos + next.consumed),
                ),
            }
        }),
{
    lemma_declaration_advances(ts, pos, sink);
}

/// What parsing an expression returned is what the rule gives.
pub open spec fn expr_result(
    result: Result<Expr, ParseError>,
    value: Result<ExprView, ParseError>,
) -> bool {
    match result {
        Ok(expr) => value == Ok::<ExprView, ParseError>(expr@),
        Err(error) => value == Err::<ExprView, ParseError>(error),
    }
}

/// What parsing a statement returned is what the rule gives.
pub open spec fn stmt_result(
    result: Result<Stmt, ParseError>,
    value: Result<StmtView, ParseError>,
) -> bool {
    match result {
        Ok(stmt) => value == Ok::<StmtView, ParseError>(stmt@),
        Err(error) => value == Err::<StmtView, ParseError>(error),
    }
}

/// What parsing a block returned is what the rule gives.
pub open spec fn block_result(
    result: Result<Vec<Stmt>, ParseError>,
    value: Result<Seq<StmtView>, ParseError>,
) -> bool {
    match result {
        Ok(statements) => value == Ok::<Seq<StmtView>, ParseError>(stmt_views(statements@)),
        Err(error) => value == Err::<Seq<StmtView>, ParseError>(error),
    }
}

/// What consuming a token returned is what the rule gives.
pub open spec fn token_result(
    result: Result<Token, ParseError>,
    value: Result<TokenView, ParseError>,
) -> bool {
    match result {
        Ok(token) => value == Ok::<TokenView, ParseError>(token@),
        Err(error) => value == Err::<TokenView, ParseError>(error),
    }
}

/// The parser: the tokens and the position in them.
pub struct Parser<R: ErrorReporter> {
    tokens: Vec<Token>,
    current: usize,
    reporter: Option<R>,
}

impl<R: ErrorReporter> Parser<R> {
    /// The tokens as mathematical values.
    pub closed spec fn views(&self) -> Seq<TokenView> {
        token_views(self.tokens@)
    }

    /// How many tokens were used.
    pub closed spec fn position(&self) -> int {
        self.current as int
    }

    /// What the attached reporter holds, or `None` without one.
    pub closed spec fn sink(&self) -> Sink {
        sink_of(self.reporter)
    }

    /// The tokens end with the end-of-file token, and the position is
    /// within them.
    pub closed spec fn well_formed(&self) -> bool {
        terminated(self.tokens@) && self.current < self.tokens.len()
    }

    /// The state after a rule that gave `parsed` from the state `before`.
    spec fn advanced<T>(&self, before: &Self, parsed: Parsed<T>) -> bool {
        &&& self.tokens == before.tokens
        &&& self.well_formed()
        &&& self.current == before.current + parsed.consumed
        &&& self.sink() == parsed.sink
        &&& self.reporter is Some == before.reporter is Some
    }

    /// A parser at the first of `tokens`, without a reporter.
    pub fn new(tokens: Vec<Token>) -> (r: Self)
        ensures
            r.views() == token_views(tokens@),
            r.position() == 0,
            r.sink() == None::<Seq<DiagnosticView>>,
            r.well_formed() == terminated(tokens@),
    {
        Self { tokens, current: 0, reporter: None }
    }

    /// Hands the parser the reporter that gets its parse errors.
    pub fn attach_reporter(self, reporter: R) -> (r: Self)
        ensures
            r.views() == self.views(),
            r.position() == self.position(),
            r.sink() == Some(reporter.reports()),
            r.well_formed() == self.well_formed(),
    {
        Parser { tokens: self.tokens, current: self.current, reporter: Some(reporter) }
    }

    /// Takes the reporter back.
    pub fn detach_reporter(&mut self) -> (r: Option<R>)
        ensures
            match r {
                Some(reporter) => old(self).sink() == Some(reporter.reports()),
                None => old(self).sink() is None,
            },
            final(self).sink() is None,
            final(self).views() == old(self).views(),
            final(self).position() == old(self).position(),
            final(self).well_formed() == old(self).well_formed(),
    {
        self.reporter.take()
    }

    /// Whether `parse` may be called: the tokens end with the end-of-file
    /// token, and the position is within them.
    pub fn is_well_formed(&self) -> (r: bool)
        ensures
            r == self.well_formed(),
    {
        let n = self.tokens.len();
        n > 0 && self.current < n && self.tokens[n - 1].token_type.kind() == TokenKind::EndOfFile
    }

    /// Hands a parse error at `token` to the reporter, if one is attached.
    fn report_error(&mut self, token: &Token, message: &str)
        ensures
            final(self).sink() == reported_to(old(self).sink(), fault_at(token@, message@)),
            final(self).reporter is Some == old(self).reporter is Some,
            final(self).tokens == old(self).tokens,
            final(self).current == old(self).current,
    {
        match &mut self.reporter {
            Some(reporter) => {
                if token.token_type.variant_eq(&TokenType::EndOfFile) {
                    reporter.report(token.line, " at end", message);
                } else {
                    let mut location = String::new();
                    push_text(&mut location, " at '");
                    push_text(&mut location, token.lexeme.as_str());
                    push_text(&mut location, "'");
                    assert(location@ == " at '"@ + token@.lexeme + "'"@);
                    reporter.report(token.line, location.as_str(), message);
                }
            },
            None => {},
        }
    }

    /// Parses the tokens from the current position to the end of the file.
    /// A declaration that fails is left out and reported; parsing goes on
    /// behind the tokens that recovery skips.
    pub fn parse(&mut self) -> (r: Vec<Stmt>)
        requires
            old(self).well_formed(),
        ensures
            stmt_views(r@) == program(
                old(self).views(),
                old(self).position(),
                old(self).sink(),
                Seq::empty(),
            ).statements,
            final(self).sink() == program(
                old(self).views(),
                old(self).position(),
                old(self).sink(),
                Seq::empty(),
            ).sink,
            final(self).position() == old(self).position() + program(
                old(self).views(),
                old(self).position(),
                old(self).sink(),
                Seq::empty(),
            ).consumed,
            final(self).views() == old(self).views(),
            final(self).well_formed(),
            final(self).sink() is Some == old(self).sink() is Some,
            at_end(final(self).views(), final(self).position()),
    {
        let ghost ts = self.views();
        let ghost start = self.current as int;
        let ghost goal = program(ts, start, self.sink(), Seq::empty());
        let mut statements: Vec<Stmt> = Vec::new();
        assert(stmt_views(statements@) =~= Seq::<StmtView>::empty());
        while !self.is_at_end()
            invariant
                self.well_formed(),
                self.tokens == old(self).tokens,
                self.reporter is Some == old(self).reporter is Some,
                ts == self.views(),
                start <= self.current,
                extended(
                    program(ts, self.current as int, self.sink(), stmt_views(statements@)),
                    (self.current - start) as nat,
                ) == goal,
            decreases self.tokens.len() - self.current,
        {
            let ghost done = stmt_views(statements@);
            proof {
                lemma_program_round(ts, self.current as int, self.sink(), done);
            }
            match self.declaration() {
                Ok(stmt) => {
                    statements.push(stmt);
                    assert(stmt_views(statements@) =~= done.push(stmt@));
                },
                // recover from the malformed statement and go on
                Err(_) => self.synchronize(),
            }
        }
        statements
    }

    /// `declaration = "var" varDecl | statement`.
    fn declaration(&mut self) -> (r: Result<Stmt, ParseError>)
        requires
            old(self).well_formed(),
        ensures
            final(self).advanced(
                old(self),
                declaration(old(self).views(), old(self).current as int, old(self).sink()),
            ),
            stmt_result(
                r,
                declaration(old(self).views(), old(self).current as int, old(self).sink()).value,
            ),
        decreases remaining(old(self).views(), old(self).current as int), 25nat,
    {
        reveal(declaration);
        if self.consume_matching(TokenKind::Var) {
            self.var_declaration()
        } else {
            self.statement()
        }
    }

    /// The rest of a variable declaration behind `var`.
    fn var_declaration(&mut self) -> (r: Result<Stmt, ParseError>)
        requires
            old(self).well_formed(),
        ensures
            final(self).advanced(
                old(self),
                var_declaration(old(self).views(), old(self).current as int, old(self).sink()),
            ),
            stmt_result(
                r,
                var_declaration(old(self).views(), old(self).current as int, old(self).sink()).value,
            ),
        decreases remaining(old(self).views(), old(self).current as int), 23nat,
    {
        let name = match self.consume_expected(TokenKind::Identifier, "Expect variable name.") {
            Ok(token) => token,
            Err(error) => {
                return Err(error);
            },
        };
        let mut initializer = None;
        if self.consume_matching(TokenKind::Equal) {
            match self.expression() {
                Ok(expr) => {
                    initializer = Some(expr);
                },
                Err(error) => {
                    return Err(error);
                },
            }
        }
        match self.consume_expected(
            TokenKind::Semicolon,
            "Expect ';' after variable declaration.",
        ) {
            Ok(_) => Ok(Stmt::Var(name, initializer)),
            Err(error) => Err(error),
        }
    }

    /// `statement = printStmt | block | exprStmt`.
    fn statement(&mut self) -> (r: Result<Stmt, ParseError>)
        requires
            old(self).well_formed(),
        ensures
            final(self).advanced(
                old(self),
                statement(old(self).views(), old(self).current as int, old(self).sink()),
            ),
            stmt_result(
                r,
                statement(old(self).views(), old(self).current as int, old(self).sink()).value,
            ),
        decreases remaining(old(self).views(), old(self).current as int), 24nat,
    {
        if self.consume_matching(TokenKind::Print) {
            self.print_statement()
        } else if self.consume_matching(TokenKind::LeftBrace) {
            match self.block() {
                Ok(statements) => {
                    proof {
                        lemma_block_view(statements);
                    }
                    Ok(Stmt::Block(Box::new(statements)))
                },
                Err(error) => Err(error),
            }
        } else {
            self.expression_statement()
        }
    }

    /// The rest of a print statement behind `print`.
    fn print_statement(&mut self) -> (r: Result<Stmt, ParseError>)
        requires
            old(self).well_formed(),
        ensures
            final(self).advanced(
                old(self),
                terminated_expression(
                    old(self).views(),
                    old(self).current as int,
                    old(self).sink(),
                    "Expect ';' after value."@,
                ),
            ),
            match r {
                Ok(stmt) => stmt@ is Print && terminated_expression(
                    old(self).views(),
                    old(self).current as int,
                    old(self).sink(),
                    "Expect ';' after value."@,
                ).value == Ok::<ExprView, ParseError>(stmt@->Print_0),
                Err(error) => terminated_expression(
                    old(self).views(),
                    old(self).current as int,
                    old(self).sink(),
                    "Expect ';' after value."@,
                ).value == Err::<ExprView, ParseError>(error),
            },
        decreases remaining(old(self).views(), old(self).current as int), 22nat,
    {
        let expr = match self.expression() {
            Ok(expr) => expr,
            Err(error) => {
                return Err(error);
            },
        };
        match self.consume_expected(TokenKind::Semicolon, "Expect ';' after value.") {
            Ok(_) => Ok(Stmt::Print(expr)),
            Err(error) => Err(error),
        }
    }

    /// An expression as a statement.
    fn expression_statement(&mut self) -> (r: Result<Stmt, ParseError>)
        requires
            old(self).well_formed(),
        ensures
            final(self).advanced(
                old(self),
                terminated_expression(
                    old(self).views(),
                    old(self).current as int,
                    old(self).sink(),
                    "Expect ';' after expression."@,
                ),
            ),
            match r {
                Ok(stmt) => stmt@ is Expression && terminated_expression(
                    old(self).views(),
                    old(self).current as int,
                    old(self).sink(),
                    "Expect ';' after expression."@,
                ).value == Ok::<ExprView, ParseError>(stmt@->Expression_0),
                Err(error) => terminated_expression(
                    old(self).views(),
                    old(self).current as int,
                    old(self).sink(),
                    "Expect ';' after expression."@,
                ).value == Err::<ExprView, ParseError>(error),
            },
        decreases remaining(old(self).views(), old(self).current as int), 22nat,
    {
        let expr = match self.expression() {
            Ok(expr) => expr,
            Err(error) => {
                return Err(error);
            },
        };
        match self.consume_expected(TokenKind::Semicolon, "Expect ';' after expression.") {
            Ok(_) => Ok(Stmt::Expression(expr)),
            Err(error) => Err(error),
        }
    }

    /// The declarations of a block behind `{`, up to the `}` that closes it.
    fn block(&mut self) -> (r: Result<Vec<Stmt>, ParseError>)
        requires
            old(self).well_formed(),
        ensures
            final(self).advanced(
                old(self),
                block(
                    old(self).views(),
                    old(self).current as int,
                    old(self).sink(),
                    Seq::empty(),
                ),
            ),
            block_result(
                r,
                block(
                    old(self).views(),
                    old(self).current as int,
                    old(self).sink(),
                    Seq::empty(),
                ).value,
            ),
        decreases remaining(old(self).views(), old(self).current as int), 26nat,
    {
        reveal(declaration);
        let ghost ts = self.views();
        let ghost start = self.current as int;
        let ghost goal = block(ts, start, self.sink(), Seq::empty());
        let mut statements: Vec<Stmt> = Vec::new();
        assert(stmt_views(statements@) =~= Seq::<StmtView>::empty());
        while !self.check(TokenKind::RightBrace) && !self.is_at_end()
            invariant
                self.well_formed(),
                self.tokens == old(self).tokens,
                self.reporter is Some == old(self).reporter is Some,
                ts == self.views(),
                start == old(self).current,
                start <= self.current,
                goal == block(ts, start, old(self).sink(), Seq::empty()),
                resumed(
                    block(ts, self.current as int, self.sink(), stmt_views(statements@)),
                    (self.current - start) as nat,
                ) == goal,
            decreases self.tokens.len() - self.current,
        {
            reveal(declaration);
            let ghost done = stmt_views(statements@);
            proof {
                lemma_declaration_advances(ts, self.current as int, self.sink());
            }
            match self.declaration() {
                Ok(stmt) => {
                    statements.push(stmt);
                    assert(stmt_views(statements@) =~= done.push(stmt@));
                },
                Err(error) => {
                    return Err(error);
                },
            }
        }
        match self.consume_expected(TokenKind::RightBrace, "Expect '}' after block.") {
            Ok(_) => Ok(statements),
            Err(error) => Err(error),
        }
    }

    /// `expression = assignment`.
    fn expression(&mut self) -> (r: Result<Expr, ParseError>)
        requires
            old(self).well_formed(),
        ensures
            final(self).advanced(
                old(self),
                expression(old(self).views(), old(self).current as int, old(self).sink()),
            ),
            expr_result(
                r,
                expression(old(self).views(), old(self).current as int, old(self).sink()).value,
            ),
        decreases remaining(old(self).views(), old(self).current as int), 21nat,
    {
        reveal(expression);
        self.assignment()
    }

    /// `assignment = equality ( "=" assignment )?`.
    fn assignment(&mut self) -> (r: Result<Expr, ParseError>)
        requires
            old(self).well_formed(),
        ensures
            final(self).advanced(
                old(self),
                assignment(old(self).views(), old(self).current as int, old(self).sink()),
            ),
            expr_result(
                r,
                assignment(old(self).views(), old(self).current as int, old(self).sink()).value,
            ),
        decreases remaining(old(self).views(), old(self).current as int), 20nat,
    {
        let expr = match self.equality() {
            Ok(expr) => expr,
            Err(error) => {
                return Err(error);
            },
        };
        if self.consume_matching(TokenKind::Equal) {
            let equals = self.previous();
            let value = match self.assignment() {
                Ok(value) => value,
                Err(error) => {
                    return Err(error);
                },
            };
            match expr {
                Expr::Variable(name) => {
                    return Ok(Expr::Assign(name, Box::new(value)));
                },
                _ => {
                    self.report_error(&equals, "Invalid assignment target.");
                    return Ok(value);
                },
            }
        }
        Ok(expr)
    }

    /// `equality = comparison ( ( "!=" | "==" ) comparison )*`.
    fn equality(&mut self) -> (r: Result<Expr, ParseError>)
        requires
            old(self).well_formed(),
        ensures
            final(self).advanced(
                old(self),
                binary(3, old(self).views(), old(self).current as int, old(self).sink()),
            ),
            expr_result(
                r,
                binary(3, old(self).views(), old(self).current as int, old(self).sink()).value,
            ),
        decreases remaining(old(self).views(), old(self).current as int), 14nat,
    {
        self.left_associative(3)
    }

    /// `comparison = term ( ( ">" | ">=" | "<" | "<=" ) term )*`.
    fn comparison(&mut self) -> (r: Result<Expr, ParseError>)
        requires
            old(self).well_formed(),
        ensures
            final(self).advanced(
                old(self),
                binary(2, old(self).views(), old(self).current as int, old(self).sink()),
            ),
            expr_result(
                r,
                binary(2, old(self).views(), old(self).current as int, old(self).sink()).value,
            ),
        decreases remaining(old(self).views(), old(self).current as int), 11nat,
    {
        self.left_associative(2)
    }

    /// `term = factor ( ( "-" | "+" ) factor )*`.
    fn term(&mut self) -> (r: Result<Expr, ParseError>)
        requires
            old(self).well_formed(),
        ensures
            final(self).advanced(
                old(self),
                binary(1, old(self).views(), old(self).current as int, old(self).sink()),
            ),
            expr_result(
                r,
                binary(1, old(self).views(), old(self).current as int, old(self).sink()).value,
            ),
        decreases remaining(old(self).views(), old(self).current as int), 8nat,
    {
        self.left_associative(1)
    }

    /// `factor = unary ( ( "/" | "*" ) unary )*`.
    fn factor(&mut self) -> (r: Result<Expr, ParseError>)
        requires
            old(self).well_formed(),
        ensures
            final(self).advanced(
                old(self),
                binary(0, old(self).views(), old(self).current as int, old(self).sink()),
            ),
            expr_result(
                r,
                binary(0, old(self).views(), old(self).current as int, old(self).sink()).value,
            ),
        decreases remaining(old(self).views(), old(self).current as int), 5nat,
    {
        self.left_associative(0)
    }

    /// The operand of an operator of level `level`.
    fn operand(&mut self, level: u8) -> (r: Result<Expr, ParseError>)
        requires
            old(self).well_formed(),
            level <= 3,
        ensures
            final(self).advanced(
                old(self),
                operand(
                    level as nat,
                    old(self).views(),
                    old(self).current as int,
                    old(self).sink(),
                ),
            ),
            expr_result(
                r,
                operand(
                    level as nat,
                    old(self).views(),
                    old(self).current as int,
                    old(self).sink(),
                ).value,
            ),
        decreases remaining(old(self).views(), old(self).current as int), 3 * level + 3,
    {
        reveal(operand);
        if level == 0 {
            self.unary()
        } else if level == 1 {
            self.factor()
        } else if level == 2 {
            self.term()
        } else {
            self.comparison()
        }
    }

    /// Operands of level `level` joined by operators of that level, folded
    /// to the left.
    fn left_associative(&mut self, level: u8) -> (r: Result<Expr, ParseError>)
        requires
            old(self).well_formed(),
            level <= 3,
        ensures
            final(self).advanced(
                old(self),
                binary(
                    level as nat,
                    old(self).views(),
                    old(self).current as int,
                    old(self).sink(),
                ),
            ),
            expr_result(
                r,
                binary(
                    level as nat,
                    old(self).views(),
                    old(self).current as int,
                    old(self).sink(),
                ).value,
            ),
        decreases remaining(old(self).views(), old(self).current as int), 3 * level + 4,
    {
        reveal(operand);
        let ghost ts = self.views();
        let ghost start = self.current as int;
        let ghost goal = binary(level as nat, ts, start, self.sink());
        let mut expr = match self.operand(level) {
            Ok(expr) => expr,
            Err(error) => {
                return Err(error);
            },
        };
        while self.operator_follows(level)
            invariant
                self.well_formed(),
                self.tokens == old(self).tokens,
                self.reporter is Some == old(self).reporter is Some,
                ts == self.views(),
                level <= 3,
                start == old(self).current,
                start <= self.current,
                goal == binary(level as nat, ts, start, old(self).sink()),
                resumed(
                    binary_rest(level as nat, ts, self.current as int, self.sink(), expr@),
                    (self.current - start) as nat,
                ) == goal,
            decreases self.tokens.len() - self.current,
        {
            reveal(operand);
            let operator = self.consume();
            let right = match self.operand(level) {
                Ok(right) => right,
                Err(error) => {
                    return Err(error);
                },
            };
            expr = Expr::Binary { left: Box::new(expr), operator, right: Box::new(right) };
        }
        Ok(expr)
    }

    /// Whether an operator of level `level` comes next.
    fn operator_follows(&self, level: u8) -> (r: bool)
        requires
            self.well_formed(),
        ensures
            r == (!at_end(self.views(), self.current as int) && is_operator(
                level as nat,
                self.views()[self.current as int].kind,
            )),
    {
        let kind = self.peek().token_type.kind();
        if level == 0 {
            kind == TokenKind::Slash || kind == TokenKind::Star
        } else if level == 1 {
            kind == TokenKind::Minus || kind == TokenKind::Plus
        } else if level == 2 {
            kind == TokenKind::Greater || kind == TokenKind::GreaterEqual || kind
                == TokenKind::Less || kind == TokenKind::LessEqual
        } else if level == 3 {
            kind == TokenKind::BangEqual || kind == TokenKind::EqualEqual
        } else {
            false
        }
    }

    /// `unary = ( "!" | "-" ) unary | primary`.
    fn unary(&mut self) -> (r: Result<Expr, ParseError>)
        requires
            old(self).well_formed(),
        ensures
            final(self).advanced(
                old(self),
                unary(old(self).views(), old(self).current as int, old(self).sink()),
            ),
            expr_result(
                r,
                unary(old(self).views(), old(self).current as int, old(self).sink()).value,
            ),
        decreases remaining(old(self).views(), old(self).current as int), 1nat,
    {
        if self.consume_matches(&[TokenKind::Bang, TokenKind::Minus]) {
            let operator = self.previous();
            return match self.unary() {
                Ok(right) => Ok(Expr::Unary { operator, right: Box::new(right) }),
                Err(error) => Err(error),
            };
        }
        self.primary()
    }

    /// `primary = literal | IDENT | "(" expression ")"`.
    fn primary(&mut self) -> (r: Result<Expr, ParseError>)
        requires
            old(self).well_formed(),
        ensures
            final(self).advanced(
                old(self),
                primary(old(self).views(), old(self).current as int, old(self).sink()),
            ),
            expr_result(
                r,
                primary(old(self).views(), old(self).current as int, old(self).sink()).value,
            ),
        decreases remaining(old(self).views(), old(self).current as int), 0nat,
    {
        reveal(expression);
        match self.peek().token_type.kind() {
            TokenKind::False => {
                self.consume();
                Ok(Expr::Literal(Value::Bool(false)))
            },
            TokenKind::True => {
                self.consume();
                Ok(Expr::Literal(Value::Bool(true)))
            },
            TokenKind::Nil => {
                self.consume();
                Ok(Expr::Literal(Value::Nil))
            },
            TokenKind::Number | TokenKind::String => {
                let token = self.consume();
                match token.token_type {
                    TokenType::Number(num) => Ok(Expr::Literal(Value::Number(num))),
                    TokenType::String(text) => Ok(Expr::Literal(Value::String(text))),
                    _ => Ok(Expr::Literal(Value::Nil)),
                }
            },
            TokenKind::Identifier => Ok(Expr::Variable(self.consume())),
            TokenKind::LeftParen => {
                self.consume();
                let expr = match self.expression() {
                    Ok(expr) => expr,
                    Err(error) => {
                        return Err(error);
                    },
                };
                match self.consume_expected(TokenKind::RightParen, "Expect ')' after expression") {
                    Ok(_) => Ok(Expr::Grouping(Box::new(expr))),
                    Err(error) => Err(error),
                }
            },
            _ => {
                let token = self.peek().clone();
                self.report_error(&token, "Expect expression.");
                Err(ParseError::ExpectExpression)
            },
        }
    }

    /// Consumes the next token if it is of the kind `kind`.
    fn consume_matching(&mut self, kind: TokenKind) -> (r: bool)
        requires
            old(self).well_formed(),
        ensures
            r == check(old(self).views(), old(self).current as int, kind),
            final(self).well_formed(),
            final(self).tokens == old(self).tokens,
            final(self).reporter == old(self).reporter,
            final(self).current == old(self).current + if r {
                1int
            } else {
                0int
            },
    {
        if self.check(kind) {
            self.consume();
            true
        } else {
            false
        }
    }

    /// Consumes the next token if it is of one of `kinds`.
    fn consume_matches(&mut self, kinds: &[TokenKind]) -> (r: bool)
        requires
            old(self).well_formed(),
        ensures
            r == exists|i: int| 0 <= i < kinds@.len() && check(
                old(self).views(),
                old(self).current as int,
                #[trigger] kinds@[i],
            ),
            final(self).well_formed(),
            final(self).tokens == old(self).tokens,
            final(self).reporter == old(self).reporter,
            final(self).current == old(self).current + if r {
                1int
            } else {
                0int
            },
    {
        let mut i: usize = 0;
        while i < kinds.len()
            invariant
                i <= kinds.len(),
                self.well_formed(),
                self.tokens == old(self).tokens,
                self.reporter == old(self).reporter,
                self.current == old(self).current,
                forall|k: int|
                    0 <= k < i ==> !check(self.views(), self.current as int, #[trigger] kinds@[k]),
            decreases kinds.len() - i,
        {
            if self.check(kinds[i]) {
                self.consume();
                return true;
            }
            i += 1;
        }
        false
    }

    /// Consumes the next token if it is of the kind `expected`, else reports
    /// `message` at it.
    fn consume_expected(&mut self, expected: TokenKind, message: &str) -> (r: Result<
        Token,
        ParseError,
    >)
        requires
            old(self).well_formed(),
        ensures
            final(self).advanced(
                old(self),
                consume_expected(
                    old(self).views(),
                    old(self).current as int,
                    old(self).sink(),
                    expected,
                    message@,
                ),
            ),
            token_result(
                r,
                consume_expected(
                    old(self).views(),
                    old(self).current as int,
                    old(self).sink(),
                    expected,
                    message@,
                ).value,
            ),
            r is Ok ==> r->Ok_0 == old(self).tokens@[old(self).current as int],
    {
        if self.check(expected) {
            Ok(self.consume())
        } else {
            let token = self.peek().clone();
            self.report_error(&token, message);
            Err(ParseError::ConsumeUntilTokenNotFound)
        }
    }

    /// Whether the next token is of the kind `kind`.
    fn check(&self, kind: TokenKind) -> (r: bool)
        requires
            self.well_formed(),
        ensures
            r == check(self.views(), self.current as int, kind),
    {
        if self.is_at_end() {
            return false;
        }
        self.peek().token_type.kind() == kind
    }

    /// Moves on by one token, unless at the end, and returns the token now
    /// behind the position.
    fn consume(&mut self) -> (r: Token)
        requires
            old(self).well_formed(),
            old(self).current > 0 || !at_end(old(self).views(), old(self).current as int),
        ensures
            final(self).well_formed(),
            final(self).tokens == old(self).tokens,
            final(self).reporter == old(self).reporter,
            final(self).current == old(self).current + if at_end(
                old(self).views(),
                old(self).current as int,
            ) {
                0int
            } else {
                1int
            },
            r == final(self).tokens@[final(self).current - 1],
    {
        if !self.is_at_end() {
            self.current += 1;
        }
        self.previous()
    }

    fn is_at_end(&self) -> (r: bool)
        requires
            self.well_formed(),
        ensures
            r == at_end(self.views(), self.current as int),
    {
        self.peek().token_type.kind() == TokenKind::EndOfFile
    }

    /// The next token.
    fn peek(&self) -> (r: &Token)
        requires
            self.well_formed(),
        ensures
            *r == self.tokens@[self.current as int],
            r@ == self.views()[self.current as int],
    {
        &self.tokens[self.current]
    }

    /// The token behind the position.
    fn previous(&self) -> (r: Token)
        requires
            self.well_formed(),
            self.current > 0,
        ensures
            r == self.tokens@[self.current - 1],
            r@ == self.views()[self.current - 1],
    {
        self.tokens[self.current - 1].clone()
    }

    /// Recovers from a parse error: skips the offending token and those
    /// behind it up to a `;` or to the start of a statement.
    fn synchronize(&mut self)
        requires
            old(self).well_formed(),
            old(self).current > 0 || !at_end(old(self).views(), old(self).current as int),
        ensures
            final(self).well_formed(),
            final(self).tokens == old(self).tokens,
            final(self).reporter == old(self).reporter,
            final(self).current == old(self).current + synchronized(
                old(self).views(),
                old(self).current as int,
            ),
    {
        if self.is_at_end() {
            return ;
        }
        self.consume();
        while !self.is_at_end()
            invariant
                self.well_formed(),
                self.tokens == old(self).tokens,
                self.reporter == old(self).reporter,
                self.current > old(self).current,
                !at_end(old(self).views(), old(self).current as int),
                self.current + skipped(self.views(), self.current as int) == old(self).current + 1
                    + skipped(old(self).views(), old(self).current + 1),
            decreases self.tokens.len() - self.current,
        {
            if self.previous().token_type.variant_eq(&TokenType::Semicolon) {
                assert(skipped(self.views(), self.current as int) == 0);
                return ;
            }
            match self.peek().token_type.kind() {
                TokenKind::Class
                | TokenKind::Fun
                | TokenKind::Var
                | TokenKind::For
                | TokenKind::If
                | TokenKind::While
                | TokenKind::Print
                | TokenKind::Return => {
                    assert(skipped(self.views(), self.current as int) == 0);
                    return ;
                },
                _ => {
                    self.consume();
                },
            }
        }
    }
}

} // verus!
