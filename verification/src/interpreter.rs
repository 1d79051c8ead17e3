//! The evaluator: walks the syntax tree, reads and changes the environment,
//! collects what print statements write, and reports the first runtime error.

use crate::ast::{stmt_views, value_text, Expr, ExprView, Stmt, StmtView, Value, ValueView};
use crate::environment::{
    assigned, bound_within, defined, keeps_value, lemma_assigned_keeps_names,
    lemma_assigned_keeps_values, lemma_keeps_value_chain, lookup, outer_names_kept, same_names,
    Environment, Scope,
};
use crate::number::{computes, ArithOp, Number, Numerics};
use crate::reporter::{line_views, reported_to, sink_of, DiagnosticView, ErrorReporter, Sink};
use crate::text::push_text;
use crate::tokens::{Token, TokenKind, TokenView};
use vstd::prelude::*;

verus! {

/// Why evaluation stopped, with the token at which it did.
#[derive(Debug, PartialEq)]
pub enum RuntimeError {
    OperandMustBeNumber(Token),
    OperandsMustBeNumbers(Token),
    OperandsMustBeStrings(Token),
    UndefinedVariable(Token),
    AssignUndefinedVariable(Token),
}

/// A runtime error as a mathematical value.
pub enum RuntimeErrorView {
    OperandMustBeNumber(TokenView),
    OperandsMustBeNumbers(TokenView),
    OperandsMustBeStrings(TokenView),
    UndefinedVariable(TokenView),
    AssignUndefinedVariable(TokenView),
}

impl View for RuntimeError {
    type V = RuntimeErrorView;

    open spec fn view(&self) -> RuntimeErrorView {
        match self {
            RuntimeError::OperandMustBeNumber(t) => RuntimeErrorView::OperandMustBeNumber(t@),
            RuntimeError::OperandsMustBeNumbers(t) => RuntimeErrorView::OperandsMustBeNumbers(t@),
            RuntimeError::OperandsMustBeStrings(t) => RuntimeErrorView::OperandsMustBeStrings(t@),
            RuntimeError::UndefinedVariable(t) => RuntimeErrorView::UndefinedVariable(t@),
            RuntimeError::AssignUndefinedVariable(t) => RuntimeErrorView::AssignUndefinedVariable(
                t@,
            ),
        }
    }
}

/// What evaluating or executing hands back, as a mathematical value.
pub type Outcome = Result<ValueView, RuntimeErrorView>;

/// The view of what an evaluation returned.
pub open spec fn outcome_of(result: Result<Value, RuntimeError>) -> Outcome {
    match result {
        Ok(value) => Ok(value@),
        Err(error) => Err(error@),
    }
}

/// The outcome of a statement sequence that ended as `result` did: its error,
/// or `nil`.
pub open spec fn completion(result: Outcome) -> Outcome {
    match result {
        Ok(_) => Ok(ValueView::Nil),
        Err(error) => Err(error),
    }
}

/// The view of what executing a block returned.
pub open spec fn block_outcome_of(result: Result<(), RuntimeError>) -> Outcome {
    match result {
        Ok(_) => Ok(ValueView::Nil),
        Err(error) => Err(error@),
    }
}

/// The message of a runtime error.
pub open spec fn runtime_message(error: RuntimeErrorView) -> Seq<char> {
    match error {
        RuntimeErrorView::OperandMustBeNumber(_) => "Operand must be a number."@,
        RuntimeErrorView::OperandsMustBeNumbers(_) => "Operands must be numbers."@,
        RuntimeErrorView::OperandsMustBeStrings(_) => "Operands must be strings."@,
        RuntimeErrorView::UndefinedVariable(name) => "Undefined variable '"@ + name.lexeme + "'."@,
        RuntimeErrorView::AssignUndefinedVariable(name) => "Undefined variable '"@ + name.lexeme
            + "'."@,
    }
}

/// The token at which a runtime error arose.
pub open spec fn runtime_token(error: RuntimeErrorView) -> TokenView {
    match error {
        RuntimeErrorView::OperandMustBeNumber(t) => t,
        RuntimeErrorView::OperandsMustBeNumbers(t) => t,
        RuntimeErrorView::OperandsMustBeStrings(t) => t,
        RuntimeErrorView::UndefinedVariable(t) => t,
        RuntimeErrorView::AssignUndefinedVariable(t) => t,
    }
}

/// The report of a runtime error: its message, at the line of its token.
pub open spec fn runtime_report(error: RuntimeErrorView) -> DiagnosticView {
    DiagnosticView::Runtime { line: runtime_token(error).line, message: runtime_message(error) }
}

/// Equality of the language: values of different kinds are never equal, `nil`
/// equals `nil`, values of one kind are compared by what they hold.
pub open spec fn values_equal(left: ValueView, right: ValueView) -> bool {
    match (left, right) {
        (ValueView::Nil, ValueView::Nil) => true,
        (ValueView::Number(a), ValueView::Number(b)) => a.same_value(b),
        (ValueView::Text(a), ValueView::Text(b)) => a == b,
        (ValueView::Bool(a), ValueView::Bool(b)) => a == b,
        _ => false,
    }
}

/// Truthiness: `nil` and `false` are falsy, every other value is truthy.
pub open spec fn truthy(value: ValueView) -> bool {
    match value {
        ValueView::Nil => false,
        ValueView::Bool(b) => b,
        _ => true,
    }
}

pub fn is_equal(left: &Value, right: &Value) -> (r: bool)
    ensures
        r == values_equal(left@, right@),
{
    match (left, right) {
        (Value::Nil, Value::Nil) => true,
        (Value::Number(a), Value::Number(b)) => a.equals(b),
        (Value::String(a), Value::String(b)) => *a == *b,
        (Value::Bool(a), Value::Bool(b)) => *a == *b,
        _ => false,
    }
}

pub fn is_truthy(value: &Value) -> (r: bool)
    ensures
        r == truthy(value@),
{
    match value {
        Value::Nil => false,
        Value::Bool(b) => *b,
        _ => true,
    }
}

/// The number that the operand of a unary operator holds.
pub fn expect_number_operand(operator: &Token, val: Value) -> (r: Result<Number, RuntimeError>)
    ensures
        match val@ {
            ValueView::Number(n) => r == Ok::<Number, RuntimeError>(n),
            _ => r is Err && r->Err_0@ == RuntimeErrorView::OperandMustBeNumber(operator@),
        },
{
    match val {
        Value::Number(n) => Ok(n),
        _ => Err(RuntimeError::OperandMustBeNumber(operator.clone())),
    }
}

/// The numbers that the operands of a binary operator hold.
pub fn expect_number_operands(operator: &Token, left: Value, right: Value) -> (r: Result<
    (Number, Number),
    RuntimeError,
>)
    ensures
        match (left@, right@) {
            (ValueView::Number(a), ValueView::Number(b)) => r == Ok::<
                (Number, Number),
                RuntimeError,
            >((a, b)),
            _ => r is Err && r->Err_0@ == RuntimeErrorView::OperandsMustBeNumbers(operator@),
        },
{
    match (left, right) {
        (Value::Number(a), Value::Number(b)) => Ok((a, b)),
        _ => Err(RuntimeError::OperandsMustBeNumbers(operator.clone())),
    }
}

/// The strings that the operands of `+` hold.
pub fn expect_string_operands(operator: &Token, left: Value, right: Value) -> (r: Result<
    (String, String),
    RuntimeError,
>)
    ensures
        match (left@, right@) {
            (ValueView::Text(a), ValueView::Text(b)) => r is Ok && r->Ok_0.0@ == a && r->Ok_0.1@
                == b,
            _ => r is Err && r->Err_0@ == RuntimeErrorView::OperandsMustBeStrings(operator@),
        },
{
    match (left, right) {
        (Value::String(a), Value::String(b)) => Ok((a, b)),
        _ => Err(RuntimeError::OperandsMustBeStrings(operator.clone())),
    }
}

/// What a unary operator gives for an operand: `!` negates its truthiness,
/// `-` changes the sign of a number and fails on anything else.
pub open spec fn unary_result(operator: TokenView, operand: ValueView) -> Outcome {
    match operator.kind {
        TokenKind::Bang => Ok(ValueView::Bool(!truthy(operand))),
        TokenKind::Minus => match operand {
            ValueView::Number(n) => Ok(ValueView::Number(n.negated())),
            _ => Err(RuntimeErrorView::OperandMustBeNumber(operator)),
        },
        _ => Ok(ValueView::Nil),
    }
}

/// What a comparison gives: whether `holds` of two numbers, else the error
/// that the operands must be numbers.
pub open spec fn comparison_result(
    operator: TokenView,
    left: ValueView,
    right: ValueView,
    holds: spec_fn(Number, Number) -> bool,
) -> Outcome {
    match (left, right) {
        (ValueView::Number(a), ValueView::Number(b)) => Ok(ValueView::Bool(holds(a, b))),
        _ => Err(RuntimeErrorView::OperandsMustBeNumbers(operator)),
    }
}

/// `out` is a result of `left op right` for two numbers, else the error that
/// the operands must be numbers.
pub open spec fn arithmetic_result<N: Numerics>(
    numerics: &N,
    operator: TokenView,
    op: ArithOp,
    left: ValueView,
    right: ValueView,
    out: Outcome,
) -> bool {
    match (left, right) {
        (ValueView::Number(a), ValueView::Number(b)) => match out {
            Ok(ValueView::Number(n)) => computes(numerics, op, a, b, n),
            _ => false,
        },
        _ => out == Err::<ValueView, RuntimeErrorView>(
            RuntimeErrorView::OperandsMustBeNumbers(operator),
        ),
    }
}

/// `out` is what a binary operator gives for two operand values.
///
/// `==` and `!=` never fail. The comparisons and `- * /` want two numbers.
/// `+` adds two numbers, joins two strings and fails on anything else.
pub open spec fn binary_result<N: Numerics>(
    numerics: &N,
    operator: TokenView,
    left: ValueView,
    right: ValueView,
    out: Outcome,
) -> bool {
    match operator.kind {
        TokenKind::BangEqual => out == Ok::<ValueView, RuntimeErrorView>(
            ValueView::Bool(!values_equal(left, right)),
        ),
        TokenKind::EqualEqual => out == Ok::<ValueView, RuntimeErrorView>(
            ValueView::Bool(values_equal(left, right)),
        ),
        TokenKind::Greater => out == comparison_result(
            operator,
            left,
            right,
            |a: Number, b: Number| b.precedes(a),
        ),
        TokenKind::GreaterEqual => out == comparison_result(
            operator,
            left,
            right,
            |a: Number, b: Number| b.precedes(a) || a.same_value(b),
        ),
        TokenKind::Less => out == comparison_result(
            operator,
            left,
            right,
            |a: Number, b: Number| a.precedes(b),
        ),
        TokenKind::LessEqual => out == comparison_result(
            operator,
            left,
            right,
            |a: Number, b: Number| a.precedes(b) || a.same_value(b),
        ),
        TokenKind::Minus => arithmetic_result(
            numerics,
            operator,
            ArithOp::Subtract,
            left,
            right,
            out,
        ),
        TokenKind::Slash => arithmetic_result(numerics, operator, ArithOp::Divide, left, right, out),
        TokenKind::Star => arithmetic_result(
            numerics,
            operator,
            ArithOp::Multiply,
            left,
            right,
            out,
        ),
        TokenKind::Plus => match (left, right) {
            (ValueView::Number(a), ValueView::Number(b)) => match out {
                Ok(ValueView::Number(n)) => computes(numerics, ArithOp::Add, a, b, n),
                _ => false,
            },
            (ValueView::Text(a), ValueView::Text(b)) => out == Ok::<ValueView, RuntimeErrorView>(
                ValueView::Text(a + b),
            ),
            _ => out == Err::<ValueView, RuntimeErrorView>(
                RuntimeErrorView::OperandsMustBeStrings(operator),
            ),
        },
        _ => out == Ok::<ValueView, RuntimeErrorView>(ValueView::Nil),
    }
}

/// The value or error of an evaluation, and the scopes it left.
pub struct Evaluated {
    pub result: Outcome,
    pub scopes: Seq<Scope>,
}

/// `out` follows from the evaluated operand of a unary operator.
pub open spec fn unary_outcome(operator: TokenView, operand: Evaluated, out: Evaluated) -> bool {
    out.scopes == operand.scopes && out.result == match operand.result {
        Ok(value) => unary_result(operator, value),
        Err(error) => Err(error),
    }
}

/// `out` follows from the evaluated operands of a binary operator; where the
/// left one failed, the right one was not evaluated.
pub open spec fn binary_outcome<N: Numerics>(
    numerics: &N,
    operator: TokenView,
    left: Evaluated,
    right: Evaluated,
    out: Evaluated,
) -> bool {
    match left.result {
        Err(_) => out == left,
        Ok(l) => match right.result {
            Err(_) => out == right,
            Ok(r) => out.scopes == right.scopes && binary_result(
                numerics,
                operator,
                l,
                r,
                out.result,
            ),
        },
    }
}

/// `out` follows from the evaluated right-hand side of an assignment.
pub open spec fn assign_outcome(name: TokenView, value: Evaluated, out: Evaluated) -> bool {
    match value.result {
        Err(_) => out == value,
        Ok(v) => match assigned(value.scopes, name.lexeme, v) {
            Some(scopes) => out == Evaluated { result: Ok(v), scopes },
            None => out == Evaluated {
                result: Err(RuntimeErrorView::AssignUndefinedVariable(name)),
                scopes: value.scopes,
            },
        },
    }
}

/// Evaluating `expr` in `scopes` may give `out`.
pub open spec fn evaluates<N: Numerics>(
    numerics: &N,
    expr: ExprView,
    scopes: Seq<Scope>,
    out: Evaluated,
) -> bool
    decreases expr,
{
    match expr {
        ExprView::Literal(value) => out == Evaluated { result: Ok(value), scopes },
        ExprView::Grouping(inner) => evaluates(numerics, *inner, scopes, out),
        ExprView::Unary { operator, right } => exists|operand: Evaluated|
            #![trigger unary_outcome(operator, operand, out)]
            evaluates(numerics, *right, scopes, operand) && unary_outcome(operator, operand, out),
        ExprView::Binary { left, operator, right } => exists|l: Evaluated, r: Evaluated|
            #![trigger binary_outcome(numerics, operator, l, r, out)]
            evaluates(numerics, *left, scopes, l) && (l.result is Ok ==> evaluates(
                numerics,
                *right,
                l.scopes,
                r,
            )) && binary_outcome(numerics, operator, l, r, out),
        ExprView::Variable(name) => out.scopes == scopes && out.result == match lookup(
            scopes,
            name.lexeme,
        ) {
            Some(value) => Ok::<ValueView, RuntimeErrorView>(value),
            None => Err(RuntimeErrorView::UndefinedVariable(name)),
        },
        ExprView::Assign(name, value) => exists|v: Evaluated|
            #![trigger assign_outcome(name, v, out)]
            evaluates(numerics, *value, scopes, v) && assign_outcome(name, v, out),
    }
}

/// The value or error of an execution, the scopes and the output it left.
pub struct Executed {
    pub result: Outcome,
    pub scopes: Seq<Scope>,
    pub output: Seq<Seq<char>>,
}

/// `out` follows from the evaluated expression of a print statement: its
/// text is one more line of output.
pub open spec fn print_outcome<N: Numerics>(
    numerics: &N,
    value: Evaluated,
    output: Seq<Seq<char>>,
    out: Executed,
) -> bool {
    out.scopes == value.scopes && match value.result {
        Err(error) => out.result == Err::<ValueView, RuntimeErrorView>(error) && out.output
            == output,
        Ok(v) => out.result == Ok::<ValueView, RuntimeErrorView>(ValueView::Nil)
            && out.output.len() == output.len() + 1 && out.output.drop_last() == output
            && value_text(numerics, v, out.output.last()),
    }
}

/// `out` follows from the evaluated initializer of a declaration.
pub open spec fn var_outcome(
    name: TokenView,
    value: Evaluated,
    output: Seq<Seq<char>>,
    out: Executed,
) -> bool {
    out.output == output && match value.result {
        Err(error) => out.result == Err::<ValueView, RuntimeErrorView>(error) && out.scopes
            == value.scopes,
        Ok(v) => out.result == Ok::<ValueView, RuntimeErrorView>(ValueView::Nil) && out.scopes
            == defined(value.scopes, name.lexeme, v),
    }
}

/// `out` follows from the executed statements of a block: the scope of the
/// block is gone, its error stays.
pub open spec fn block_outcome(inner: Executed, out: Executed) -> bool {
    out.scopes == inner.scopes.drop_first() && out.output == inner.output && out.result
        == completion(inner.result)
}

/// `out` follows from the statements executed `before` and from the `last`
/// one: an error before it ends the sequence there, else the sequence ends
/// where the last statement ended, in its error if it failed.
pub open spec fn sequence_outcome(before: Executed, last: Executed, out: Executed) -> bool {
    match before.result {
        Err(_) => out == before,
        Ok(_) => out.scopes == last.scopes && out.output == last.output && out.result
            == completion(last.result),
    }
}

/// Executing `stmt` in `scopes`, after `output` was written, may give `out`.
pub open spec fn executes<N: Numerics>(
    numerics: &N,
    stmt: StmtView,
    scopes: Seq<Scope>,
    output: Seq<Seq<char>>,
    out: Executed,
) -> bool
    decreases stmt, 0nat,
{
    match stmt {
        StmtView::Expression(expr) => out.output == output && evaluates(
            numerics,
            expr,
            scopes,
            Evaluated { result: out.result, scopes: out.scopes },
        ),
        StmtView::Print(expr) => exists|value: Evaluated|
            #![trigger print_outcome(numerics, value, output, out)]
            evaluates(numerics, expr, scopes, value) && print_outcome(
                numerics,
                value,
                output,
                out,
            ),
        StmtView::Var(name, initializer) => match initializer {
            None => out == Executed {
                result: Ok(ValueView::Nil),
                scopes: defined(scopes, name.lexeme, ValueView::Nil),
                output,
            },
            Some(expr) => exists|value: Evaluated|
                #![trigger var_outcome(name, value, output, out)]
                evaluates(numerics, expr, scopes, value) && var_outcome(name, value, output, out),
        },
        StmtView::Block(statements) => exists|inner: Executed|
            #![trigger block_outcome(inner, out)]
            executes_first(
                numerics,
                statements,
                statements.len(),
                seq![Map::<Seq<char>, ValueView>::empty()] + scopes,
                output,
                inner,
            ) && block_outcome(inner, out),
    }
}

/// Executing the first `count` of `statements` in order, stopping at the
/// first error, may give `out`.
pub open spec fn executes_first<N: Numerics>(
    numerics: &N,
    statements: Seq<StmtView>,
    count: nat,
    scopes: Seq<Scope>,
    output: Seq<Seq<char>>,
    out: Executed,
) -> bool
    decreases statements, count,
{
    if count == 0 || count > statements.len() {
        out == Executed { result: Ok(ValueView::Nil), scopes, output }
    } else {
        exists|before: Executed, last: Executed|
            #![trigger sequence_outcome(before, last, out)]
            executes_first(numerics, statements, (count - 1) as nat, scopes, output, before) && (
            before.result is Ok ==> executes(
                numerics,
                statements[count - 1],
                before.scopes,
                before.output,
                last,
            )) && sequence_outcome(before, last, out)
    }
}

/// The sink after a run that ended in `result`: a runtime error is reported
/// once.
pub open spec fn reported_after(sink: Sink, result: Outcome) -> Sink {
    match result {
        Err(error) => reported_to(sink, runtime_report(error)),
        Ok(_) => sink,
    }
}

impl Expr {
    /// The number of nodes on the longest path down from this one.
    pub open spec fn height(&self) -> nat
        decreases self,
    {
        match self {
            Expr::Binary { left, operator, right } => 1 + if (**left).height() >= (
            **right).height() {
                (**left).height()
            } else {
                (**right).height()
            },
            Expr::Unary { operator, right } => 1 + (**right).height(),
            Expr::Grouping(inner) => 1 + (**inner).height(),
            Expr::Literal(_) => 0,
            Expr::Variable(_) => 0,
            Expr::Assign(_, value) => 1 + (**value).height(),
        }
    }
}

/// The evaluator with its state: the current scope chain, the reporter, and
/// the lines that print statements wrote.
pub struct Interpreter<R: ErrorReporter> {
    environment: Environment,
    reporter: Option<R>,
    output: Vec<String>,
}

impl<R: ErrorReporter> Interpreter<R> {
    /// The scope chain, innermost first.
    pub closed spec fn scopes(&self) -> Seq<Scope> {
        self.environment@
    }

    /// The lines written so far.
    pub closed spec fn printed(&self) -> Seq<Seq<char>> {
        line_views(self.output@)
    }

    /// What the attached reporter holds, or `None` without one.
    pub closed spec fn sink(&self) -> Sink {
        sink_of(self.reporter)
    }

    /// Output and reporter are the same in both.
    pub closed spec fn same_sinks(&self, other: &Self) -> bool {
        self.output == other.output && self.reporter == other.reporter
    }

    /// The scope chain of an interpreter always has an innermost scope.
    pub broadcast proof fn lemma_scopes_never_empty(&self)
        ensures
            #[trigger] self.scopes().len() > 0,
    {
        self.environment.lemma_never_empty();
    }

    /// With the same sinks, the same was printed and reported.
    pub broadcast proof fn lemma_same_sinks(&self, other: &Self)
        requires
            #[trigger] self.same_sinks(other),
        ensures
            self.printed() == other.printed(),
            self.sink() == other.sink(),
    {
    }

    /// An interpreter with one empty global scope, no reporter and no output.
    pub fn new() -> (r: Self)
        ensures
            r.scopes() == seq![Map::<Seq<char>, ValueView>::empty()],
            r.printed() == Seq::<Seq<char>>::empty(),
            r.sink() is None,
    {
        let r = Interpreter { environment: Environment::new(), reporter: None, output: Vec::new() };
        assert(line_views(r.output@) =~= Seq::<Seq<char>>::empty());
        r
    }

    /// Hands the interpreter the reporter that gets its runtime errors.
    pub fn attach_reporter(self, reporter: R) -> (r: Self)
        ensures
            r.sink() == Some(reporter.reports()),
            r.scopes() == self.scopes(),
            r.printed() == self.printed(),
    {
        Interpreter { environment: self.environment, reporter: Some(reporter), output: self.output }
    }

    /// Takes the reporter back.
    pub fn detach_reporter(&mut self) -> (r: Option<R>)
        ensures
            match r {
                Some(reporter) => old(self).sink() == Some(reporter.reports()),
                None => old(self).sink() is None,
            },
            final(self).sink() is None,
            final(self).scopes() == old(self).scopes(),
            final(self).printed() == old(self).printed(),
    {
        self.reporter.take()
    }

    /// The lines that print statements wrote, in order.
    pub fn output(&self) -> (r: &Vec<String>)
        ensures
            line_views(r@) == self.printed(),
    {
        &self.output
    }

    /// Hands out the lines that print statements wrote, and forgets them.
    pub fn take_output(&mut self) -> (r: Vec<String>)
        ensures
            line_views(r@) == old(self).printed(),
            final(self).printed() == Seq::<Seq<char>>::empty(),
            final(self).scopes() == old(self).scopes(),
            final(self).sink() == old(self).sink(),
    {
        let mut taken: Vec<String> = Vec::new();
        assert(line_views(taken@) =~= Seq::<Seq<char>>::empty());
        core::mem::swap(&mut self.output, &mut taken);
        taken
    }

    /// Hands a runtime error to the reporter, if one is attached.
    fn report_runtime_error(&mut self, error: RuntimeError)
        ensures
            final(self).sink() == reported_after(old(self).sink(), Err(error@)),
            final(self).scopes() == old(self).scopes(),
            final(self).printed() == old(self).printed(),
    {
        match &mut self.reporter {
            Some(reporter) => {
                match error {
                    RuntimeError::OperandMustBeNumber(operator) => {
                        reporter.report_runtime(operator.line, "Operand must be a number.")
                    },
                    RuntimeError::OperandsMustBeNumbers(operator) => {
                        reporter.report_runtime(operator.line, "Operands must be numbers.")
                    },
                    RuntimeError::OperandsMustBeStrings(operator) => {
                        reporter.report_runtime(operator.line, "Operands must be strings.")
                    },
                    RuntimeError::UndefinedVariable(name) => {
                        let message = undefined_variable_message(&name);
                        reporter.report_runtime(name.line, message.as_str())
                    },
                    RuntimeError::AssignUndefinedVariable(name) => {
                        let message = undefined_variable_message(&name);
                        reporter.report_runtime(name.line, message.as_str())
                    },
                }
            },
            None => {},
        }
    }

    /// Executes the statements in order in the current scope. The first
    /// runtime error is reported and ends the run: the statements after it
    /// are not executed, and what was printed before it stays.
    pub fn interpret<N: Numerics>(&mut self, statements: &[Stmt], numerics: &N)
        ensures
            exists|result: Outcome|
                #![trigger reported_after(old(self).sink(), result)]
                executes_first(
                    numerics,
                    stmt_views(statements@),
                    statements@.len(),
                    old(self).scopes(),
                    old(self).printed(),
                    Executed {
                        result,
                        scopes: final(self).scopes(),
                        output: final(self).printed(),
                    },
                ) && final(self).sink() == reported_after(old(self).sink(), result),
            final(self).scopes().len() == old(self).scopes().len(),
    {
        broadcast use Interpreter::lemma_same_sinks;

        let ghost views = stmt_views(statements@);
        let ghost start_scopes = self.scopes();
        let ghost start_output = self.printed();
        let mut i: usize = 0;
        while i < statements.len()
            invariant
                i <= statements.len(),
                views == stmt_views(statements@),
                start_scopes == old(self).scopes(),
                start_output == old(self).printed(),
                executes_first(
                    numerics,
                    views,
                    i as nat,
                    start_scopes,
                    start_output,
                    Executed {
                        result: Ok(ValueView::Nil),
                        scopes: self.scopes(),
                        output: self.printed(),
                    },
                ),
                self.sink() == old(self).sink(),
                self.scopes().len() == old(self).scopes().len(),
            decreases statements.len() - i,
        {
            let ghost before = Executed {
                result: Ok(ValueView::Nil),
                scopes: self.scopes(),
                output: self.printed(),
            };
            let result = self.execute(&statements[i], numerics);
            let ghost last = Executed {
                result: outcome_of(result),
                scopes: self.scopes(),
                output: self.printed(),
            };
            let ghost after = Executed {
                result: completion(outcome_of(result)),
                scopes: self.scopes(),
                output: self.printed(),
            };
            proof {
                assert(views[i as int] == statements@[i as int]@);
                assert(sequence_outcome(before, last, after));
                assert(executes_first(
                    numerics,
                    views,
                    (i + 1) as nat,
                    start_scopes,
                    start_output,
                    after,
                ));
            }
            match result {
                Ok(_) => {},
                Err(error) => {
                    proof {
                        assert(views.len() == statements@.len());
                        lemma_error_ends_run(
                            numerics,
                            views,
                            (i + 1) as nat,
                            views.len(),
                            start_scopes,
                            start_output,
                            after,
                        );
                    }
                    self.report_runtime_error(error);
                    assert(self.sink() == reported_after(old(self).sink(), after.result));
                    return ;
                },
            }
            i += 1;
        }
        assert(self.sink() == reported_after(old(self).sink(), Ok(ValueView::Nil)));
    }

    /// Executes one statement.
    pub fn execute<N: Numerics>(&mut self, stmt: &Stmt, numerics: &N) -> (r: Result<
        Value,
        RuntimeError,
    >)
        ensures
            executes(
                numerics,
                stmt@,
                old(self).scopes(),
                old(self).printed(),
                Executed {
                    result: outcome_of(r),
                    scopes: final(self).scopes(),
                    output: final(self).printed(),
                },
            ),
            final(self).scopes().len() == old(self).scopes().len(),
            final(self).sink() == old(self).sink(),
        decreases stmt, 0nat,
    {
        broadcast use Interpreter::lemma_same_sinks;

        let ghost scopes = self.scopes();
        let ghost output = self.printed();
        proof {
            self.environment.lemma_never_empty();
        }
        match stmt {
            Stmt::Expression(expr) => self.evaluate_expr(expr, numerics),
            Stmt::Print(expr) => {
                let evaluated = self.evaluate_expr(expr, numerics);
                let ghost value = Evaluated {
                    result: outcome_of(evaluated),
                    scopes: self.scopes(),
                };
                match evaluated {
                    Ok(value_printed) => {
                        let line = value_printed.stringify(numerics);
                        self.output.push(line);
                        proof {
                            let out = Executed {
                                result: Ok(ValueView::Nil),
                                scopes: self.scopes(),
                                output: self.printed(),
                            };
                            assert(out.output.drop_last() =~= output);
                            assert(out.output.last() == line@);
                            assert(print_outcome(numerics, value, output, out));
                        }
                        Ok(Value::Nil)
                    },
                    Err(error) => {
                        proof {
                            let out = Executed {
                                result: Err(error@),
                                scopes: self.scopes(),
                                output: self.printed(),
                            };
                            assert(print_outcome(numerics, value, output, out));
                        }
                        Err(error)
                    },
                }
            },
            Stmt::Var(name, initializer) => {
                match initializer {
                    Some(expr) => {
                        let evaluated = self.evaluate_expr(expr, numerics);
                        let ghost value = Evaluated {
                            result: outcome_of(evaluated),
                            scopes: self.scopes(),
                        };
                        match evaluated {
                            Ok(initial) => {
                                self.environment.define(name.lexeme.clone(), initial);
                                proof {
                                    let out = Executed {
                                        result: Ok(ValueView::Nil),
                                        scopes: self.scopes(),
                                        output: self.printed(),
                                    };
                                    assert(var_outcome(name@, value, output, out));
                                }
                                Ok(Value::Nil)
                            },
                            Err(error) => {
                                proof {
                                    let out = Executed {
                                        result: Err(error@),
                                        scopes: self.scopes(),
                                        output: self.printed(),
                                    };
                                    assert(var_outcome(name@, value, output, out));
                                }
                                Err(error)
                            },
                        }
                    },
                    None => {
                        self.environment.define(name.lexeme.clone(), Value::Nil);
                        Ok(Value::Nil)
                    },
                }
            },
            Stmt::Block(statements) => {
                proof {
                    assert(stmt@->Block_0 =~= stmt_views(statements@));
                }
                self.environment.enter_scope();
                let result = self.execute_block(statements, numerics);
                let ghost inner = Executed {
                    result: block_outcome_of(result),
                    scopes: self.scopes(),
                    output: self.printed(),
                };
                self.environment.exit_scope();
                match result {
                    Ok(_) => {
                        proof {
                            let out = Executed {
                                result: Ok(ValueView::Nil),
                                scopes: self.scopes(),
                                output: self.printed(),
                            };
                            assert(block_outcome(inner, out));
                        }
                        Ok(Value::Nil)
                    },
                    Err(error) => {
                        proof {
                            let out = Executed {
                                result: Err(error@),
                                scopes: self.scopes(),
                                output: self.printed(),
                            };
                            assert(block_outcome(inner, out));
                        }
                        Err(error)
                    },
                }
            },
        }
    }

    /// Executes the statements of a block in order, up to the first error.
    fn execute_block<N: Numerics>(&mut self, statements: &Vec<Stmt>, numerics: &N) -> (r: Result<
        (),
        RuntimeError,
    >)
        ensures
            executes_first(
                numerics,
                stmt_views(statements@),
                statements@.len(),
                old(self).scopes(),
                old(self).printed(),
                Executed {
                    result: block_outcome_of(r),
                    scopes: final(self).scopes(),
                    output: final(self).printed(),
                },
            ),
            final(self).scopes().len() == old(self).scopes().len(),
            final(self).sink() == old(self).sink(),
        decreases statements, 1nat,
    {
        broadcast use Interpreter::lemma_same_sinks;

        let ghost views = stmt_views(statements@);
        let ghost start_scopes = self.scopes();
        let ghost start_output = self.printed();
        let mut i: usize = 0;
        while i < statements.len()
            invariant
                i <= statements.len(),
                views == stmt_views(statements@),
                start_scopes == old(self).scopes(),
                start_output == old(self).printed(),
                executes_first(
                    numerics,
                    views,
                    i as nat,
                    start_scopes,
                    start_output,
                    Executed {
                        result: Ok(ValueView::Nil),
                        scopes: self.scopes(),
                        output: self.printed(),
                    },
                ),
                self.sink() == old(self).sink(),
                self.scopes().len() == old(self).scopes().len(),
            decreases statements.len() - i,
        {
            let ghost before = Executed {
                result: Ok(ValueView::Nil),
                scopes: self.scopes(),
                output: self.printed(),
            };
            let result = self.execute(&statements[i], numerics);
            let ghost last = Executed {
                result: outcome_of(result),
                scopes: self.scopes(),
                output: self.printed(),
            };
            let ghost after = Executed {
                result: completion(outcome_of(result)),
                scopes: self.scopes(),
                output: self.printed(),
            };
            proof {
                assert(views[i as int] == statements@[i as int]@);
                assert(sequence_outcome(before, last, after));
                assert(executes_first(
                    numerics,
                    views,
                    (i + 1) as nat,
                    start_scopes,
                    start_output,
                    after,
                ));
            }
            match result {
                Ok(_) => {},
                Err(error) => {
                    proof {
                        assert(views.len() == statements@.len());
                        lemma_error_ends_run(
                            numerics,
                            views,
                            (i + 1) as nat,
                            views.len(),
                            start_scopes,
                            start_output,
                            after,
                        );
                    }
                    return Err(error);
                },
            }
            i += 1;
        }
        Ok(())
    }

    /// Evaluates an expression.
    pub fn evaluate_expr<N: Numerics>(&mut self, expr: &Expr, numerics: &N) -> (r: Result<
        Value,
        RuntimeError,
    >)
        ensures
            evaluates(
                numerics,
                expr@,
                old(self).scopes(),
                Evaluated { result: outcome_of(r), scopes: final(self).scopes() },
            ),
            final(self).scopes().len() == old(self).scopes().len(),
            final(self).same_sinks(old(self)),
            final(self).printed() == old(self).printed(),
            final(self).sink() == old(self).sink(),
        decreases expr.height(), 1nat,
    {
        match expr {
            Expr::Literal(val) => Ok(val.clone()),
            Expr::Grouping(inner) => self.evaluate_expr(inner, numerics),
            Expr::Unary { operator, right } => self.evaluate_unary(operator, right, numerics),
            Expr::Binary { left, operator, right } => self.evaluate_binary(
                left,
                operator,
                right,
                numerics,
            ),
            Expr::Variable(name) => self.evaluate_variable(name),
            Expr::Assign(name, value_expr) => {
                let evaluated = self.evaluate_expr(value_expr, numerics);
                let ghost v = Evaluated { result: outcome_of(evaluated), scopes: self.scopes() };
                match evaluated {
                    Ok(value) => {
                        proof {
                            lemma_assigned_keeps_names(self.scopes(), name@.lexeme, value@);
                        }
                        match self.environment.assign(name.lexeme.clone(), value.clone()) {
                            Ok(_) => {
                                proof {
                                    let out = Evaluated {
                                        result: Ok(value@),
                                        scopes: self.scopes(),
                                    };
                                    assert(assign_outcome(name@, v, out));
                                }
                                Ok(value)
                            },
                            Err(_) => {
                                let error = RuntimeError::AssignUndefinedVariable(name.clone());
                                proof {
                                    let out = Evaluated {
                                        result: Err(error@),
                                        scopes: self.scopes(),
                                    };
                                    assert(assign_outcome(name@, v, out));
                                }
                                Err(error)
                            },
                        }
                    },
                    Err(error) => {
                        proof {
                            assert(assign_outcome(name@, v, v));
                        }
                        Err(error)
                    },
                }
            },
        }
    }

    /// Evaluates the operand, then applies the unary operator to it.
    fn evaluate_unary<N: Numerics>(&mut self, operator: &Token, right: &Expr, numerics: &N) -> (r:
        Result<Value, RuntimeError>)
        ensures
            evaluates(
                numerics,
                ExprView::Unary { operator: operator@, right: Box::new(right@) },
                old(self).scopes(),
                Evaluated { result: outcome_of(r), scopes: final(self).scopes() },
            ),
            final(self).scopes().len() == old(self).scopes().len(),
            final(self).same_sinks(old(self)),
        decreases right.height(), 2nat,
    {
        let evaluated = self.evaluate_expr(right, numerics);
        let ghost operand = Evaluated { result: outcome_of(evaluated), scopes: self.scopes() };
        let right_value = match evaluated {
            Ok(value) => value,
            Err(error) => {
                assert(unary_outcome(operator@, operand, operand));
                return Err(error);
            },
        };
        let result = match operator.token_type.kind() {
            TokenKind::Bang => Ok(Value::Bool(!is_truthy(&right_value))),
            TokenKind::Minus => {
                match expect_number_operand(operator, right_value) {
                    Ok(right_num) => Ok(Value::Number(right_num.negate())),
                    Err(error) => Err(error),
                }
            },
            _ => Ok(Value::Nil),
        };
        assert(unary_outcome(
            operator@,
            operand,
            Evaluated { result: outcome_of(result), scopes: self.scopes() },
        ));
        result
    }

    /// Looks the variable up in the scope chain.
    fn evaluate_variable(&self, name: &Token) -> (r: Result<Value, RuntimeError>)
        ensures
            outcome_of(r) == match lookup(self.scopes(), name@.lexeme) {
                Some(value) => Ok::<ValueView, RuntimeErrorView>(value),
                None => Err(RuntimeErrorView::UndefinedVariable(name@)),
            },
    {
        match self.environment.get(name) {
            Some(val) => Ok(val),
            None => Err(RuntimeError::UndefinedVariable(name.clone())),
        }
    }

    /// Evaluates the left operand, then the right one, then applies the
    /// binary operator to the two values.
    fn evaluate_binary<N: Numerics>(
        &mut self,
        left: &Expr,
        operator: &Token,
        right: &Expr,
        numerics: &N,
    ) -> (r: Result<Value, RuntimeError>)
        ensures
            evaluates(
                numerics,
                ExprView::Binary {
                    left: Box::new(left@),
                    operator: operator@,
                    right: Box::new(right@),
                },
                old(self).scopes(),
                Evaluated { result: outcome_of(r), scopes: final(self).scopes() },
            ),
            final(self).scopes().len() == old(self).scopes().len(),
            final(self).same_sinks(old(self)),
        decreases
                if left.height() >= right.height() {
                    left.height()
                } else {
                    right.height()
                },
                2nat,
    {
        let left_evaluated = self.evaluate_expr(left, numerics);
        let ghost l = Evaluated { result: outcome_of(left_evaluated), scopes: self.scopes() };
        let left_value = match left_evaluated {
            Ok(value) => value,
            Err(error) => {
                assert(binary_outcome(numerics, operator@, l, l, l));
                return Err(error);
            },
        };
        let right_evaluated = self.evaluate_expr(right, numerics);
        let ghost v = Evaluated { result: outcome_of(right_evaluated), scopes: self.scopes() };
        let right_value = match right_evaluated {
            Ok(value) => value,
            Err(error) => {
                assert(binary_outcome(numerics, operator@, l, v, v));
                return Err(error);
            },
        };
        let ghost lv = left_value@;
        let ghost rv = right_value@;
        let result = match operator.token_type.kind() {
            TokenKind::BangEqual => Ok(Value::Bool(!is_equal(&left_value, &right_value))),
            TokenKind::EqualEqual => Ok(Value::Bool(is_equal(&left_value, &right_value))),
            TokenKind::Greater => {
                match expect_number_operands(operator, left_value, right_value) {
                    Ok((left_num, right_num)) => Ok(Value::Bool(left_num.greater(&right_num))),
                    Err(error) => Err(error),
                }
            },
            TokenKind::GreaterEqual => {
                match expect_number_operands(operator, left_value, right_value) {
                    Ok((left_num, right_num)) => Ok(
                        Value::Bool(left_num.greater_equal(&right_num)),
                    ),
                    Err(error) => Err(error),
                }
            },
            TokenKind::Less => {
                match expect_number_operands(operator, left_value, right_value) {
                    Ok((left_num, right_num)) => Ok(Value::Bool(left_num.less(&right_num))),
                    Err(error) => Err(error),
                }
            },
            TokenKind::LessEqual => {
                match expect_number_operands(operator, left_value, right_value) {
                    Ok((left_num, right_num)) => Ok(Value::Bool(left_num.less_equal(&right_num))),
                    Err(error) => Err(error),
                }
            },
            TokenKind::Minus => {
                match expect_number_operands(operator, left_value, right_value) {
                    Ok((left_num, right_num)) => Ok(
                        Value::Number(numerics.arithmetic(ArithOp::Subtract, left_num, right_num)),
                    ),
                    Err(error) => Err(error),
                }
            },
            TokenKind::Slash => {
                match expect_number_operands(operator, left_value, right_value) {
                    Ok((left_num, right_num)) => Ok(
                        Value::Number(numerics.arithmetic(ArithOp::Divide, left_num, right_num)),
                    ),
                    Err(error) => Err(error),
                }
            },
            TokenKind::Star => {
                match expect_number_operands(operator, left_value, right_value) {
                    Ok((left_num, right_num)) => Ok(
                        Value::Number(numerics.arithmetic(ArithOp::Multiply, left_num, right_num)),
                    ),
                    Err(error) => Err(error),
                }
            },
            TokenKind::Plus => {
                if left_value.is_number() && right_value.is_number() {
                    match expect_number_operands(operator, left_value, right_value) {
                        Ok((left_num, right_num)) => Ok(
                            Value::Number(numerics.arithmetic(ArithOp::Add, left_num, right_num)),
                        ),
                        Err(error) => Err(error),
                    }
                } else {
                    match expect_string_operands(operator, left_value, right_value) {
                        Ok((left_str, right_str)) => {
                            let mut joined = left_str;
                            push_text(&mut joined, right_str.as_str());
                            Ok(Value::String(joined))
                        },
                        Err(error) => Err(error),
                    }
                }
            },
            _ => Ok(Value::Nil),
        };
        assert(binary_result(numerics, operator@, lv, rv, outcome_of(result)));
        assert(binary_outcome(
            numerics,
            operator@,
            l,
            v,
            Evaluated { result: outcome_of(result), scopes: self.scopes() },
        ));
        result
    }
}

impl<R: ErrorReporter> Default for Interpreter<R> {
    fn default() -> (r: Self)
        ensures
            r.scopes() == seq![Map::<Seq<char>, ValueView>::empty()],
            r.printed() == Seq::<Seq<char>>::empty(),
            r.sink() is None,
    {
        Interpreter::new()
    }
}

/// `Undefined variable '<name>'.`
fn undefined_variable_message(name: &Token) -> (r: String)
    ensures
        r@ == "Undefined variable '"@ + name@.lexeme + "'."@,
{
    let mut message = String::new();
    push_text(&mut message, "Undefined variable '");
    push_text(&mut message, name.lexeme.as_str());
    push_text(&mut message, "'.");
    assert(message@ == "Undefined variable '"@ + name@.lexeme + "'."@);
    message
}

/// A runtime error ends the run: once the first `count` statements ended in
/// an error, every longer prefix ends in the same error, with the same scopes
/// and the same output. No statement behind the failing one is executed.
pub proof fn lemma_error_ends_run<N: Numerics>(
    numerics: &N,
    statements: Seq<StmtView>,
    count: nat,
    longer: nat,
    scopes: Seq<Scope>,
    output: Seq<Seq<char>>,
    out: Executed,
)
    requires
        executes_first(numerics, statements, count, scopes, output, out),
        out.result is Err,
        1 <= count <= longer <= statements.len(),
    ensures
        executes_first(numerics, statements, longer, scopes, output, out),
    decreases longer - count,
{
    if count < longer {
        lemma_error_ends_run(numerics, statements, count, (longer - 1) as nat, scopes, output, out);
        assert(sequence_outcome(out, out, out));
    }
}

/// Equality never fails and is false across kinds: a number, a string, a
/// truth value and `nil` are never equal to a value of another kind. `nil`
/// equals `nil`. Equality is symmetric.
pub proof fn lemma_equality_across_kinds(left: ValueView, right: ValueView)
    ensures
        values_equal(ValueView::Nil, ValueView::Nil),
        (left is Number) != (right is Number) ==> !values_equal(left, right),
        (left is Text) != (right is Text) ==> !values_equal(left, right),
        (left is Bool) != (right is Bool) ==> !values_equal(left, right),
        (left is Nil) != (right is Nil) ==> !values_equal(left, right),
        values_equal(left, right) == values_equal(right, left),
{
}

/// Whether `kind` is one of `> >= < <=`.
pub open spec fn is_comparison(kind: TokenKind) -> bool {
    kind == TokenKind::Greater || kind == TokenKind::GreaterEqual || kind == TokenKind::Less
        || kind == TokenKind::LessEqual
}

/// A comparison, a subtraction, a multiplication or a division of two
/// values that are not both numbers gives the error that the operands must be
/// numbers, whatever the arithmetic is.
pub proof fn lemma_wants_numbers<N: Numerics>(
    numerics: &N,
    operator: TokenView,
    left: ValueView,
    right: ValueView,
    out: Outcome,
)
    requires
        is_comparison(operator.kind) || operator.kind == TokenKind::Minus || operator.kind
            == TokenKind::Star || operator.kind == TokenKind::Slash,
        !(left is Number && right is Number),
        binary_result(numerics, operator, left, right, out),
    ensures
        out == Err::<ValueView, RuntimeErrorView>(RuntimeErrorView::OperandsMustBeNumbers(operator)),
{
}

/// Evaluating an expression never changes which names the scopes bind.
pub proof fn lemma_evaluation_keeps_names<N: Numerics>(
    numerics: &N,
    expr: ExprView,
    scopes: Seq<Scope>,
    out: Evaluated,
)
    requires
        evaluates(numerics, expr, scopes, out),
    ensures
        same_names(scopes, out.scopes),
    decreases expr,
{
    match expr {
        ExprView::Literal(_) => {},
        ExprView::Variable(_) => {},
        ExprView::Grouping(inner) => {
            lemma_evaluation_keeps_names(numerics, *inner, scopes, out);
        },
        ExprView::Unary { operator, right } => {
            let operand = choose|operand: Evaluated|
                #![trigger unary_outcome(operator, operand, out)]
                evaluates(numerics, *right, scopes, operand) && unary_outcome(
                    operator,
                    operand,
                    out,
                );
            lemma_evaluation_keeps_names(numerics, *right, scopes, operand);
        },
        ExprView::Binary { left, operator, right } => {
            let (l, r) = choose|l: Evaluated, r: Evaluated|
                #![trigger binary_outcome(numerics, operator, l, r, out)]
                evaluates(numerics, *left, scopes, l) && (l.result is Ok ==> evaluates(
                    numerics,
                    *right,
                    l.scopes,
                    r,
                )) && binary_outcome(numerics, operator, l, r, out);
            lemma_evaluation_keeps_names(numerics, *left, scopes, l);
            if l.result is Ok {
                lemma_evaluation_keeps_names(numerics, *right, l.scopes, r);
                lemma_same_names_chain(scopes, l.scopes, r.scopes);
            }
        },
        ExprView::Assign(name, value) => {
            let v = choose|v: Evaluated|
                #![trigger assign_outcome(name, v, out)]
                evaluates(numerics, *value, scopes, v) && assign_outcome(name, v, out);
            lemma_evaluation_keeps_names(numerics, *value, scopes, v);
            match v.result {
                Ok(assigned_value) => {
                    lemma_assigned_keeps_names(v.scopes, name.lexeme, assigned_value);
                    lemma_same_names_chain(scopes, v.scopes, out.scopes);
                },
                Err(_) => {},
            }
        },
    }
}

proof fn lemma_same_names_chain(a: Seq<Scope>, b: Seq<Scope>, c: Seq<Scope>)
    requires
        same_names(a, b),
        same_names(b, c),
    ensures
        same_names(a, c),
{
    assert forall|i: int| 0 <= i < a.len() implies (#[trigger] a[i]).dom() =~= c[i].dom() by {
        assert(a[i].dom() =~= b[i].dom());
        assert(b[i].dom() =~= c[i].dom());
    }
}

proof fn lemma_outer_names_chain(a: Seq<Scope>, b: Seq<Scope>, c: Seq<Scope>)
    requires
        outer_names_kept(a, b),
        outer_names_kept(b, c),
    ensures
        outer_names_kept(a, c),
{
    assert forall|i: int| 1 <= i < a.len() implies (#[trigger] a[i]).dom() =~= c[i].dom() by {
        assert(a[i].dom() =~= b[i].dom());
        assert(b[i].dom() =~= c[i].dom());
    }
}

proof fn lemma_same_names_is_kept(a: Seq<Scope>, b: Seq<Scope>)
    requires
        same_names(a, b),
    ensures
        outer_names_kept(a, b),
{
    assert forall|i: int| 1 <= i < a.len() implies (#[trigger] a[i]).dom() =~= b[i].dom() by {}
    if a.len() > 0 {
        assert(a[0].dom() =~= b[0].dom());
    }
}

/// Assigning to a name that no scope binds never succeeds: the assignment
/// ends in the error that the variable is undefined, unless its right-hand
/// side has failed already, and no scope binds the name afterwards either.
pub proof fn lemma_assignment_needs_declaration<N: Numerics>(
    numerics: &N,
    name: TokenView,
    value: ExprView,
    scopes: Seq<Scope>,
    out: Evaluated,
)
    requires
        evaluates(numerics, ExprView::Assign(name, Box::new(value)), scopes, out),
        lookup(scopes, name.lexeme) is None,
    ensures
        out.result is Err,
        lookup(out.scopes, name.lexeme) is None,
        out.result == Err::<ValueView, RuntimeErrorView>(
            RuntimeErrorView::AssignUndefinedVariable(name),
        ) || evaluates(numerics, value, scopes, out),
{
    let v = choose|v: Evaluated|
        #![trigger assign_outcome(name, v, out)]
        evaluates(numerics, value, scopes, v) && assign_outcome(name, v, out);
    lemma_evaluation_keeps_names(numerics, value, scopes, v);
    lemma_lookup_by_names(scopes, v.scopes, name.lexeme);
    match v.result {
        Ok(assigned_value) => {
            lemma_assigned_keeps_names(v.scopes, name.lexeme, assigned_value);
        },
        Err(_) => {},
    }
}

/// Whether a name is bound depends on the names of the scopes alone.
proof fn lemma_lookup_by_names(a: Seq<Scope>, b: Seq<Scope>, name: Seq<char>)
    requires
        same_names(a, b),
    ensures
        lookup(a, name) is Some == lookup(b, name) is Some,
    decreases a.len(),
{
    if a.len() > 0 {
        assert(a[0].dom() =~= b[0].dom());
        assert(a[0].contains_key(name) == b[0].contains_key(name));
        if !a[0].contains_key(name) {
            let ra = a.drop_first();
            let rb = b.drop_first();
            assert forall|i: int| 0 <= i < ra.len() implies (#[trigger] ra[i]).dom() =~= rb[i].dom() by {
                assert(ra[i] == a[i + 1]);
                assert(rb[i] == b[i + 1]);
                assert(a[i + 1].dom() =~= b[i + 1].dom());
            }
            lemma_lookup_by_names(ra, rb, name);
        }
    }
}

/// Executing a statement never changes which names the enclosing scopes
/// bind; a declaration adds its name to the innermost scope.
pub proof fn lemma_execution_keeps_outer_names<N: Numerics>(
    numerics: &N,
    stmt: StmtView,
    scopes: Seq<Scope>,
    output: Seq<Seq<char>>,
    out: Executed,
)
    requires
        scopes.len() > 0,
        executes(numerics, stmt, scopes, output, out),
    ensures
        outer_names_kept(scopes, out.scopes),
        stmt is Block ==> same_names(scopes, out.scopes),
    decreases stmt, 0nat,
{
    match stmt {
        StmtView::Expression(expr) => {
            let evaluated = Evaluated { result: out.result, scopes: out.scopes };
            lemma_evaluation_keeps_names(numerics, expr, scopes, evaluated);
            lemma_same_names_is_kept(scopes, out.scopes);
        },
        StmtView::Print(expr) => {
            let value = choose|value: Evaluated|
                #![trigger print_outcome(numerics, value, output, out)]
                evaluates(numerics, expr, scopes, value) && print_outcome(
                    numerics,
                    value,
                    output,
                    out,
                );
            lemma_evaluation_keeps_names(numerics, expr, scopes, value);
            lemma_same_names_is_kept(scopes, out.scopes);
        },
        StmtView::Var(name, initializer) => {
            match initializer {
                None => {
                    lemma_definition_keeps_outer_names(scopes, name.lexeme, ValueView::Nil);
                },
                Some(expr) => {
                    let value = choose|value: Evaluated|
                        #![trigger var_outcome(name, value, output, out)]
                        evaluates(numerics, expr, scopes, value) && var_outcome(
                            name,
                            value,
                            output,
                            out,
                        );
                    lemma_evaluation_keeps_names(numerics, expr, scopes, value);
                    lemma_same_names_is_kept(scopes, value.scopes);
                    match value.result {
                        Ok(v) => {
                            lemma_definition_keeps_outer_names(value.scopes, name.lexeme, v);
                            lemma_outer_names_chain(scopes, value.scopes, out.scopes);
                        },
                        Err(_) => {},
                    }
                },
            }
        },
        StmtView::Block(statements) => {
            let entered = seq![Map::<Seq<char>, ValueView>::empty()] + scopes;
            let inner = choose|inner: Executed|
                #![trigger block_outcome(inner, out)]
                executes_first(numerics, statements, statements.len(), entered, output, inner)
                    && block_outcome(inner, out);
            lemma_run_keeps_outer_names(
                numerics,
                statements,
                statements.len(),
                entered,
                output,
                inner,
            );
            assert forall|i: int| 0 <= i < scopes.len() implies (#[trigger] scopes[i]).dom()
                =~= out.scopes[i].dom() by {
                assert(scopes[i] == entered[i + 1]);
                assert(out.scopes[i] == inner.scopes[i + 1]);
                assert(entered[i + 1].dom() =~= inner.scopes[i + 1].dom());
            }
            lemma_same_names_is_kept(scopes, out.scopes);
        },
    }
}

/// Executing statements in order never changes which names the enclosing
/// scopes bind.
pub proof fn lemma_run_keeps_outer_names<N: Numerics>(
    numerics: &N,
    statements: Seq<StmtView>,
    count: nat,
    scopes: Seq<Scope>,
    output: Seq<Seq<char>>,
    out: Executed,
)
    requires
        scopes.len() > 0,
        executes_first(numerics, statements, count, scopes, output, out),
    ensures
        outer_names_kept(scopes, out.scopes),
    decreases statements, count,
{
    if count == 0 || count > statements.len() {
        assert(scopes[0].dom().subset_of(out.scopes[0].dom()));
    } else {
        let (before, last) = choose|before: Executed, last: Executed|
            #![trigger sequence_outcome(before, last, out)]
            executes_first(numerics, statements, (count - 1) as nat, scopes, output, before) && (
            before.result is Ok ==> executes(
                numerics,
                statements[count - 1],
                before.scopes,
                before.output,
                last,
            )) && sequence_outcome(before, last, out);
        lemma_run_keeps_outer_names(
            numerics,
            statements,
            (count - 1) as nat,
            scopes,
            output,
            before,
        );
        if before.result is Ok {
            lemma_execution_keeps_outer_names(
                numerics,
                statements[count - 1],
                before.scopes,
                before.output,
                last,
            );
            lemma_outer_names_chain(scopes, before.scopes, out.scopes);
        }
    }
}

/// The expression holds an assignment to `name`.
pub open spec fn expr_assigns(expr: ExprView, name: Seq<char>) -> bool
    decreases expr,
{
    match expr {
        ExprView::Binary { left, operator, right } => expr_assigns(*left, name) || expr_assigns(
            *right,
            name,
        ),
        ExprView::Unary { operator, right } => expr_assigns(*right, name),
        ExprView::Grouping(inner) => expr_assigns(*inner, name),
        ExprView::Literal(_) => false,
        ExprView::Variable(_) => false,
        ExprView::Assign(target, value) => target.lexeme == name || expr_assigns(*value, name),
    }
}

/// The statement declares `name`.
pub open spec fn declares(stmt: StmtView, name: Seq<char>) -> bool {
    match stmt {
        StmtView::Var(declared, _) => declared.lexeme == name,
        _ => false,
    }
}

/// One of the first `count` statements declares `name`.
pub open spec fn declared_in(statements: Seq<StmtView>, count: nat, name: Seq<char>) -> bool {
    exists|j: int|
        0 <= j < count && j < statements.len() && declares(#[trigger] statements[j], name)
}

/// The statement holds an assignment to `name` that may reach a scope that
/// was there before the statement: one that no declaration of the name in a
/// block of the statement stands before.
pub open spec fn stmt_writes(stmt: StmtView, name: Seq<char>) -> bool
    decreases stmt, 0nat,
{
    match stmt {
        StmtView::Expression(expr) => expr_assigns(expr, name),
        StmtView::Print(expr) => expr_assigns(expr, name),
        StmtView::Var(_, initializer) => match initializer {
            Some(expr) => expr_assigns(expr, name),
            None => false,
        },
        StmtView::Block(statements) => body_writes(statements, statements.len(), name),
    }
}

/// One of the first `count` statements holds such an assignment to `name`,
/// and none of the statements before it declares the name.
pub open spec fn body_writes(statements: Seq<StmtView>, count: nat, name: Seq<char>) -> bool
    decreases statements, count,
{
    if count == 0 || count > statements.len() {
        false
    } else {
        body_writes(statements, (count - 1) as nat, name) || (stmt_writes(
            statements[count - 1],
            name,
        ) && !declared_in(statements, (count - 1) as nat, name))
    }
}

proof fn lemma_bound_by_names(a: Seq<Scope>, b: Seq<Scope>, depth: int, name: Seq<char>)
    requires
        outer_names_kept(a, b),
        bound_within(a, depth, name),
    ensures
        bound_within(b, depth, name),
{
    let i = choose|i: int|
        0 <= i < depth && i < a.len() && (#[trigger] a[i]).contains_key(name);
    if i == 0 {
        assert(a[0].dom().subset_of(b[0].dom()));
        assert(a[0].dom().contains(name));
    } else {
        assert(a[i].dom() =~= b[i].dom());
        assert(a[i].dom().contains(name));
    }
    assert(b[i].contains_key(name));
}

/// An expression changes the value of a name only by an assignment to it,
/// and then only in the innermost scope that binds the name.
///
/// So where one of the `depth` innermost scopes binds `name`, or the
/// expression holds no assignment to it, the scopes around those keep the
/// name's value.
pub proof fn lemma_evaluation_keeps_values<N: Numerics>(
    numerics: &N,
    expr: ExprView,
    scopes: Seq<Scope>,
    out: Evaluated,
    depth: int,
    name: Seq<char>,
)
    requires
        evaluates(numerics, expr, scopes, out),
        bound_within(scopes, depth, name) || !expr_assigns(expr, name),
    ensures
        keeps_value(scopes, out.scopes, depth, name),
    decreases expr,
{
    match expr {
        ExprView::Literal(_) => {},
        ExprView::Variable(_) => {},
        ExprView::Grouping(inner) => {
            lemma_evaluation_keeps_values(numerics, *inner, scopes, out, depth, name);
        },
        ExprView::Unary { operator, right } => {
            let operand = choose|operand: Evaluated|
                #![trigger unary_outcome(operator, operand, out)]
                evaluates(numerics, *right, scopes, operand) && unary_outcome(
                    operator,
                    operand,
                    out,
                );
            lemma_evaluation_keeps_values(numerics, *right, scopes, operand, depth, name);
        },
        ExprView::Binary { left, operator, right } => {
            let (l, r) = choose|l: Evaluated, r: Evaluated|
                #![trigger binary_outcome(numerics, operator, l, r, out)]
                evaluates(numerics, *left, scopes, l) && (l.result is Ok ==> evaluates(
                    numerics,
                    *right,
                    l.scopes,
                    r,
                )) && binary_outcome(numerics, operator, l, r, out);
            lemma_evaluation_keeps_values(numerics, *left, scopes, l, depth, name);
            if l.result is Ok {
                lemma_evaluation_keeps_names(numerics, *left, scopes, l);
                if bound_within(scopes, depth, name) {
                    lemma_same_names_is_kept(scopes, l.scopes);
                    lemma_bound_by_names(scopes, l.scopes, depth, name);
                }
                lemma_evaluation_keeps_values(numerics, *right, l.scopes, r, depth, name);
                lemma_keeps_value_chain(scopes, l.scopes, r.scopes, depth, name);
            }
        },
        ExprView::Assign(target, value) => {
            let v = choose|v: Evaluated|
                #![trigger assign_outcome(target, v, out)]
                evaluates(numerics, *value, scopes, v) && assign_outcome(target, v, out);
            lemma_evaluation_keeps_values(numerics, *value, scopes, v, depth, name);
            match v.result {
                Ok(assigned_value) => {
                    if assigned(v.scopes, target.lexeme, assigned_value) is Some {
                        lemma_evaluation_keeps_names(numerics, *value, scopes, v);
                        if target.lexeme == name {
                            lemma_same_names_is_kept(scopes, v.scopes);
                            lemma_bound_by_names(scopes, v.scopes, depth, name);
                        }
                        lemma_assigned_keeps_values(
                            v.scopes,
                            target.lexeme,
                            assigned_value,
                            depth,
                            name,
                        );
                        lemma_keeps_value_chain(scopes, v.scopes, out.scopes, depth, name);
                    }
                },
                Err(_) => {},
            }
        },
    }
}

/// The scope from which a statement keeps values: a block keeps them from
/// `depth` on, any other statement from the scope around the innermost one,
/// in which it may declare.
pub open spec fn kept_from(stmt: StmtView, depth: int) -> int {
    if stmt is Block || depth >= 1 {
        depth
    } else {
        1
    }
}

/// A statement changes the value of a name in a scope around it only by an
/// assignment that reaches that scope.
///
/// So where one of the `depth` innermost scopes binds `name`, or the
/// statement holds no assignment to it that reaches beyond its own blocks,
/// the scopes around those keep the name's value.
pub proof fn lemma_execution_keeps_values<N: Numerics>(
    numerics: &N,
    stmt: StmtView,
    scopes: Seq<Scope>,
    output: Seq<Seq<char>>,
    out: Executed,
    depth: int,
    name: Seq<char>,
)
    requires
        scopes.len() > 0,
        0 <= depth,
        executes(numerics, stmt, scopes, output, out),
        bound_within(scopes, depth, name) || !stmt_writes(stmt, name),
    ensures
        keeps_value(scopes, out.scopes, kept_from(stmt, depth), name),
    decreases stmt, 0nat,
{
    match stmt {
        StmtView::Expression(expr) => {
            let evaluated = Evaluated { result: out.result, scopes: out.scopes };
            lemma_evaluation_keeps_values(numerics, expr, scopes, evaluated, depth, name);
        },
        StmtView::Print(expr) => {
            let value = choose|value: Evaluated|
                #![trigger print_outcome(numerics, value, output, out)]
                evaluates(numerics, expr, scopes, value) && print_outcome(
                    numerics,
                    value,
                    output,
                    out,
                );
            lemma_evaluation_keeps_values(numerics, expr, scopes, value, depth, name);
        },
        StmtView::Var(declared, initializer) => {
            match initializer {
                None => {},
                Some(expr) => {
                    let value = choose|value: Evaluated|
                        #![trigger var_outcome(declared, value, output, out)]
                        evaluates(numerics, expr, scopes, value) && var_outcome(
                            declared,
                            value,
                            output,
                            out,
                        );
                    lemma_evaluation_keeps_values(numerics, expr, scopes, value, depth, name);
                    lemma_evaluation_keeps_names(numerics, expr, scopes, value);
                },
            }
        },
        StmtView::Block(statements) => {
            let entered = seq![Map::<Seq<char>, ValueView>::empty()] + scopes;
            let inner = choose|inner: Executed|
                #![trigger block_outcome(inner, out)]
                executes_first(numerics, statements, statements.len(), entered, output, inner)
                    && block_outcome(inner, out);
            if bound_within(scopes, depth, name) {
                let i = choose|i: int|
                    0 <= i < depth && i < scopes.len() && (#[trigger] scopes[i]).contains_key(
                        name,
                    );
                assert(entered[i + 1] == scopes[i]);
                assert(bound_within(entered, depth + 1, name));
            }
            lemma_run_keeps_values(
                numerics,
                statements,
                statements.len(),
                entered,
                output,
                inner,
                depth + 1,
                name,
            );
            assert forall|i: int| depth <= i < scopes.len() implies (#[trigger] scopes[i]).contains_key(
                name,
            ) == out.scopes[i].contains_key(name) && (scopes[i].contains_key(name)
                ==> out.scopes[i][name] == scopes[i][name]) by {
                assert(scopes[i] == entered[i + 1]);
                assert(out.scopes[i] == inner.scopes[i + 1]);
            }
        },
    }
}

/// Statements in order change the value of a name in a scope around them
/// only by an assignment that no declaration of the name among them stands
/// before; and once they have declared a name, the innermost scope binds it.
pub proof fn lemma_run_keeps_values<N: Numerics>(
    numerics: &N,
    statements: Seq<StmtView>,
    count: nat,
    scopes: Seq<Scope>,
    output: Seq<Seq<char>>,
    out: Executed,
    depth: int,
    name: Seq<char>,
)
    requires
        scopes.len() > 0,
        1 <= depth,
        executes_first(numerics, statements, count, scopes, output, out),
        bound_within(scopes, depth, name) || !body_writes(statements, count, name),
    ensures
        keeps_value(scopes, out.scopes, depth, name),
        out.result is Ok && count <= statements.len() && declared_in(statements, count, name)
            ==> out.scopes[0].contains_key(name),
    decreases statements, count,
{
    if count == 0 || count > statements.len() {
    } else {
        let (before, last) = choose|before: Executed, last: Executed|
            #![trigger sequence_outcome(before, last, out)]
            executes_first(numerics, statements, (count - 1) as nat, scopes, output, before) && (
            before.result is Ok ==> executes(
                numerics,
                statements[count - 1],
                before.scopes,
                before.output,
                last,
            )) && sequence_outcome(before, last, out);
        let stmt = statements[count - 1];
        lemma_run_keeps_values(
            numerics,
            statements,
            (count - 1) as nat,
            scopes,
            output,
            before,
            depth,
            name,
        );
        lemma_run_keeps_outer_names(
            numerics,
            statements,
            (count - 1) as nat,
            scopes,
            output,
            before,
        );
        if before.result is Ok {
            if bound_within(scopes, depth, name) {
                lemma_bound_by_names(scopes, before.scopes, depth, name);
            } else if declared_in(statements, (count - 1) as nat, name) {
                assert(before.scopes[0].contains_key(name));
                assert(bound_within(before.scopes, depth, name));
            }
            lemma_execution_keeps_values(
                numerics,
                stmt,
                before.scopes,
                before.output,
                last,
                depth,
                name,
            );
            lemma_execution_keeps_outer_names(
                numerics,
                stmt,
                before.scopes,
                before.output,
                last,
            );
            lemma_keeps_value_chain(scopes, before.scopes, out.scopes, depth, name);
            if out.result is Ok && declared_in(statements, count, name) {
                if declared_in(statements, (count - 1) as nat, name) {
                    assert(before.scopes[0].dom().subset_of(last.scopes[0].dom()));
                    assert(before.scopes[0].dom().contains(name));
                } else {
                    let j = choose|j: int|
                        0 <= j < count && j < statements.len() && declares(
                            #[trigger] statements[j],
                            name,
                        );
                    assert(j == count - 1);
                    lemma_declaration_binds(numerics, stmt, before.scopes, before.output, last, name);
                }
            }
        }
    }
}

/// A declaration that succeeds binds its name in the innermost scope.
proof fn lemma_declaration_binds<N: Numerics>(
    numerics: &N,
    stmt: StmtView,
    scopes: Seq<Scope>,
    output: Seq<Seq<char>>,
    out: Executed,
    name: Seq<char>,
)
    requires
        scopes.len() > 0,
        executes(numerics, stmt, scopes, output, out),
        declares(stmt, name),
        out.result is Ok,
    ensures
        out.scopes[0].contains_key(name),
{
    match stmt {
        StmtView::Var(declared, initializer) => {
            match initializer {
                None => {},
                Some(expr) => {
                    let value = choose|value: Evaluated|
                        #![trigger var_outcome(declared, value, output, out)]
                        evaluates(numerics, expr, scopes, value) && var_outcome(
                            declared,
                            value,
                            output,
                            out,
                        );
                    lemma_evaluation_keeps_names(numerics, expr, scopes, value);
                },
            }
        },
        _ => {},
    }
}

/// A block gives back the scopes it found: as many, each with the names it
/// bound, and with the value of every name that the block does not assign to
/// before declaring it. What the block declares is gone with its scope.
pub proof fn lemma_block_keeps_values<N: Numerics>(
    numerics: &N,
    body: Seq<StmtView>,
    scopes: Seq<Scope>,
    output: Seq<Seq<char>>,
    out: Executed,
    name: Seq<char>,
)
    requires
        scopes.len() > 0,
        executes(numerics, StmtView::Block(body), scopes, output, out),
        !body_writes(body, body.len(), name),
    ensures
        same_names(scopes, out.scopes),
        keeps_value(scopes, out.scopes, 0, name),
        lookup(out.scopes, name) == lookup(scopes, name),
{
    let block = StmtView::Block(body);
    lemma_execution_keeps_outer_names(numerics, block, scopes, output, out);
    lemma_execution_keeps_values(numerics, block, scopes, output, out, 0, name);
    lemma_lookup_by_values(scopes, out.scopes, name);
}

/// Where every scope keeps the value of a name, looking it up gives the same.
proof fn lemma_lookup_by_values(a: Seq<Scope>, b: Seq<Scope>, name: Seq<char>)
    requires
        keeps_value(a, b, 0, name),
    ensures
        lookup(a, name) == lookup(b, name),
    decreases a.len(),
{
    if a.len() > 0 {
        assert(a[0].contains_key(name) == b[0].contains_key(name));
        if !a[0].contains_key(name) {
            let ra = a.drop_first();
            let rb = b.drop_first();
            assert forall|i: int| 0 <= i < ra.len() implies (#[trigger] ra[i]).contains_key(name)
                == rb[i].contains_key(name) && (ra[i].contains_key(name) ==> rb[i][name]
                == ra[i][name]) by {
                assert(ra[i] == a[i + 1]);
                assert(rb[i] == b[i + 1]);
                assert(a[i + 1].contains_key(name) == b[i + 1].contains_key(name));
            }
            lemma_lookup_by_values(ra, rb, name);
        }
    }
}

proof fn lemma_definition_keeps_outer_names(scopes: Seq<Scope>, name: Seq<char>, value: ValueView)
    requires
        scopes.len() > 0,
    ensures
        outer_names_kept(scopes, defined(scopes, name, value)),
{
}

} // verus!
