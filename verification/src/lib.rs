//! A tree-walking interpreter for a small dynamically typed scripting
//! language, verified with Verus: scanner, recursive-descent parser,
//! scope-chained environment and evaluator, with the diagnostics they report.
//!
//! Nothing here reads or writes a stream. [`run`] takes the source text and
//! hands back what a program printed, what was reported, and the exit code
//! that the embedding program is to end with.

use crate::ast::ValueView;
use crate::environment::Scope;
use crate::interpreter::{
    executes_first, reported_after, runtime_report, Executed, Interpreter, Outcome,
};
use crate::number::Numerics;
use crate::parser::{lemma_program_reports, program, Parser};
use crate::reporter::{
    any_runtime, any_static, lemma_any_after_push, lemma_static_chain, lemma_static_keeps_runtime,
    line_views, DiagnosticView, ErrorReporter, LogReporter,
};
use crate::scanner::{all_carry, lemma_scan_reports, lexemes_of, scan, Scanned, Scanner};
use crate::tokens::{token_views, Token};
use vstd::prelude::*;

pub mod asp;
pub mod ast;
pub mod environment;
pub mod helpers;
pub mod interpreter;
pub mod number;
pub mod parser;
pub mod reporter;
pub mod scanner;
pub mod text;
pub mod tokens;

verus! {

/// The exit code of a run without errors.
pub const EXIT_OK: u8 = 0;

/// The exit code of a run that reported a lexical or a parse error.
pub const EXIT_STATIC_ERROR: u8 = 65;

/// The exit code of a run that reported a runtime error.
pub const EXIT_RUNTIME_ERROR: u8 = 70;

/// What one run of a source text gave.
pub struct RunReport {
    /// The reporter with every diagnostic of the run, in order.
    pub reporter: LogReporter,
    /// The lines that print statements wrote, in order.
    pub output: Vec<String>,
    /// The code that the process is to exit with.
    pub exit_code: u8,
}

/// A run of `source` that scanned `tokens` and ended in `result` with the
/// scopes `scopes` gives these reports, this output and this exit code.
///
/// The tokens are those of the scan. They are parsed with the lexical errors
/// already reported. The statements that parsed are executed in one empty
/// global scope, whether or not an error was reported before; a runtime
/// error is reported and ends the execution. The exit code is 65 after a
/// lexical or a parse error, else 70 after a runtime error, else 0.
pub open spec fn run_of<N: Numerics>(
    numerics: &N,
    source: Seq<char>,
    tokens: Seq<Token>,
    result: Outcome,
    scopes: Seq<Scope>,
    reports: Seq<DiagnosticView>,
    output: Seq<Seq<char>>,
    exit_code: u8,
) -> bool {
    let scanned = scan(source);
    let parsed = program(token_views(tokens), 0, Some(scanned.faults), Seq::empty());
    &&& lexemes_of(tokens) == scanned.lexemes
    &&& all_carry(numerics, tokens)
    &&& parsed.sink is Some
    &&& executes_first(
        numerics,
        parsed.statements,
        parsed.statements.len(),
        seq![Map::<Seq<char>, ValueView>::empty()],
        Seq::empty(),
        Executed { result, scopes, output },
    )
    &&& Some(reports) == reported_after(parsed.sink, result)
    &&& exit_code == if any_static(parsed.sink->0) {
        EXIT_STATIC_ERROR
    } else if result is Err {
        EXIT_RUNTIME_ERROR
    } else {
        EXIT_OK
    }
}

/// Runs a source text: scans it, parses the tokens and executes the
/// statements.
pub fn run<N: Numerics>(source: &str, numerics: &N) -> (r: RunReport)
    requires
        source@.len() + 1 < usize::MAX,
    ensures
        exists|tokens: Seq<Token>, result: Outcome, scopes: Seq<Scope>|
            #![auto]
            run_of(
                numerics,
                source@,
                tokens,
                result,
                scopes,
                r.reporter.reports(),
                line_views(r.output@),
                r.exit_code,
            ),
{
    let log_reporter = LogReporter::new();
    let mut scanner = Scanner::new(source).attach_reporter(log_reporter);
    let tokens = scanner.scan_tokens(numerics);
    let log_reporter = scanner.detach_reporter().unwrap();
    let ghost scanned = scan(source@);
    assert(log_reporter.reports() =~= scanned.faults);
    let ghost token_seq = tokens@;

    let mut parser = Parser::new(tokens).attach_reporter(log_reporter);
    let statements = parser.parse();
    let log_reporter = parser.detach_reporter().unwrap();
    let ghost parsed = program(token_views(token_seq), 0, Some(scanned.faults), Seq::empty());

    let mut interpreter = Interpreter::new().attach_reporter(log_reporter);
    interpreter.interpret(statements.as_slice(), numerics);
    let ghost scopes = interpreter.scopes();
    let ghost result = choose|result: Outcome|
        #![trigger reported_after(parsed.sink, result)]
        executes_first(
            numerics,
            parsed.statements,
            parsed.statements.len(),
            seq![Map::<Seq<char>, ValueView>::empty()],
            Seq::empty(),
            Executed { result, scopes, output: interpreter.printed() },
        ) && interpreter.sink() == reported_after(parsed.sink, result);
    let log_reporter = interpreter.detach_reporter().unwrap();
    let output = interpreter.take_output();
    let exit_code = if log_reporter.is_had_error() {
        EXIT_STATIC_ERROR
    } else if log_reporter.is_had_runtime_error() {
        EXIT_RUNTIME_ERROR
    } else {
        EXIT_OK
    };
    let r = RunReport { reporter: log_reporter, output, exit_code };
    proof {
        let empty = Scanned { lexemes: Seq::empty(), faults: Seq::empty() };
        lemma_scan_reports(source@, 0, 1, empty);
        lemma_program_reports(token_views(token_seq), 0, Some(scanned.faults), Seq::empty());
        lemma_static_chain(Some(empty.faults), Some(scanned.faults), parsed.sink);
        lemma_static_keeps_runtime(empty.faults, parsed.sink->0);
        match result {
            Err(error) => {
                lemma_any_after_push(parsed.sink->0, runtime_report(error));
            },
            Ok(_) => {},
        }
    }
    assert(run_of(
        numerics,
        source@,
        token_seq,
        result,
        scopes,
        r.reporter.reports(),
        line_views(r.output@),
        r.exit_code,
    ));
    r
}

} // verus!
