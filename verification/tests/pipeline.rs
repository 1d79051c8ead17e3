use rlox::number::{ArithOp, Number, Numerics};
use rlox::reporter::{Diagnostic, LogReporter};
use rlox::run;

struct Ieee;

impl Numerics for Ieee {
    fn parse(&self, literal: &str) -> Number {
        Number::from_bits(literal.parse::<f64>().unwrap().to_bits())
    }

    fn arithmetic(&self, op: ArithOp, left: Number, right: Number) -> Number {
        let a = f64::from_bits(left.to_bits());
        let b = f64::from_bits(right.to_bits());
        let r = match op {
            ArithOp::Add => a + b,
            ArithOp::Subtract => a - b,
            ArithOp::Multiply => a * b,
            ArithOp::Divide => a / b,
        };
        Number::from_bits(r.to_bits())
    }

    fn render(&self, number: Number) -> String {
        f64::from_bits(number.to_bits()).to_string()
    }
}

fn entries(reporter: &LogReporter) -> Vec<String> {
    reporter
        .entries()
        .iter()
        .map(|d| match d {
            Diagnostic::Static { line, location, message } => {
                format!("[line {}] Error{}: {}", line, location, message)
            }
            Diagnostic::Runtime { line, message } => format!("{}\n[line {}]", message, line),
        })
        .collect()
}

#[test]
fn multiplication_binds_tighter_than_addition() {
    let report = run("print 1+2*3;", &Ieee);
    assert_eq!(report.output, vec!["7".to_string()]);
    assert_eq!(report.exit_code, 0);
    assert!(entries(&report.reporter).is_empty());
}

#[test]
fn grouping_overrides_precedence() {
    let report = run("print (1+2)*3;", &Ieee);
    assert_eq!(report.output, vec!["9".to_string()]);
}

#[test]
fn subtraction_and_division_associate_to_the_left() {
    let report = run("print 10-4-3; print 24/4/2;", &Ieee);
    assert_eq!(report.output, vec!["3".to_string(), "3".to_string()]);
}

#[test]
fn unary_minus_binds_tighter_than_multiplication() {
    let report = run("print -2*3; print --2; print !true; print !!nil;", &Ieee);
    assert_eq!(
        report.output,
        vec!["-6".to_string(), "2".to_string(), "false".to_string(), "false".to_string()]
    );
}

#[test]
fn comparison_binds_tighter_than_equality() {
    let report = run("print 1 < 2 == true; print 2 >= 2; print 1 > 2; print 2 <= 1;", &Ieee);
    assert_eq!(
        report.output,
        vec!["true".to_string(), "true".to_string(), "false".to_string(), "false".to_string()]
    );
}

#[test]
fn fractions_are_parsed_and_printed() {
    let report = run("print 1.5 + 2.25; print 7 / 2; print 0.1 + 0.2;", &Ieee);
    assert_eq!(
        report.output,
        vec!["3.75".to_string(), "3.5".to_string(), "0.30000000000000004".to_string()]
    );
}

#[test]
fn division_by_zero_gives_infinity() {
    let report = run("print 1 / 0; print -1 / 0; print 0 / 0 == 0 / 0;", &Ieee);
    assert_eq!(report.output, vec!["inf".to_string(), "-inf".to_string(), "false".to_string()]);
    assert_eq!(report.exit_code, 0);
}

#[test]
fn strings_are_joined_by_plus() {
    let report = run("print \"foo\" + \"bar\"; print \"\" + \"\";", &Ieee);
    assert_eq!(report.output, vec!["foobar".to_string(), "".to_string()]);
}

#[test]
fn number_plus_string_is_not_coerced() {
    let report = run("print 1 + \"a\"; print 2;", &Ieee);
    assert!(report.output.is_empty());
    assert_eq!(report.exit_code, 70);
    assert_eq!(entries(&report.reporter), vec!["Operands must be strings.\n[line 1]".to_string()]);
}

#[test]
fn string_plus_number_is_not_coerced() {
    let report = run("print \"a\" + 1;", &Ieee);
    assert_eq!(report.exit_code, 70);
    assert_eq!(entries(&report.reporter), vec!["Operands must be strings.\n[line 1]".to_string()]);
}

#[test]
fn equality_across_kinds_is_false() {
    let report = run(
        "print true == 1; print nil == nil; print nil == false; print \"1\" == 1; \
         print 1 == 1; print \"a\" == \"a\"; print true != 1; print 1 != 2;",
        &Ieee,
    );
    assert_eq!(
        report.output,
        vec!["false", "true", "false", "false", "true", "true", "true", "true"]
            .into_iter()
            .map(String::from)
            .collect::<Vec<_>>()
    );
    assert_eq!(report.exit_code, 0);
}

#[test]
fn comparing_bool_with_number_fails_and_halts() {
    let report = run("print 1;\nprint true > 1;\nprint 2;", &Ieee);
    assert_eq!(report.output, vec!["1".to_string()]);
    assert_eq!(report.exit_code, 70);
    assert_eq!(entries(&report.reporter), vec!["Operands must be numbers.\n[line 2]".to_string()]);
    assert!(report.reporter.is_had_runtime_error());
    assert!(!report.reporter.is_had_error());
}

#[test]
fn negating_a_string_fails() {
    let report = run("print -\"a\";", &Ieee);
    assert_eq!(report.exit_code, 70);
    assert_eq!(entries(&report.reporter), vec!["Operand must be a number.\n[line 1]".to_string()]);
}

#[test]
fn block_shadowing_restores_outer_binding() {
    let report = run("var x = \"outer\"; { var x = \"inner\"; print x; } print x;", &Ieee);
    assert_eq!(report.output, vec!["inner".to_string(), "outer".to_string()]);
    assert_eq!(report.exit_code, 0);
}

#[test]
fn assignment_in_block_reaches_outer_variable() {
    let report = run("var x = 1; { x = 2; var y = x; print y; } print x;", &Ieee);
    assert_eq!(report.output, vec!["2".to_string(), "2".to_string()]);
}

#[test]
fn block_variable_is_gone_after_block() {
    let report = run("{ var y = 1; } print y;", &Ieee);
    assert!(report.output.is_empty());
    assert_eq!(report.exit_code, 70);
    assert_eq!(entries(&report.reporter), vec!["Undefined variable 'y'.\n[line 1]".to_string()]);
}

#[test]
fn error_in_block_halts_and_restores_scope() {
    let report = run("var x = 1; { var x = 2; print x; print -nil; print 3; } print x;", &Ieee);
    assert_eq!(report.output, vec!["2".to_string()]);
    assert_eq!(report.exit_code, 70);
    assert_eq!(entries(&report.reporter), vec!["Operand must be a number.\n[line 1]".to_string()]);
}

#[test]
fn assigning_to_undeclared_name_fails_and_halts() {
    let report = run("x = 1;\nprint 2;", &Ieee);
    assert!(report.output.is_empty());
    assert_eq!(report.exit_code, 70);
    assert_eq!(entries(&report.reporter), vec!["Undefined variable 'x'.\n[line 1]".to_string()]);
}

#[test]
fn assignment_is_an_expression_and_associates_to_the_right() {
    let report = run("var a; var b; a = b = 3; print a; print b; print a = 4;", &Ieee);
    assert_eq!(report.output, vec!["3".to_string(), "3".to_string(), "4".to_string()]);
}

#[test]
fn variable_without_initializer_is_nil() {
    let report = run("var a; print a;", &Ieee);
    assert_eq!(report.output, vec!["nil".to_string()]);
}

#[test]
fn redefinition_overwrites() {
    let report = run("var a = 1; var a = 2; print a;", &Ieee);
    assert_eq!(report.output, vec!["2".to_string()]);
}

#[test]
fn malformed_statement_is_reported_once_and_valid_one_still_runs() {
    let report = run("var ;  print \"ok\";", &Ieee);
    assert_eq!(
        entries(&report.reporter),
        vec!["[line 1] Error at ';': Expect variable name.".to_string()]
    );
    assert_eq!(report.output, vec!["ok".to_string()]);
    assert_eq!(report.exit_code, 65);
    assert!(report.reporter.is_had_error());
}

#[test]
fn unterminated_string_is_a_lexical_error() {
    let report = run("print 1;\n\"abc\ndef", &Ieee);
    assert_eq!(entries(&report.reporter), vec!["[line 3] Error: Unterminated string.".to_string()]);
    assert_eq!(report.output, vec!["1".to_string()]);
    assert_eq!(report.exit_code, 65);
}

#[test]
fn unexpected_character_is_reported_and_scanning_goes_on() {
    let report = run("print 1; @ print 2;", &Ieee);
    assert_eq!(entries(&report.reporter), vec!["[line 1] Error: unexpected char".to_string()]);
    assert_eq!(report.output, vec!["1".to_string(), "2".to_string()]);
    assert_eq!(report.exit_code, 65);
}

#[test]
fn missing_semicolon_is_reported_at_end() {
    let report = run("print 1", &Ieee);
    assert_eq!(
        entries(&report.reporter),
        vec!["[line 1] Error at end: Expect ';' after value.".to_string()]
    );
    assert!(report.output.is_empty());
    assert_eq!(report.exit_code, 65);
}

#[test]
fn invalid_assignment_target_is_reported_without_recovery() {
    let report = run("var a = 1; 1 + a = 2; print a;", &Ieee);
    assert_eq!(
        entries(&report.reporter),
        vec!["[line 1] Error at '=': Invalid assignment target.".to_string()]
    );
    assert_eq!(report.output, vec!["1".to_string()]);
    assert_eq!(report.exit_code, 65);
}

#[test]
fn two_independent_parse_errors_are_both_reported() {
    let report = run("var ;\nprint ;\nprint 3;", &Ieee);
    assert_eq!(
        entries(&report.reporter),
        vec![
            "[line 1] Error at ';': Expect variable name.".to_string(),
            "[line 2] Error at ';': Expect expression.".to_string(),
        ]
    );
    assert_eq!(report.output, vec!["3".to_string()]);
}

#[test]
fn comments_and_blank_lines_are_skipped() {
    let report = run("// nothing\n\nprint 1; // one\n// end", &Ieee);
    assert_eq!(report.output, vec!["1".to_string()]);
    assert_eq!(report.exit_code, 0);
}

#[test]
fn empty_source_runs_to_nothing() {
    let report = run("", &Ieee);
    assert!(report.output.is_empty());
    assert!(entries(&report.reporter).is_empty());
    assert_eq!(report.exit_code, 0);
}

#[test]
fn truthiness_of_zero_and_empty_string() {
    let report = run("print !0; print !\"\"; print !nil; print !false;", &Ieee);
    assert_eq!(
        report.output,
        vec!["false".to_string(), "false".to_string(), "true".to_string(), "true".to_string()]
    );
}

#[test]
fn each_run_starts_with_fresh_flags_and_scopes() {
    let failed = run("var a = 1; print a; print -nil;", &Ieee);
    assert_eq!(failed.exit_code, 70);
    assert!(failed.reporter.is_had_runtime_error());
    let next = run("print a;", &Ieee);
    assert_eq!(next.exit_code, 70);
    assert_eq!(entries(&next.reporter), vec!["Undefined variable 'a'.\n[line 1]".to_string()]);
    let clean = run("print 1;", &Ieee);
    assert_eq!(clean.exit_code, 0);
    assert!(!clean.reporter.is_had_runtime_error());
    assert!(!clean.reporter.is_had_error());
    assert!(clean.reporter.entries().is_empty());
}

#[test]
fn static_error_takes_precedence_in_the_exit_code() {
    let report = run("var ; print -nil; print 1;", &Ieee);
    assert_eq!(
        entries(&report.reporter),
        vec![
            "[line 1] Error at ';': Expect variable name.".to_string(),
            "Operand must be a number.\n[line 1]".to_string(),
        ]
    );
    assert!(report.output.is_empty());
    assert_eq!(report.exit_code, 65);
    assert!(report.reporter.is_had_error());
    assert!(report.reporter.is_had_runtime_error());
}

#[test]
fn runtime_error_is_reported_at_the_line_of_its_token() {
    let report = run("var a = 1;\n\n\nprint a +\n  nil;", &Ieee);
    assert_eq!(entries(&report.reporter), vec!["Operands must be strings.\n[line 4]".to_string()]);
    let report = run("print 1;\nprint 2 * \"x\";", &Ieee);
    assert_eq!(entries(&report.reporter), vec!["Operands must be numbers.\n[line 2]".to_string()]);
    assert_eq!(report.output, vec!["1".to_string()]);
}

#[test]
fn nested_blocks_see_and_change_outer_variables() {
    let report = run(
        "var a = \"global\"; { var b = a + \"!\"; { a = b; var a = 1; print a; } print a; } print a;",
        &Ieee,
    );
    assert_eq!(
        report.output,
        vec!["1".to_string(), "global!".to_string(), "global!".to_string()]
    );
    assert_eq!(report.exit_code, 0);
}

#[test]
fn assignment_behind_a_local_declaration_stays_in_the_block() {
    let report = run("var x = 1; { var x = 2; x = 3; print x; } print x;", &Ieee);
    assert_eq!(report.output, vec!["3".to_string(), "1".to_string()]);
    assert_eq!(report.exit_code, 0);
}

#[test]
fn assignment_before_a_local_declaration_reaches_the_outer_variable() {
    let report = run("var x = 1; { x = 3; var x = 2; print x; } print x;", &Ieee);
    assert_eq!(report.output, vec!["2".to_string(), "3".to_string()]);
    let report = run("var x = 1; { var x = (x = 4); print x; } print x;", &Ieee);
    assert_eq!(report.output, vec!["4".to_string(), "4".to_string()]);
}

#[test]
fn invalid_assignment_target_evaluates_the_right_side() {
    let report = run("print 1 = 2;", &Ieee);
    assert_eq!(
        entries(&report.reporter),
        vec!["[line 1] Error at '=': Invalid assignment target.".to_string()]
    );
    assert_eq!(report.output, vec!["2".to_string()]);
    assert_eq!(report.exit_code, 65);
}
