use rlox::ast::{Expr, Stmt, Value};
use rlox::helpers::print_statements;
use rlox::number::{ArithOp, Number, Numerics};
use rlox::parser::{ParseError, Parser};
use rlox::reporter::{Diagnostic, ErrorReporter, LogReporter};
use rlox::scanner::Scanner;
use rlox::tokens::{Token, TokenType};

struct Ieee;

impl Numerics for Ieee {
    fn parse(&self, literal: &str) -> Number {
        Number::from_bits(literal.parse::<f64>().unwrap().to_bits())
    }

    fn arithmetic(&self, _op: ArithOp, left: Number, _right: Number) -> Number {
        left
    }

    fn render(&self, number: Number) -> String {
        f64::from_bits(number.to_bits()).to_string()
    }
}

fn parse(source: &str) -> (Vec<Stmt>, Vec<String>) {
    let mut scanner: Scanner<LogReporter> = Scanner::new(source);
    let tokens = scanner.scan_tokens(&Ieee);
    let mut parser = Parser::new(tokens).attach_reporter(LogReporter::new());
    assert!(parser.is_well_formed());
    let statements = parser.parse();
    let reporter = parser.detach_reporter().unwrap();
    let faults = reporter
        .entries()
        .iter()
        .map(|d| match d {
            Diagnostic::Static { line, location, message } => {
                format!("{}|{}|{}", line, location, message)
            }
            Diagnostic::Runtime { line, message } => format!("{}|runtime|{}", line, message),
        })
        .collect();
    (statements, faults)
}

fn listing(statements: &[Stmt]) -> Vec<String> {
    statements
        .iter()
        .map(|s| match s {
            Stmt::Expression(e) => format!("expr {}", e.stringify(&Ieee)),
            Stmt::Print(e) => format!("print {}", e.stringify(&Ieee)),
            Stmt::Var(name, Some(e)) => format!("var {} = {}", name.lexeme, e.stringify(&Ieee)),
            Stmt::Var(name, None) => format!("var {}", name.lexeme),
            Stmt::Block(inner) => format!("{{ {} }}", listing(inner).join("; ")),
        })
        .collect()
}

fn parsed(source: &str) -> Vec<String> {
    let (statements, faults) = parse(source);
    assert_eq!(faults, Vec::<String>::new());
    listing(&statements)
}

#[test]
fn product_is_right_operand_of_sum() {
    assert_eq!(parsed("1+2*3;"), vec!["expr (+ 1 (* 2 3))"]);
    assert_eq!(parsed("1*2+3;"), vec!["expr (+ (* 1 2) 3)"]);
}

#[test]
fn operators_of_one_level_fold_to_the_left() {
    assert_eq!(parsed("1-2-3;"), vec!["expr (- (- 1 2) 3)"]);
    assert_eq!(parsed("8/4*2;"), vec!["expr (* (/ 8 4) 2)"]);
    assert_eq!(parsed("1<2<=3>4>=5;"), vec!["expr (>= (> (<= (< 1 2) 3) 4) 5)"]);
    assert_eq!(parsed("1==2!=3;"), vec!["expr (!= (== 1 2) 3)"]);
}

#[test]
fn all_levels_nest_by_precedence() {
    assert_eq!(
        parsed("a = 1 == 2 < 3 + 4 * -5;"),
        vec!["expr (assign a (== 1 (< 2 (+ 3 (* 4 (- 5))))))"]
    );
    assert_eq!(parsed("!a == b;"), vec!["expr (== (! a) b)"]);
    assert_eq!(parsed("- - 1;"), vec!["expr (- (- 1))"]);
}

#[test]
fn grouping_is_kept_in_the_tree() {
    assert_eq!(parsed("(1+2)*3;"), vec!["expr (* (group (+ 1 2)) 3)"]);
    assert_eq!(parsed("((1));"), vec!["expr (group (group 1))"]);
}

#[test]
fn literals_are_printed_as_written() {
    assert_eq!(
        parsed("true; false; nil; 1.5; \"text\"; name;"),
        vec!["expr true", "expr false", "expr nil", "expr 1.5", "expr \"text\"", "expr name"]
    );
}

#[test]
fn assignment_associates_to_the_right() {
    assert_eq!(parsed("a = b = c;"), vec!["expr (assign a (assign b c))"]);
}

#[test]
fn statements_are_parsed_in_order() {
    assert_eq!(
        parsed("var a = 1; var b; print a + b; { var c = a; { print c; } } a;"),
        vec![
            "var a = 1",
            "var b",
            "print (+ a b)",
            "{ var c = a; { print c } }",
            "expr a"
        ]
    );
    assert_eq!(parsed("{}"), vec!["{  }"]);
}

#[test]
fn literal_node_holds_the_token_payload() {
    let (statements, _) = parse("2.5; \"s\";");
    assert_eq!(
        statements,
        vec![
            Stmt::Expression(Expr::Literal(Value::Number(Number::from_bits(2.5f64.to_bits())))),
            Stmt::Expression(Expr::Literal(Value::String("s".to_string()))),
        ]
    );
}

#[test]
fn variable_node_holds_the_name_token() {
    let (statements, _) = parse("\nx;");
    assert_eq!(
        statements,
        vec![Stmt::Expression(Expr::Variable(Token::new(
            TokenType::Identifier,
            "x".to_string(),
            2
        )))]
    );
}

#[test]
fn missing_variable_name_is_reported_and_parsing_goes_on() {
    let (statements, faults) = parse("var ;  print \"ok\";");
    assert_eq!(faults, vec!["1| at ';'|Expect variable name."]);
    assert_eq!(listing(&statements), vec!["print \"ok\""]);
}

#[test]
fn missing_expression_is_reported_at_the_token() {
    let (statements, faults) = parse("print ;\nprint 1;");
    assert_eq!(faults, vec!["1| at ';'|Expect expression."]);
    assert_eq!(listing(&statements), vec!["print 1"]);
}

#[test]
fn missing_semicolons_are_reported_with_their_messages() {
    assert_eq!(parse("print 1").1, vec!["1| at end|Expect ';' after value."]);
    assert_eq!(parse("1").1, vec!["1| at end|Expect ';' after expression."]);
    assert_eq!(parse("var a = 1").1, vec!["1| at end|Expect ';' after variable declaration."]);
    assert_eq!(parse("var a").1, vec!["1| at end|Expect ';' after variable declaration."]);
    assert_eq!(parse("(1;").1, vec!["1| at ';'|Expect ')' after expression"]);
    assert_eq!(parse("{ print 1;").1, vec!["1| at end|Expect '}' after block."]);
}

#[test]
fn recovery_skips_to_behind_the_next_semicolon() {
    let (statements, faults) = parse("1 2 3; print 4;");
    assert_eq!(faults, vec!["1| at '2'|Expect ';' after expression."]);
    assert_eq!(listing(&statements), vec!["print 4"]);
}

#[test]
fn recovery_stops_before_a_statement_keyword() {
    let (statements, faults) = parse("1 + print 2; var a = (; var b;");
    assert_eq!(faults, vec!["1| at 'print'|Expect expression.", "1| at ';'|Expect expression."]);
    assert_eq!(listing(&statements), vec!["var b"]);
}

#[test]
fn error_inside_block_drops_the_block() {
    let (statements, faults) = parse("{ print 1; print ; print 2; } print 3;");
    assert_eq!(faults, vec!["1| at ';'|Expect expression.", "1| at '}'|Expect expression."]);
    assert_eq!(listing(&statements), vec!["print 2", "print 3"]);
    let (_, faults) = parse("{ print ; }");
    assert_eq!(faults, vec!["1| at ';'|Expect expression.", "1| at '}'|Expect expression."]);
}

#[test]
fn invalid_assignment_target_gives_the_right_side() {
    let (statements, faults) = parse("1 + a = 2; (a) = 3;");
    assert_eq!(
        faults,
        vec!["1| at '='|Invalid assignment target.", "1| at '='|Invalid assignment target."]
    );
    assert_eq!(listing(&statements), vec!["expr 2", "expr 3"]);
}

#[test]
fn invalid_assignment_target_with_literal_on_the_left() {
    let (statements, faults) = parse("1=2;");
    assert_eq!(faults, vec!["1| at '='|Invalid assignment target."]);
    assert_eq!(
        statements,
        vec![Stmt::Expression(Expr::Literal(Value::Number(Number::from_bits(2f64.to_bits()))))]
    );
}

#[test]
fn invalid_assignment_target_before_a_valid_assignment() {
    let (statements, faults) = parse("1 = a = 2; a = 1 = 2;");
    assert_eq!(
        faults,
        vec!["1| at '='|Invalid assignment target.", "1| at '='|Invalid assignment target."]
    );
    assert_eq!(listing(&statements), vec!["expr (assign a 2)", "expr (assign a 2)"]);
}

#[test]
fn errors_on_later_lines_carry_their_line() {
    let (_, faults) = parse("print 1;\n\nprint (2;\nvar 3;");
    assert_eq!(faults, vec!["3| at ';'|Expect ')' after expression", "4| at '3'|Expect variable name."]);
}

#[test]
fn parser_without_reporter_still_recovers() {
    let mut scanner: Scanner<LogReporter> = Scanner::new("var ; print 1;");
    let tokens = scanner.scan_tokens(&Ieee);
    let mut parser: Parser<LogReporter> = Parser::new(tokens);
    let statements = parser.parse();
    assert_eq!(listing(&statements), vec!["print 1"]);
    assert!(parser.detach_reporter().is_none());
}

#[test]
fn only_end_of_file_parses_to_nothing() {
    let (statements, faults) = parse("");
    assert!(statements.is_empty());
    assert!(faults.is_empty());
}

#[test]
fn tokens_without_end_of_file_are_not_well_formed() {
    let parser: Parser<LogReporter> = Parser::new(vec![]);
    assert!(!parser.is_well_formed());
    let parser: Parser<LogReporter> =
        Parser::new(vec![Token::new(TokenType::Plus, "+".to_string(), 1)]);
    assert!(!parser.is_well_formed());
    let parser: Parser<LogReporter> =
        Parser::new(vec![Token::new(TokenType::EndOfFile, "".to_string(), 1)]);
    assert!(parser.is_well_formed());
}

#[test]
fn parse_error_variants_are_distinct() {
    assert_ne!(ParseError::ExpectExpression, ParseError::ConsumeUntilTokenNotFound);
}

#[test]
fn reporter_keeps_earlier_reports() {
    let mut reporter = LogReporter::new();
    reporter.report(7, " before", "kept");
    let mut scanner: Scanner<LogReporter> = Scanner::new("print ;");
    let tokens = scanner.scan_tokens(&Ieee);
    let mut parser = Parser::new(tokens).attach_reporter(reporter);
    parser.parse();
    let reporter = parser.detach_reporter().unwrap();
    assert_eq!(reporter.entries().len(), 2);
    assert_eq!(
        reporter.entries()[0],
        Diagnostic::Static { line: 7, location: " before".to_string(), message: "kept".to_string() }
    );
}

#[test]
fn statements_are_listed_with_indentation() {
    let (statements, _) = parse("var a = 1; var b; print a + b; { a = 2; { print \"s\"; } } a;");
    assert_eq!(
        print_statements(&statements, 0, &Ieee),
        vec![
            "Statements:",
            "Var: a = 1",
            "Var: b = nil",
            "Print: (+ a b)",
            "Statements:",
            "\tExpression: (assign a 2)",
            "Statements:",
            "\t\tPrint: \"s\"",
            "Expression: a",
        ]
    );
    assert_eq!(print_statements(&[], 3, &Ieee), vec!["Statements:"]);
    let (statements, _) = parse("print 1;");
    assert_eq!(print_statements(&statements, 2, &Ieee), vec!["Statements:", "\t\tPrint: 1"]);
}
