use rlox::asp::print_asp;
use rlox::ast::{Expr, Stmt, Value};
use rlox::environment::{EnvError, Environment};
use rlox::helpers::gen_indent;
use rlox::interpreter::{
    expect_number_operand, expect_number_operands, expect_string_operands, is_equal, is_truthy,
    Interpreter, RuntimeError,
};
use rlox::number::{ArithOp, Number, Numerics};
use rlox::reporter::{
    error, report, report_runtime, ConsoleReporter, Diagnostic, ErrorReporter, LogReporter,
};
use rlox::text::{chars_of, is_ascii_digit, push_decimal, push_text, spells, string_of};
use rlox::tokens::{Token, TokenType};

struct Ieee;

impl Numerics for Ieee {
    fn parse(&self, literal: &str) -> Number {
        Number::from_bits(literal.parse::<f64>().unwrap().to_bits())
    }

    fn arithmetic(&self, op: ArithOp, left: Number, right: Number) -> Number {
        let a = f64::from_bits(left.to_bits());
        let b = f64::from_bits(right.to_bits());
        let r = match op {
            ArithOp::Add => a + b,
            ArithOp::Subtract => a - b,
            ArithOp::Multiply => a * b,
            ArithOp::Divide => a / b,
        };
        Number::from_bits(r.to_bits())
    }

    fn render(&self, number: Number) -> String {
        f64::from_bits(number.to_bits()).to_string()
    }
}

fn num(value: f64) -> Number {
    Number::from_bits(value.to_bits())
}

fn number(value: f64) -> Value {
    Value::Number(num(value))
}

fn text(value: &str) -> Value {
    Value::String(value.to_string())
}

fn token(token_type: TokenType, lexeme: &str) -> Token {
    Token::new(token_type, lexeme.to_string(), 1)
}

fn name(lexeme: &str) -> Token {
    token(TokenType::Identifier, lexeme)
}

fn samples() -> Vec<f64> {
    vec![
        0.0,
        -0.0,
        1.0,
        -1.0,
        0.5,
        -0.5,
        1.5,
        2.0,
        1e300,
        -1e300,
        5e-324,
        -5e-324,
        2.2250738585072014e-308,
        f64::MAX,
        f64::MIN,
        f64::INFINITY,
        f64::NEG_INFINITY,
        f64::NAN,
        -f64::NAN,
        f64::from_bits(0x7FF0_0000_0000_0001),
        f64::from_bits(0xFFFF_FFFF_FFFF_FFFF),
    ]
}

#[test]
fn number_comparisons_agree_with_ieee() {
    for a in samples() {
        for b in samples() {
            let (x, y) = (num(a), num(b));
            assert_eq!(x.equals(&y), a == b, "{a} == {b}");
            assert_eq!(x.less(&y), a < b, "{a} < {b}");
            assert_eq!(x.less_equal(&y), a <= b, "{a} <= {b}");
            assert_eq!(x.greater(&y), a > b, "{a} > {b}");
            assert_eq!(x.greater_equal(&y), a >= b, "{a} >= {b}");
        }
    }
}

#[test]
fn number_negation_agrees_with_ieee() {
    for a in samples() {
        assert_eq!(num(a).negate().to_bits(), (-a).to_bits());
        assert_eq!(num(a).is_nan(), a.is_nan());
        assert_eq!(num(a).negate().negate(), num(a));
    }
}

#[test]
fn number_keeps_its_bits() {
    assert_eq!(Number::from_bits(0x3FF0_0000_0000_0000).to_bits(), 0x3FF0_0000_0000_0000);
    assert_eq!(num(1.0).to_bits(), 0x3FF0_0000_0000_0000);
    assert_eq!(num(0.0), Number::from_bits(0));
    assert_ne!(num(0.0), num(-0.0));
    assert!(num(0.0).equals(&num(-0.0)));
}

#[test]
fn equality_is_false_across_kinds() {
    assert!(!is_equal(&Value::Bool(true), &number(1.0)));
    assert!(is_equal(&Value::Nil, &Value::Nil));
    assert!(!is_equal(&Value::Nil, &Value::Bool(false)));
    assert!(!is_equal(&text("1"), &number(1.0)));
    assert!(!is_equal(&number(0.0), &Value::Nil));
    assert!(!is_equal(&text(""), &Value::Nil));
    assert!(!is_equal(&Value::Bool(false), &text("false")));
}

#[test]
fn equality_within_a_kind_compares_payloads() {
    assert!(is_equal(&number(1.5), &number(1.5)));
    assert!(!is_equal(&number(1.5), &number(2.5)));
    assert!(is_equal(&number(0.0), &number(-0.0)));
    assert!(!is_equal(&number(f64::NAN), &number(f64::NAN)));
    assert!(is_equal(&text("ab"), &text("ab")));
    assert!(!is_equal(&text("ab"), &text("abc")));
    assert!(is_equal(&Value::Bool(true), &Value::Bool(true)));
    assert!(!is_equal(&Value::Bool(true), &Value::Bool(false)));
}

#[test]
fn only_nil_and_false_are_falsy() {
    assert!(!is_truthy(&Value::Nil));
    assert!(!is_truthy(&Value::Bool(false)));
    assert!(is_truthy(&Value::Bool(true)));
    assert!(is_truthy(&number(0.0)));
    assert!(is_truthy(&text("")));
}

#[test]
fn operand_checks_name_the_operator() {
    let minus = token(TokenType::Minus, "-");
    assert_eq!(expect_number_operand(&minus, number(2.0)), Ok(num(2.0)));
    assert_eq!(
        expect_number_operand(&minus, text("2")),
        Err(RuntimeError::OperandMustBeNumber(minus.clone()))
    );
    assert_eq!(expect_number_operands(&minus, number(1.0), number(2.0)), Ok((num(1.0), num(2.0))));
    assert_eq!(
        expect_number_operands(&minus, number(1.0), Value::Nil),
        Err(RuntimeError::OperandsMustBeNumbers(minus.clone()))
    );
    assert_eq!(
        expect_number_operands(&minus, Value::Bool(true), number(1.0)),
        Err(RuntimeError::OperandsMustBeNumbers(minus.clone()))
    );
    let plus = token(TokenType::Plus, "+");
    assert_eq!(
        expect_string_operands(&plus, text("a"), text("b")),
        Ok(("a".to_string(), "b".to_string()))
    );
    assert_eq!(
        expect_string_operands(&plus, number(1.0), text("b")),
        Err(RuntimeError::OperandsMustBeStrings(plus.clone()))
    );
    assert_eq!(
        expect_string_operands(&plus, text("a"), Value::Nil),
        Err(RuntimeError::OperandsMustBeStrings(plus.clone()))
    );
}

#[test]
fn value_accessors() {
    assert_eq!(number(1.0).as_number(), Some(num(1.0)));
    assert_eq!(text("a").as_number(), None);
    assert_eq!(text("a").as_string(), Some("a".to_string()));
    assert_eq!(Value::Nil.as_string(), None);
    assert_eq!(Value::Bool(true).as_bool(), Some(true));
    assert_eq!(number(1.0).as_bool(), None);
    assert!(number(1.0).is_number() && !number(1.0).is_string());
    assert!(text("").is_string() && !text("").is_nil());
    assert!(Value::Bool(false).is_bool() && !Value::Bool(false).is_number());
    assert!(Value::Nil.is_nil() && !Value::Nil.is_bool());
    assert_eq!(text("a").clone(), text("a"));
}

#[test]
fn values_are_stringified() {
    assert_eq!(number(7.0).stringify(&Ieee), "7");
    assert_eq!(number(-2.5).stringify(&Ieee), "-2.5");
    assert_eq!(text("as is").stringify(&Ieee), "as is");
    assert_eq!(Value::Bool(true).stringify(&Ieee), "true");
    assert_eq!(Value::Bool(false).stringify(&Ieee), "false");
    assert_eq!(Value::Nil.stringify(&Ieee), "nil");
}

#[test]
fn expressions_are_stringified_in_prefix_form() {
    let expression = Expr::Binary {
        left: Box::new(Expr::Unary {
            operator: token(TokenType::Minus, "-"),
            right: Box::new(Expr::Literal(number(123.0))),
        }),
        operator: token(TokenType::Star, "*"),
        right: Box::new(Expr::Grouping(Box::new(Expr::Literal(number(45.67))))),
    };
    assert_eq!(expression.stringify(&Ieee), "(* (- 123) (group 45.67))");
    assert_eq!(print_asp(&expression, &Ieee), "(* (- 123) (group 45.67))");
    let assign = Expr::Assign(name("x"), Box::new(Expr::Literal(text("s"))));
    assert_eq!(assign.stringify(&Ieee), "(assign x \"s\")");
    assert_eq!(Expr::Variable(name("long_name")).stringify(&Ieee), "long_name");
    assert_eq!(Expr::Literal(Value::Nil).stringify(&Ieee), "nil");
    assert_eq!(Expr::Literal(Value::Bool(false)).stringify(&Ieee), "false");
}

#[test]
fn environment_defines_and_gets() {
    let mut env = Environment::new();
    assert_eq!(env.get(&name("a")), None);
    env.define("a".to_string(), number(1.0));
    env.define("b".to_string(), text("x"));
    assert_eq!(env.get(&name("a")), Some(number(1.0)));
    assert_eq!(env.get(&name("b")), Some(text("x")));
    env.define("a".to_string(), Value::Nil);
    assert_eq!(env.get(&name("a")), Some(Value::Nil));
    assert_eq!(env.get(&name("b")), Some(text("x")));
}

#[test]
fn environment_assign_needs_a_binding() {
    let mut env = Environment::new();
    assert_eq!(env.assign("a".to_string(), number(1.0)), Err(EnvError::AssignUndefinedVariable));
    assert_eq!(env.get(&name("a")), None);
    env.define("a".to_string(), Value::Nil);
    assert_eq!(env.assign("a".to_string(), number(1.0)), Ok(()));
    assert_eq!(env.get(&name("a")), Some(number(1.0)));
}

#[test]
fn inner_scope_falls_through_and_shadows() {
    let mut outer = Environment::new();
    outer.define("x".to_string(), text("outer"));
    outer.define("y".to_string(), number(1.0));
    let mut inner = Environment::with_enclosing(outer);
    assert_eq!(inner.get(&name("x")), Some(text("outer")));
    inner.define("x".to_string(), text("inner"));
    assert_eq!(inner.get(&name("x")), Some(text("inner")));
    assert_eq!(inner.assign("x".to_string(), text("changed")), Ok(()));
    assert_eq!(inner.assign("y".to_string(), number(2.0)), Ok(()));
    assert_eq!(inner.assign("z".to_string(), number(3.0)), Err(EnvError::AssignUndefinedVariable));
    assert_eq!(inner.get(&name("x")), Some(text("changed")));
    let outer = inner.into_enclosing().unwrap();
    assert_eq!(outer.get(&name("x")), Some(text("outer")));
    assert_eq!(outer.get(&name("y")), Some(number(2.0)));
    assert!(outer.into_enclosing().is_none());
}

#[test]
fn scopes_are_entered_and_left() {
    let mut env = Environment::new();
    env.define("x".to_string(), number(1.0));
    env.enter_scope();
    env.define("x".to_string(), number(2.0));
    env.enter_scope();
    assert_eq!(env.get(&name("x")), Some(number(2.0)));
    env.exit_scope();
    env.exit_scope();
    assert_eq!(env.get(&name("x")), Some(number(1.0)));
    env.exit_scope();
    assert_eq!(env.get(&name("x")), Some(number(1.0)));
}

#[test]
fn interpreter_evaluates_a_tree() {
    let mut interpreter: Interpreter<LogReporter> = Interpreter::new();
    let sum = Expr::Binary {
        left: Box::new(Expr::Literal(number(1.0))),
        operator: token(TokenType::Plus, "+"),
        right: Box::new(Expr::Binary {
            left: Box::new(Expr::Literal(number(2.0))),
            operator: token(TokenType::Star, "*"),
            right: Box::new(Expr::Literal(number(3.0))),
        }),
    };
    assert_eq!(interpreter.evaluate_expr(&sum, &Ieee), Ok(number(7.0)));
    let undefined = Expr::Variable(name("nope"));
    assert_eq!(
        interpreter.evaluate_expr(&undefined, &Ieee),
        Err(RuntimeError::UndefinedVariable(name("nope")))
    );
    let assign = Expr::Assign(name("nope"), Box::new(Expr::Literal(Value::Nil)));
    assert_eq!(
        interpreter.evaluate_expr(&assign, &Ieee),
        Err(RuntimeError::AssignUndefinedVariable(name("nope")))
    );
}

#[test]
fn operators_outside_the_grammar_give_nil() {
    let mut interpreter: Interpreter<LogReporter> = Interpreter::new();
    let odd = Expr::Binary {
        left: Box::new(Expr::Literal(number(1.0))),
        operator: token(TokenType::Comma, ","),
        right: Box::new(Expr::Literal(number(2.0))),
    };
    assert_eq!(interpreter.evaluate_expr(&odd, &Ieee), Ok(Value::Nil));
    let odd = Expr::Unary {
        operator: token(TokenType::Plus, "+"),
        right: Box::new(Expr::Literal(number(2.0))),
    };
    assert_eq!(interpreter.evaluate_expr(&odd, &Ieee), Ok(Value::Nil));
}

#[test]
fn left_operand_error_comes_first() {
    let mut interpreter: Interpreter<LogReporter> = Interpreter::new();
    let both = Expr::Binary {
        left: Box::new(Expr::Variable(name("a"))),
        operator: token(TokenType::Plus, "+"),
        right: Box::new(Expr::Variable(name("b"))),
    };
    assert_eq!(
        interpreter.evaluate_expr(&both, &Ieee),
        Err(RuntimeError::UndefinedVariable(name("a")))
    );
}

#[test]
fn interpreter_executes_statements_and_collects_output() {
    let mut interpreter = Interpreter::new().attach_reporter(LogReporter::new());
    let program = vec![
        Stmt::Var(name("a"), Some(Expr::Literal(number(2.0)))),
        Stmt::Print(Expr::Variable(name("a"))),
        Stmt::Block(Box::new(vec![
            Stmt::Var(name("a"), Some(Expr::Literal(text("in")))),
            Stmt::Print(Expr::Variable(name("a"))),
        ])),
        Stmt::Print(Expr::Variable(name("a"))),
        Stmt::Print(Expr::Variable(name("missing"))),
        Stmt::Print(Expr::Literal(text("never"))),
    ];
    interpreter.interpret(&program, &Ieee);
    assert_eq!(interpreter.output(), &vec!["2".to_string(), "in".to_string(), "2".to_string()]);
    let reporter = interpreter.detach_reporter().unwrap();
    assert_eq!(
        reporter.entries(),
        &vec![Diagnostic::Runtime { line: 1, message: "Undefined variable 'missing'.".to_string() }]
    );
    assert!(reporter.is_had_runtime_error());
    assert!(!reporter.is_had_error());
    assert_eq!(interpreter.take_output().len(), 3);
    assert!(interpreter.output().is_empty());
}

#[test]
fn execute_returns_the_value_of_an_expression_statement() {
    let mut interpreter: Interpreter<LogReporter> = Interpreter::new();
    assert_eq!(
        interpreter.execute(&Stmt::Expression(Expr::Literal(number(4.0))), &Ieee),
        Ok(number(4.0))
    );
    assert_eq!(interpreter.execute(&Stmt::Var(name("v"), None), &Ieee), Ok(Value::Nil));
    assert_eq!(
        interpreter.execute(&Stmt::Print(Expr::Variable(name("v"))), &Ieee),
        Ok(Value::Nil)
    );
    assert_eq!(interpreter.output(), &vec!["nil".to_string()]);
}

#[test]
fn diagnostics_are_formatted() {
    assert_eq!(report(3, " at end", "Expect ';' after value."), "[line 3] Error at end: Expect ';' after value.");
    assert_eq!(report(120, " at 'x'", "m"), "[line 120] Error at 'x': m");
    assert_eq!(error(1, "unexpected char"), "[line 1] Error: unexpected char");
    assert_eq!(error(0, ""), "[line 0] Error: ");
    assert_eq!(report_runtime(45, "Operands must be numbers."), "Operands must be numbers.\n[line 45]");
    assert_eq!(
        report(usize::MAX, "", "big"),
        format!("[line {}] Error: big", usize::MAX)
    );
}

#[test]
fn log_reporter_keeps_entries_and_flags() {
    let mut reporter = LogReporter::new();
    assert!(!reporter.is_had_error());
    assert!(!reporter.is_had_runtime_error());
    assert!(reporter.entries().is_empty());
    reporter.report(1, " at end", "first");
    assert!(reporter.is_had_error());
    assert!(!reporter.is_had_runtime_error());
    reporter.report_runtime(2, "second");
    assert!(reporter.is_had_error());
    assert!(reporter.is_had_runtime_error());
    assert_eq!(
        reporter.entries(),
        &vec![
            Diagnostic::Static {
                line: 1,
                location: " at end".to_string(),
                message: "first".to_string()
            },
            Diagnostic::Runtime { line: 2, message: "second".to_string() },
        ]
    );
}

#[test]
fn console_reporter_keeps_lines_and_flags() {
    let mut reporter = ConsoleReporter::new();
    assert!(!reporter.is_had_error());
    assert!(!reporter.is_had_runtime_error());
    reporter.report_runtime(12, "Operand must be a number.");
    assert!(!reporter.is_had_error());
    assert!(reporter.is_had_runtime_error());
    reporter.report(3, " at ';'", "Expect expression.");
    assert!(reporter.is_had_error());
    assert_eq!(
        reporter.lines(),
        &vec![
            "Operand must be a number.\n[line 12]".to_string(),
            "[line 3] Error at ';': Expect expression.".to_string(),
        ]
    );
}

#[test]
fn text_helpers() {
    let chars = chars_of("héllo wörld");
    assert_eq!(chars.len(), 11);
    assert_eq!(chars[1], 'é');
    assert_eq!(string_of(&chars, 0, 5), "héllo");
    assert_eq!(string_of(&chars, 6, 11), "wörld");
    assert_eq!(string_of(&chars, 3, 3), "");
    assert!(spells(&chars, 0, 5, "héllo"));
    assert!(!spells(&chars, 0, 5, "hello"));
    assert!(!spells(&chars, 0, 4, "héllo"));
    assert!(!spells(&chars, 0, 5, "héll"));
    assert!(spells(&chars, 2, 2, ""));
    assert!(is_ascii_digit('0') && is_ascii_digit('9') && !is_ascii_digit('a'));
    assert!(!is_ascii_digit('٣'));
    let mut out = String::from("n=");
    push_decimal(&mut out, 0);
    push_text(&mut out, ",");
    push_decimal(&mut out, 9);
    push_text(&mut out, ",");
    push_decimal(&mut out, 10);
    push_text(&mut out, ",");
    push_decimal(&mut out, 9075);
    assert_eq!(out, "n=0,9,10,9075");
}

#[test]
fn indentation_is_made_of_tabs() {
    assert_eq!(gen_indent(0), "");
    assert_eq!(gen_indent(1), "\t");
    assert_eq!(gen_indent(3), "\t\t\t");
}

#[test]
fn defaults_are_empty() {
    let reporter = LogReporter::default();
    assert!(reporter.entries().is_empty());
    assert!(!reporter.is_had_error());
    let console = ConsoleReporter::default();
    assert!(console.lines().is_empty());
    assert!(!console.is_had_runtime_error());
    let env = Environment::default();
    assert_eq!(env.get(&name("a")), None);
    let interpreter: Interpreter<LogReporter> = Interpreter::default();
    assert!(interpreter.output().is_empty());
}

#[test]
fn interpreter_without_reporter_still_halts() {
    let mut interpreter: Interpreter<LogReporter> = Interpreter::new();
    let program = vec![
        Stmt::Print(Expr::Literal(number(1.0))),
        Stmt::Expression(Expr::Variable(name("missing"))),
        Stmt::Print(Expr::Literal(number(2.0))),
    ];
    interpreter.interpret(&program, &Ieee);
    assert_eq!(interpreter.output(), &vec!["1".to_string()]);
    assert!(interpreter.detach_reporter().is_none());
}

#[test]
fn interpreter_keeps_globals_between_calls() {
    let mut interpreter: Interpreter<LogReporter> = Interpreter::new();
    interpreter.interpret(&[Stmt::Var(name("g"), Some(Expr::Literal(text("kept"))))], &Ieee);
    interpreter.interpret(&[Stmt::Print(Expr::Variable(name("g")))], &Ieee);
    assert_eq!(interpreter.output(), &vec!["kept".to_string()]);
}
