use rlox::number::{ArithOp, Number, Numerics};
use rlox::reporter::{Diagnostic, LogReporter};
use rlox::scanner::Scanner;
use rlox::tokens::{Token, TokenKind, TokenType};

struct Ieee;

impl Numerics for Ieee {
    fn parse(&self, literal: &str) -> Number {
        Number::from_bits(literal.parse::<f64>().unwrap().to_bits())
    }

    fn arithmetic(&self, _op: ArithOp, left: Number, _right: Number) -> Number {
        left
    }

    fn render(&self, number: Number) -> String {
        f64::from_bits(number.to_bits()).to_string()
    }
}

fn number(value: f64) -> TokenType {
    TokenType::Number(Number::from_bits(value.to_bits()))
}

fn scan(source: &str) -> (Vec<Token>, Vec<Diagnostic>) {
    let mut scanner = Scanner::new(source).attach_reporter(LogReporter::new());
    let tokens = scanner.scan_tokens(&Ieee);
    let reporter = scanner.detach_reporter().unwrap();
    let mut faults = Vec::new();
    for entry in reporter.entries() {
        faults.push(match entry {
            Diagnostic::Static { line, location, message } => Diagnostic::Static {
                line: *line,
                location: location.clone(),
                message: message.clone(),
            },
            Diagnostic::Runtime { line, message } => {
                Diagnostic::Runtime { line: *line, message: message.clone() }
            }
        });
    }
    (tokens, faults)
}

fn kinds(tokens: &[Token]) -> Vec<TokenKind> {
    tokens.iter().map(|t| t.token_type.kind()).collect()
}

fn lexical(line: usize, message: &str) -> Diagnostic {
    Diagnostic::Static { line, location: String::new(), message: message.to_string() }
}

#[test]
fn scans_arithmetic_expression() {
    let (tokens, faults) = scan("1+2*3");
    assert!(faults.is_empty());
    assert_eq!(
        tokens,
        vec![
            Token::new(number(1.0), "1".to_string(), 1),
            Token::new(TokenType::Plus, "+".to_string(), 1),
            Token::new(number(2.0), "2".to_string(), 1),
            Token::new(TokenType::Star, "*".to_string(), 1),
            Token::new(number(3.0), "3".to_string(), 1),
            Token::new(TokenType::EndOfFile, "".to_string(), 1),
        ]
    );
}

#[test]
fn empty_source_gives_only_end_of_file() {
    let (tokens, faults) = scan("");
    assert!(faults.is_empty());
    assert_eq!(tokens, vec![Token::new(TokenType::EndOfFile, "".to_string(), 1)]);
}

#[test]
fn scans_every_punctuation_token() {
    let (tokens, faults) = scan("(){},.-+;*/");
    assert!(faults.is_empty());
    assert_eq!(
        kinds(&tokens),
        vec![
            TokenKind::LeftParen,
            TokenKind::RightParen,
            TokenKind::LeftBrace,
            TokenKind::RightBrace,
            TokenKind::Comma,
            TokenKind::Dot,
            TokenKind::Minus,
            TokenKind::Plus,
            TokenKind::Semicolon,
            TokenKind::Star,
            TokenKind::Slash,
            TokenKind::EndOfFile,
        ]
    );
}

#[test]
fn two_character_operators_are_matched_greedily() {
    let (tokens, faults) = scan("! != = == < <= > >= !== =!");
    assert!(faults.is_empty());
    assert_eq!(
        kinds(&tokens),
        vec![
            TokenKind::Bang,
            TokenKind::BangEqual,
            TokenKind::Equal,
            TokenKind::EqualEqual,
            TokenKind::Less,
            TokenKind::LessEqual,
            TokenKind::Greater,
            TokenKind::GreaterEqual,
            TokenKind::BangEqual,
            TokenKind::Equal,
            TokenKind::Equal,
            TokenKind::Bang,
            TokenKind::EndOfFile,
        ]
    );
    assert_eq!(tokens[1].lexeme, "!=");
    assert_eq!(tokens[0].lexeme, "!");
}

#[test]
fn scans_every_keyword() {
    let source = "and class else false for fun if nil or print return super this true var while";
    let (tokens, faults) = scan(source);
    assert!(faults.is_empty());
    assert_eq!(
        kinds(&tokens),
        vec![
            TokenKind::And,
            TokenKind::Class,
            TokenKind::Else,
            TokenKind::False,
            TokenKind::For,
            TokenKind::Fun,
            TokenKind::If,
            TokenKind::Nil,
            TokenKind::Or,
            TokenKind::Print,
            TokenKind::Return,
            TokenKind::Super,
            TokenKind::This,
            TokenKind::True,
            TokenKind::Var,
            TokenKind::While,
            TokenKind::EndOfFile,
        ]
    );
    assert_eq!(tokens[9], Token::new(TokenType::Print, "print".to_string(), 1));
}

#[test]
fn words_that_only_start_like_keywords_are_identifiers() {
    let (tokens, faults) = scan("printer va variable nils x1 a2b");
    assert!(faults.is_empty());
    assert_eq!(
        tokens,
        vec![
            Token::new(TokenType::Identifier, "printer".to_string(), 1),
            Token::new(TokenType::Identifier, "va".to_string(), 1),
            Token::new(TokenType::Identifier, "variable".to_string(), 1),
            Token::new(TokenType::Identifier, "nils".to_string(), 1),
            Token::new(TokenType::Identifier, "x1".to_string(), 1),
            Token::new(TokenType::Identifier, "a2b".to_string(), 1),
            Token::new(TokenType::EndOfFile, "".to_string(), 1),
        ]
    );
}

#[test]
fn letters_beyond_ascii_make_identifiers() {
    let (tokens, faults) = scan("é = ñandú2;");
    assert!(faults.is_empty());
    assert_eq!(
        tokens,
        vec![
            Token::new(TokenType::Identifier, "é".to_string(), 1),
            Token::new(TokenType::Equal, "=".to_string(), 1),
            Token::new(TokenType::Identifier, "ñandú2".to_string(), 1),
            Token::new(TokenType::Semicolon, ";".to_string(), 1),
            Token::new(TokenType::EndOfFile, "".to_string(), 1),
        ]
    );
}

#[test]
fn underscore_is_not_a_letter() {
    let (tokens, faults) = scan("a_b");
    assert_eq!(faults, vec![lexical(1, "unexpected char")]);
    assert_eq!(
        tokens,
        vec![
            Token::new(TokenType::Identifier, "a".to_string(), 1),
            Token::new(TokenType::Identifier, "b".to_string(), 1),
            Token::new(TokenType::EndOfFile, "".to_string(), 1),
        ]
    );
}

#[test]
fn number_with_fraction_is_one_token() {
    let (tokens, faults) = scan("12.75");
    assert!(faults.is_empty());
    assert_eq!(
        tokens,
        vec![
            Token::new(number(12.75), "12.75".to_string(), 1),
            Token::new(TokenType::EndOfFile, "".to_string(), 1),
        ]
    );
}

#[test]
fn trailing_dot_is_not_part_of_a_number() {
    let (tokens, faults) = scan("7.");
    assert!(faults.is_empty());
    assert_eq!(
        tokens,
        vec![
            Token::new(number(7.0), "7".to_string(), 1),
            Token::new(TokenType::Dot, ".".to_string(), 1),
            Token::new(TokenType::EndOfFile, "".to_string(), 1),
        ]
    );
}

#[test]
fn second_dot_ends_a_number() {
    let (tokens, faults) = scan("1.5.25 .5");
    assert!(faults.is_empty());
    assert_eq!(
        tokens,
        vec![
            Token::new(number(1.5), "1.5".to_string(), 1),
            Token::new(TokenType::Dot, ".".to_string(), 1),
            Token::new(number(25.0), "25".to_string(), 1),
            Token::new(TokenType::Dot, ".".to_string(), 1),
            Token::new(number(5.0), "5".to_string(), 1),
            Token::new(TokenType::EndOfFile, "".to_string(), 1),
        ]
    );
}

#[test]
fn digits_then_letters_are_two_tokens() {
    let (tokens, _) = scan("12ab");
    assert_eq!(
        tokens,
        vec![
            Token::new(number(12.0), "12".to_string(), 1),
            Token::new(TokenType::Identifier, "ab".to_string(), 1),
            Token::new(TokenType::EndOfFile, "".to_string(), 1),
        ]
    );
}

#[test]
fn string_literal_carries_text_between_quotes() {
    let (tokens, faults) = scan("\"hello world\" \"\"");
    assert!(faults.is_empty());
    assert_eq!(
        tokens,
        vec![
            Token::new(
                TokenType::String("hello world".to_string()),
                "\"hello world\"".to_string(),
                1
            ),
            Token::new(TokenType::String(String::new()), "\"\"".to_string(), 1),
            Token::new(TokenType::EndOfFile, "".to_string(), 1),
        ]
    );
}

#[test]
fn string_over_lines_counts_lines_and_keeps_start_line() {
    let (tokens, faults) = scan("1\n\"a\nb\nc\" 2");
    assert!(faults.is_empty());
    assert_eq!(
        tokens,
        vec![
            Token::new(number(1.0), "1".to_string(), 1),
            Token::new(TokenType::String("a\nb\nc".to_string()), "\"a\nb\nc\"".to_string(), 2),
            Token::new(number(2.0), "2".to_string(), 4),
            Token::new(TokenType::EndOfFile, "".to_string(), 4),
        ]
    );
}

#[test]
fn unterminated_string_keeps_tokens_before_it() {
    let (tokens, faults) = scan("var a = 1;\n\"never closed\nprint a;");
    assert_eq!(faults, vec![lexical(3, "Unterminated string.")]);
    assert_eq!(
        tokens,
        vec![
            Token::new(TokenType::Var, "var".to_string(), 1),
            Token::new(TokenType::Identifier, "a".to_string(), 1),
            Token::new(TokenType::Equal, "=".to_string(), 1),
            Token::new(number(1.0), "1".to_string(), 1),
            Token::new(TokenType::Semicolon, ";".to_string(), 1),
            Token::new(TokenType::EndOfFile, "".to_string(), 3),
        ]
    );
}

#[test]
fn lone_quote_at_end_is_unterminated() {
    let (tokens, faults) = scan("\"");
    assert_eq!(faults, vec![lexical(1, "Unterminated string.")]);
    assert_eq!(tokens, vec![Token::new(TokenType::EndOfFile, "".to_string(), 1)]);
}

#[test]
fn comment_runs_to_end_of_line() {
    let (tokens, faults) = scan("1 // two \" three\n// only comment\n4 / 5 //");
    assert!(faults.is_empty());
    assert_eq!(
        tokens,
        vec![
            Token::new(number(1.0), "1".to_string(), 1),
            Token::new(number(4.0), "4".to_string(), 3),
            Token::new(TokenType::Slash, "/".to_string(), 3),
            Token::new(number(5.0), "5".to_string(), 3),
            Token::new(TokenType::EndOfFile, "".to_string(), 3),
        ]
    );
}

#[test]
fn whitespace_is_skipped_and_newlines_count() {
    let (tokens, faults) = scan(" \t\r\n\n  x\n");
    assert!(faults.is_empty());
    assert_eq!(
        tokens,
        vec![
            Token::new(TokenType::Identifier, "x".to_string(), 3),
            Token::new(TokenType::EndOfFile, "".to_string(), 4),
        ]
    );
}

#[test]
fn each_unexpected_character_is_reported_at_its_line() {
    let (tokens, faults) = scan("@\n#x$\n");
    assert_eq!(
        faults,
        vec![
            lexical(1, "unexpected char"),
            lexical(2, "unexpected char"),
            lexical(2, "unexpected char"),
        ]
    );
    assert_eq!(
        tokens,
        vec![
            Token::new(TokenType::Identifier, "x".to_string(), 2),
            Token::new(TokenType::EndOfFile, "".to_string(), 3),
        ]
    );
}

#[test]
fn token_lines_never_go_down() {
    let (tokens, _) = scan("a\nb \"x\ny\" c\n// z\n\n1.5 @ d");
    let lines: Vec<usize> = tokens.iter().map(|t| t.line).collect();
    assert_eq!(lines, vec![1, 2, 2, 3, 6, 6, 6]);
    for pair in lines.windows(2) {
        assert!(pair[0] <= pair[1]);
    }
    assert_eq!(tokens.last().unwrap().token_type, TokenType::EndOfFile);
}

#[test]
fn scanning_again_gives_only_end_of_file() {
    let mut scanner: Scanner<LogReporter> = Scanner::new("1 2");
    let first = scanner.scan_tokens(&Ieee);
    assert_eq!(first.len(), 3);
    let second = scanner.scan_tokens(&Ieee);
    assert_eq!(second, vec![Token::new(TokenType::EndOfFile, "".to_string(), 1)]);
}

#[test]
fn scanner_without_reporter_still_scans() {
    let mut scanner: Scanner<LogReporter> = Scanner::new("@ 1");
    let tokens = scanner.scan_tokens(&Ieee);
    assert_eq!(kinds(&tokens), vec![TokenKind::Number, TokenKind::EndOfFile]);
    assert!(scanner.detach_reporter().is_none());
}

#[test]
fn variant_eq_ignores_payload() {
    assert!(number(1.0).variant_eq(&number(2.0)));
    assert!(TokenType::String("a".to_string()).variant_eq(&TokenType::String("b".to_string())));
    assert!(!number(1.0).variant_eq(&TokenType::String("1".to_string())));
    assert!(TokenType::Plus.variant_eq(&TokenType::Plus));
    assert!(!TokenType::Plus.variant_eq(&TokenType::Minus));
    assert_eq!(TokenType::While.kind(), TokenKind::While);
    assert_eq!(number(3.0).kind(), TokenKind::Number);
}

#[test]
fn token_clone_is_equal() {
    let token = Token::new(TokenType::String("s".to_string()), "\"s\"".to_string(), 9);
    assert_eq!(token.clone(), token);
    assert_eq!(token.line, 9);
}

#[test]
fn unterminated_string_behind_tokens_on_several_lines() {
    let (tokens, faults) = scan("print (1 +\n2) ;\n  \"open\n\nstill open");
    assert_eq!(faults, vec![lexical(5, "Unterminated string.")]);
    assert_eq!(
        tokens,
        vec![
            Token::new(TokenType::Print, "print".to_string(), 1),
            Token::new(TokenType::LeftParen, "(".to_string(), 1),
            Token::new(number(1.0), "1".to_string(), 1),
            Token::new(TokenType::Plus, "+".to_string(), 1),
            Token::new(number(2.0), "2".to_string(), 2),
            Token::new(TokenType::RightParen, ")".to_string(), 2),
            Token::new(TokenType::Semicolon, ";".to_string(), 2),
            Token::new(TokenType::EndOfFile, "".to_string(), 5),
        ]
    );
}
