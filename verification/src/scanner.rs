//! The scanner: source text to tokens.

use crate::number::{parses_as, Numerics};
use crate::reporter::{
    lemma_static_chain, lemma_static_step, only_static_added, reported_all_to, reported_if,
    reported_to, sink_of, DiagnosticView, ErrorReporter, Sink,
};
use crate::text::{alphabetic, alphanumeric, chars_of, is_ascii_digit, is_digit, spells, string_of};
use crate::tokens::{Payload, Token, TokenKind, TokenType, TokenView};
use vstd::prelude::*;

verus! {

/// A token without what it carries: its tag, its text and its line.
pub struct Lexeme {
    pub kind: TokenKind,
    pub text: Seq<char>,
    pub line: nat,
}

/// What scanning one lexeme does: where the next one starts, the line
/// reached, and the token or the lexical error that it gave, if any.
pub struct Step {
    pub next: int,
    pub line: nat,
    pub lexeme: Option<Lexeme>,
    pub fault: Option<DiagnosticView>,
}

/// The tokens and lexical errors of a scan.
pub struct Scanned {
    pub lexemes: Seq<Lexeme>,
    pub faults: Seq<DiagnosticView>,
}

/// How many digits stand at `pos` and after it without a gap.
pub open spec fn digits_from(src: Seq<char>, pos: int) -> nat
    decreases src.len() - pos,
{
    if 0 <= pos < src.len() && is_digit(src[pos]) {
        1 + digits_from(src, pos + 1)
    } else {
        0
    }
}

/// How many alphanumeric characters stand at `pos` and after it without a
/// gap.
pub open spec fn alphanumerics_from(src: Seq<char>, pos: int) -> nat
    decreases src.len() - pos,
{
    if 0 <= pos < src.len() && alphanumeric(src[pos]) {
        1 + alphanumerics_from(src, pos + 1)
    } else {
        0
    }
}

/// How many characters stand between `pos` and the next `stop`, or the end.
pub open spec fn distance_to(src: Seq<char>, pos: int, stop: char) -> nat
    decreases src.len() - pos,
{
    if 0 <= pos < src.len() && src[pos] != stop {
        1 + distance_to(src, pos + 1, stop)
    } else {
        0
    }
}

/// How many line feeds `src[from..to]` holds.
pub open spec fn newlines(src: Seq<char>, from: int, to: int) -> nat
    decreases to - from,
{
    if 0 <= from < to <= src.len() {
        (if src[from] == '\n' {
            1nat
        } else {
            0nat
        }) + newlines(src, from + 1, to)
    } else {
        0
    }
}

/// The reserved words with their tokens.
pub open spec fn keywords() -> Seq<(Seq<char>, TokenKind)> {
    seq![
        ("and"@, TokenKind::And),
        ("class"@, TokenKind::Class),
        ("else"@, TokenKind::Else),
        ("false"@, TokenKind::False),
        ("for"@, TokenKind::For),
        ("fun"@, TokenKind::Fun),
        ("if"@, TokenKind::If),
        ("nil"@, TokenKind::Nil),
        ("or"@, TokenKind::Or),
        ("print"@, TokenKind::Print),
        ("return"@, TokenKind::Return),
        ("super"@, TokenKind::Super),
        ("this"@, TokenKind::This),
        ("true"@, TokenKind::True),
        ("var"@, TokenKind::Var),
        ("while"@, TokenKind::While),
    ]
}

/// The token of the first of `table[from..]` that spells `text`, else an
/// identifier.
pub open spec fn word_kind(table: Seq<(Seq<char>, TokenKind)>, from: int, text: Seq<char>) -> TokenKind
    decreases table.len() - from,
{
    if 0 <= from < table.len() {
        if table[from].0 == text {
            table[from].1
        } else {
            word_kind(table, from + 1, text)
        }
    } else {
        TokenKind::Identifier
    }
}

/// A token of `length` characters at `pos`.
pub open spec fn token_step(src: Seq<char>, pos: int, line: nat, length: int, kind: TokenKind) -> Step {
    Step {
        next: pos + length,
        line,
        lexeme: Some(Lexeme { kind, text: src.subrange(pos, pos + length), line }),
        fault: None,
    }
}

/// One character followed by `=` is the token `two`, else the character
/// alone is the token `one`.
pub open spec fn operator_step(
    src: Seq<char>,
    pos: int,
    line: nat,
    two: TokenKind,
    one: TokenKind,
) -> Step {
    if pos + 1 < src.len() && src[pos + 1] == '=' {
        token_step(src, pos, line, 2, two)
    } else {
        token_step(src, pos, line, 1, one)
    }
}

/// Nothing but `length` characters skipped.
pub open spec fn skip_step(pos: int, line: nat, length: int) -> Step {
    Step { next: pos + length, line, lexeme: None, fault: None }
}

/// A string literal runs to the next double quote, over line feeds. Without
/// one it is a lexical error, reported at the line reached, that uses up the
/// rest of the source.
pub open spec fn string_step(src: Seq<char>, pos: int, line: nat) -> Step {
    let close = pos + 1 + distance_to(src, pos + 1, '"');
    if close >= src.len() {
        let reached = line + newlines(src, pos + 1, src.len() as int);
        Step {
            next: src.len() as int,
            line: reached,
            lexeme: None,
            fault: Some(
                DiagnosticView::Static {
                    line: reached,
                    location: Seq::empty(),
                    message: "Unterminated string."@,
                },
            ),
        }
    } else {
        Step {
            next: close + 1,
            line: line + newlines(src, pos + 1, close),
            lexeme: Some(
                Lexeme { kind: TokenKind::String, text: src.subrange(pos, close + 1), line },
            ),
            fault: None,
        }
    }
}

/// A number literal is a run of digits, and then, if a dot with a digit
/// behind it follows, the dot and the run of digits behind it.
pub open spec fn number_step(src: Seq<char>, pos: int, line: nat) -> Step {
    let whole = pos + digits_from(src, pos);
    if whole + 1 < src.len() && src[whole] == '.' && is_digit(src[whole + 1]) {
        token_step(
            src,
            pos,
            line,
            whole + 1 + digits_from(src, whole + 1) - pos,
            TokenKind::Number,
        )
    } else {
        token_step(src, pos, line, whole - pos, TokenKind::Number)
    }
}

/// A word is a run of alphanumeric characters: a reserved word or an
/// identifier.
pub open spec fn word_step(src: Seq<char>, pos: int, line: nat) -> Step {
    let length = (1 + alphanumerics_from(src, pos + 1)) as int;
    token_step(src, pos, line, length, word_kind(keywords(), 0, src.subrange(pos, pos + length)))
}

/// Scanning the lexeme that starts at `pos`, on line `line`.
pub open spec fn scan_step(src: Seq<char>, pos: int, line: nat) -> Step
    recommends
        0 <= pos < src.len(),
{
    let c = src[pos];
    if c == '(' {
        token_step(src, pos, line, 1, TokenKind::LeftParen)
    } else if c == ')' {
        token_step(src, pos, line, 1, TokenKind::RightParen)
    } else if c == '{' {
        token_step(src, pos, line, 1, TokenKind::LeftBrace)
    } else if c == '}' {
        token_step(src, pos, line, 1, TokenKind::RightBrace)
    } else if c == ',' {
        token_step(src, pos, line, 1, TokenKind::Comma)
    } else if c == '.' {
        token_step(src, pos, line, 1, TokenKind::Dot)
    } else if c == '-' {
        token_step(src, pos, line, 1, TokenKind::Minus)
    } else if c == '+' {
        token_step(src, pos, line, 1, TokenKind::Plus)
    } else if c == ';' {
        token_step(src, pos, line, 1, TokenKind::Semicolon)
    } else if c == '*' {
        token_step(src, pos, line, 1, TokenKind::Star)
    } else if c == '!' {
        operator_step(src, pos, line, TokenKind::BangEqual, TokenKind::Bang)
    } else if c == '=' {
        operator_step(src, pos, line, TokenKind::EqualEqual, TokenKind::Equal)
    } else if c == '<' {
        operator_step(src, pos, line, TokenKind::LessEqual, TokenKind::Less)
    } else if c == '>' {
        operator_step(src, pos, line, TokenKind::GreaterEqual, TokenKind::Greater)
    } else if c == '/' {
        if pos + 1 < src.len() && src[pos + 1] == '/' {
            skip_step(pos, line, (2 + distance_to(src, pos + 2, '\n')) as int)
        } else {
            token_step(src, pos, line, 1, TokenKind::Slash)
        }
    } else if c == '\n' {
        skip_step(pos, line + 1, 1)
    } else if c == ' ' || c == '\r' || c == '\t' {
        skip_step(pos, line, 1)
    } else if c == '"' {
        string_step(src, pos, line)
    } else if is_digit(c) {
        number_step(src, pos, line)
    } else if alphabetic(c) {
        word_step(src, pos, line)
    } else {
        Step {
            next: pos + 1,
            line,
            lexeme: None,
            fault: Some(
                DiagnosticView::Static {
                    line,
                    location: Seq::empty(),
                    message: "unexpected char"@,
                },
            ),
        }
    }
}

/// What was scanned, with what a step gave added to it.
pub open spec fn after_step(so_far: Scanned, step: Step) -> Scanned {
    Scanned {
        lexemes: match step.lexeme {
            Some(lexeme) => so_far.lexemes.push(lexeme),
            None => so_far.lexemes,
        },
        faults: match step.fault {
            Some(fault) => so_far.faults.push(fault),
            None => so_far.faults,
        },
    }
}

/// The scan of `src` from `pos` on, on line `line`, after `so_far` was
/// scanned: lexeme by lexeme to the end, then the end-of-file token with the
/// line reached.
pub open spec fn scan_from(src: Seq<char>, pos: int, line: nat, so_far: Scanned) -> Scanned
    decreases src.len() - pos,
{
    if 0 <= pos < src.len() {
        let step = scan_step(src, pos, line);
        if pos < step.next <= src.len() {
            scan_from(src, step.next, step.line, after_step(so_far, step))
        } else {
            so_far
        }
    } else {
        Scanned {
            lexemes: so_far.lexemes.push(
                Lexeme { kind: TokenKind::EndOfFile, text: Seq::empty(), line },
            ),
            faults: so_far.faults,
        }
    }
}

/// The scan of a whole source text.
pub open spec fn scan(src: Seq<char>) -> Scanned {
    scan_from(src, 0, 1, Scanned { lexemes: Seq::empty(), faults: Seq::empty() })
}

/// No run goes beyond the end of the source.
pub proof fn lemma_runs_end(src: Seq<char>, pos: int, stop: char)
    requires
        0 <= pos <= src.len(),
    ensures
        pos + digits_from(src, pos) <= src.len(),
        pos + alphanumerics_from(src, pos) <= src.len(),
        pos + distance_to(src, pos, stop) <= src.len(),
    decreases src.len() - pos,
{
    if pos < src.len() {
        lemma_runs_end(src, pos + 1, stop);
    }
}

/// Every step moves on, stays within the source, and never goes back a
/// line.
pub proof fn lemma_step_advances(src: Seq<char>, pos: int, line: nat)
    requires
        0 <= pos < src.len(),
    ensures
        pos < scan_step(src, pos, line).next <= src.len(),
        line <= scan_step(src, pos, line).line,
{
    lemma_runs_end(src, pos, '"');
    lemma_runs_end(src, pos + 1, '"');
    if pos + 2 <= src.len() {
        lemma_runs_end(src, pos + 2, '\n');
    }
    let whole = pos + digits_from(src, pos);
    if whole + 1 < src.len() {
        lemma_runs_end(src, whole + 1, '"');
    }
}

/// Without a closing quote a string literal runs to the end of the source.
proof fn lemma_no_stop_runs_to_end(src: Seq<char>, pos: int, stop: char)
    requires
        0 <= pos <= src.len(),
        forall|i: int| pos <= i < src.len() ==> src[i] != stop,
    ensures
        pos + distance_to(src, pos, stop) == src.len(),
    decreases src.len() - pos,
{
    if pos < src.len() {
        lemma_no_stop_runs_to_end(src, pos + 1, stop);
    }
}

/// An unterminated string literal is a lexical error that ends the scan
/// without a token for it: what was scanned before it stays, the error is
/// reported at the line reached, and the end-of-file token follows.
pub proof fn lemma_unterminated_string(src: Seq<char>, pos: int, line: nat, so_far: Scanned)
    requires
        0 <= pos < src.len(),
        src[pos] == '"',
        forall|i: int| pos < i < src.len() ==> src[i] != '"',
    ensures
        ({
            let reached = line + newlines(src, pos + 1, src.len() as int);
            scan_from(src, pos, line, so_far) == Scanned {
                lexemes: so_far.lexemes.push(
                    Lexeme { kind: TokenKind::EndOfFile, text: Seq::empty(), line: reached },
                ),
                faults: so_far.faults.push(
                    DiagnosticView::Static {
                        line: reached,
                        location: Seq::empty(),
                        message: "Unterminated string."@,
                    },
                ),
            }
        }),
{
    reveal_with_fuel(scan_from, 2);
    lemma_no_stop_runs_to_end(src, pos + 1, '"');
}

/// The token of a word: an identifier or a reserved word.
pub open spec fn is_word(kind: TokenKind) -> bool {
    kind == TokenKind::Identifier || kind == TokenKind::And || kind == TokenKind::Class || kind
        == TokenKind::Else || kind == TokenKind::False || kind == TokenKind::For || kind
        == TokenKind::Fun || kind == TokenKind::If || kind == TokenKind::Nil || kind
        == TokenKind::Or || kind == TokenKind::Print || kind == TokenKind::Return || kind
        == TokenKind::Super || kind == TokenKind::This || kind == TokenKind::True || kind
        == TokenKind::Var || kind == TokenKind::While
}

/// The step at `pos` gives no error, and where it runs to the end of the
/// text it is neither a word nor a comment, which more text could lengthen.
pub open spec fn settled_step(text: Seq<char>, pos: int, line: nat) -> bool {
    let step = scan_step(text, pos, line);
    step.fault is None && (step.next >= text.len() ==> match step.lexeme {
        Some(lexeme) => !is_word(lexeme.kind),
        None => text[pos] != '/',
    })
}

/// From `pos` on the text scans without an error, and it ends neither in a
/// word nor in a comment.
pub open spec fn settled(text: Seq<char>, pos: int, line: nat) -> bool
    decreases text.len() - pos,
{
    if 0 <= pos < text.len() {
        let step = scan_step(text, pos, line);
        settled_step(text, pos, line) && pos < step.next <= text.len() && settled(
            text,
            step.next,
            step.line,
        )
    } else {
        true
    }
}

/// The runs and counts within a text are the same in every longer text whose
/// next character is a double quote, as far as they end within the text
/// (a run of digits also where it ends with the text).
proof fn lemma_runs_in_prefix(text: Seq<char>, longer: Seq<char>, pos: int, stop: char)
    requires
        0 <= pos <= text.len() < longer.len(),
        longer.subrange(0, text.len() as int) == text,
        longer[text.len() as int] == '"',
    ensures
        digits_from(longer, pos) == digits_from(text, pos),
        pos + alphanumerics_from(text, pos) < text.len() ==> alphanumerics_from(longer, pos)
            == alphanumerics_from(text, pos),
        pos + distance_to(text, pos, stop) < text.len() ==> distance_to(longer, pos, stop)
            == distance_to(text, pos, stop),
    decreases text.len() - pos,
{
    if pos < text.len() {
        assert(longer.subrange(0, text.len() as int)[pos] == longer[pos]);
        lemma_runs_in_prefix(text, longer, pos + 1, stop);
    }
}

proof fn lemma_newlines_in_prefix(text: Seq<char>, longer: Seq<char>, from: int, to: int)
    requires
        0 <= from,
        to <= text.len() <= longer.len(),
        longer.subrange(0, text.len() as int) == text,
    ensures
        newlines(longer, from, to) == newlines(text, from, to),
    decreases to - from,
{
    if from < to {
        assert(longer.subrange(0, text.len() as int)[from] == longer[from]);
        lemma_newlines_in_prefix(text, longer, from + 1, to);
    }
}

/// A settled step of a text is the same step in every longer text whose
/// next character is a double quote.
proof fn lemma_step_in_prefix(text: Seq<char>, longer: Seq<char>, pos: int, line: nat)
    requires
        0 <= pos < text.len() < longer.len(),
        longer.subrange(0, text.len() as int) == text,
        longer[text.len() as int] == '"',
        settled_step(text, pos, line),
    ensures
        scan_step(longer, pos, line) == scan_step(text, pos, line),
{
    let n = text.len() as int;
    assert forall|i: int| 0 <= i < n implies longer[i] == text[i] by {
        assert(longer.subrange(0, n)[i] == longer[i]);
    }
    assert forall|a: int, b: int| 0 <= a <= b <= n implies #[trigger] longer.subrange(a, b)
        == text.subrange(a, b) by {
        assert(longer.subrange(a, b) =~= text.subrange(a, b));
    }
    let c = text[pos];
    lemma_runs_end(text, pos, '"');
    lemma_runs_end(text, pos + 1, '"');
    lemma_runs_in_prefix(text, longer, pos, '"');
    lemma_runs_in_prefix(text, longer, pos + 1, '"');
    if pos + 2 <= n {
        lemma_runs_end(text, pos + 2, '\n');
        lemma_runs_in_prefix(text, longer, pos + 2, '\n');
    }
    let whole = pos + digits_from(text, pos);
    if whole + 1 <= n {
        lemma_runs_end(text, whole + 1, '"');
        lemma_runs_in_prefix(text, longer, whole + 1, '"');
    }
    if c == '"' {
        let close = pos + 1 + distance_to(text, pos + 1, '"');
        assert(close < n);
        lemma_newlines_in_prefix(text, longer, pos + 1, close);
    } else if is_digit(c) {
    } else if alphabetic(c) {
        let length = (1 + alphanumerics_from(text, pos + 1)) as int;
        lemma_word_kinds(0, text.subrange(pos, pos + length));
    }
}

/// An unterminated string literal ends the scan behind whatever stands
/// before it: where the text before the opening quote is settled, the scan
/// gives the tokens of that text alone, then the end-of-file token on the
/// line reached, and reports the one error.
pub proof fn lemma_scan_before_unterminated_string(
    text: Seq<char>,
    rest: Seq<char>,
    pos: int,
    line: nat,
    so_far: Scanned,
)
    requires
        0 <= pos <= text.len(),
        settled(text, pos, line),
        forall|i: int| 0 <= i < rest.len() ==> rest[i] != '"',
    ensures
        ({
            let source = text + seq!['"'] + rest;
            let alone = scan_from(text, pos, line, so_far);
            let reached = alone.lexemes.last().line + newlines(
                source,
                (text.len() + 1) as int,
                source.len() as int,
            );
            &&& alone.faults == so_far.faults
            &&& alone.lexemes.len() > 0
            &&& alone.lexemes.last().kind == TokenKind::EndOfFile
            &&& scan_from(source, pos, line, so_far) == Scanned {
                lexemes: alone.lexemes.drop_last().push(
                    Lexeme { kind: TokenKind::EndOfFile, text: Seq::empty(), line: reached },
                ),
                faults: so_far.faults.push(
                    DiagnosticView::Static {
                        line: reached,
                        location: Seq::empty(),
                        message: "Unterminated string."@,
                    },
                ),
            }
        }),
    decreases text.len() - pos,
{
    let source = text + seq!['"'] + rest;
    let n = text.len() as int;
    assert(source.subrange(0, n) =~= text);
    assert(source[n] == '"');
    if pos < n {
        let step = scan_step(text, pos, line);
        lemma_step_in_prefix(text, source, pos, line);
        lemma_scan_before_unterminated_string(
            text,
            rest,
            step.next,
            step.line,
            after_step(so_far, step),
        );
    } else {
        assert forall|i: int| pos < i < source.len() implies source[i] != '"' by {
            assert(source[i] == rest[i - n - 1]);
        }
        lemma_unterminated_string(source, pos, line, so_far);
        let alone = scan_from(text, pos, line, so_far);
        assert(alone.lexemes.drop_last() =~= so_far.lexemes);
    }
}

/// The scanner adds static reports only.
pub proof fn lemma_scan_reports(src: Seq<char>, pos: int, line: nat, so_far: Scanned)
    ensures
        only_static_added(Some(so_far.faults), Some(scan_from(src, pos, line, so_far).faults)),
    decreases src.len() - pos,
{
    lemma_static_step(Some(so_far.faults), DiagnosticView::Runtime { line, message: Seq::empty() });
    if 0 <= pos < src.len() {
        let step = scan_step(src, pos, line);
        if pos < step.next <= src.len() {
            let next = after_step(so_far, step);
            match step.fault {
                Some(fault) => {
                    lemma_static_step(Some(so_far.faults), fault);
                },
                None => {},
            }
            lemma_scan_reports(src, step.next, step.line, next);
            lemma_static_chain(
                Some(so_far.faults),
                Some(next.faults),
                Some(scan_from(src, step.next, step.line, next).faults),
            );
        }
    }
}

/// The lines of the lexemes never go down.
pub open spec fn lines_ordered(lexemes: Seq<Lexeme>) -> bool {
    forall|i: int, j: int| 0 <= i <= j < lexemes.len() ==> lexemes[i].line <= lexemes[j].line
}

/// Token lines never go down across a scan, and the scan ends with the one
/// end-of-file token, on the last line reached.
pub proof fn lemma_scan_shape(src: Seq<char>, pos: int, line: nat, so_far: Scanned)
    requires
        0 <= pos,
        lines_ordered(so_far.lexemes),
        forall|i: int| 0 <= i < so_far.lexemes.len() ==> so_far.lexemes[i].line <= line,
        forall|i: int|
            0 <= i < so_far.lexemes.len() ==> so_far.lexemes[i].kind != TokenKind::EndOfFile,
    ensures
        ({
            let lexemes = scan_from(src, pos, line, so_far).lexemes;
            &&& lines_ordered(lexemes)
            &&& lexemes.len() > so_far.lexemes.len()
            &&& lexemes.last().kind == TokenKind::EndOfFile
            &&& forall|i: int| 0 <= i < lexemes.len() - 1 ==> lexemes[i].kind != TokenKind::EndOfFile
        }),
    decreases src.len() - pos,
{
    if pos < src.len() {
        let step = scan_step(src, pos, line);
        lemma_step_advances(src, pos, line);
        lemma_step_lexeme(src, pos, line);
        let next = after_step(so_far, step);
        assert(lines_ordered(next.lexemes));
        lemma_scan_shape(src, step.next, step.line, next);
    } else {
        let lexemes = scan_from(src, pos, line, so_far).lexemes;
        assert(lines_ordered(lexemes));
    }
}

/// The token of a step starts on the line at which the step starts, and is
/// never the end-of-file token.
proof fn lemma_step_lexeme(src: Seq<char>, pos: int, line: nat)
    requires
        0 <= pos < src.len(),
    ensures
        match scan_step(src, pos, line).lexeme {
            Some(lexeme) => lexeme.line == line && lexeme.kind != TokenKind::EndOfFile,
            None => true,
        },
{
    let length = (1 + alphanumerics_from(src, pos + 1)) as int;
    lemma_word_kinds(0, src.subrange(pos, pos + length));
}

/// The tag, text and line of a token.
pub open spec fn lexeme_of(token: TokenView) -> Lexeme {
    Lexeme { kind: token.kind, text: token.lexeme, line: token.line }
}

/// The tags, texts and lines of a sequence of tokens.
pub open spec fn lexemes_of(tokens: Seq<Token>) -> Seq<Lexeme> {
    Seq::new(tokens.len(), |i: int| lexeme_of(tokens[i]@))
}

/// A string literal carries the text between its quotes.
pub open spec fn carries_text(token: TokenView) -> bool {
    token.lexeme.len() >= 2 && token.payload == Payload::Text(
        token.lexeme.subrange(1, token.lexeme.len() - 1),
    )
}

/// A token carries what its text says: a string literal the text between its
/// quotes, a number literal a value that `numerics` may give for its text,
/// every other token nothing.
pub open spec fn carries<N: Numerics>(numerics: &N, token: TokenView) -> bool {
    match token.kind {
        TokenKind::String => carries_text(token),
        TokenKind::Number => match token.payload {
            Payload::Number(value) => parses_as(numerics, token.lexeme, value),
            _ => false,
        },
        _ => token.payload is Nothing,
    }
}

/// Every token of the sequence carries what its text says.
pub open spec fn all_carry<N: Numerics>(numerics: &N, tokens: Seq<Token>) -> bool {
    forall|i: int| 0 <= i < tokens.len() ==> carries(numerics, (#[trigger] tokens[i])@)
}

/// The scanner: the source text, the position in it, and the tokens found
/// so far.
pub struct Scanner<R: ErrorReporter> {
    source: Vec<char>,
    tokens: Vec<Token>,
    start: usize,
    start_line: usize,
    current: usize,
    line: usize,
    reporter: Option<R>,
}

impl<R: ErrorReporter> Scanner<R> {
    /// The source text.
    pub closed spec fn source_text(&self) -> Seq<char> {
        self.source@
    }

    /// How many characters were scanned.
    pub closed spec fn position(&self) -> int {
        self.current as int
    }

    /// The line reached.
    pub closed spec fn line_reached(&self) -> nat {
        self.line as nat
    }

    /// What the attached reporter holds, or `None` without one.
    pub closed spec fn sink(&self) -> Sink {
        sink_of(self.reporter)
    }

    /// The position is within the source, and the line counter cannot
    /// overflow on what is left of it.
    pub closed spec fn well_formed(&self) -> bool {
        &&& self.start <= self.current <= self.source.len() < usize::MAX
        &&& self.line + (self.source.len() - self.current) < usize::MAX
    }

    /// Well formed, and between two scans: no token is kept back.
    pub closed spec fn ready(&self) -> bool {
        self.well_formed() && self.tokens@.len() == 0
    }

    /// Everything but position and line is the same in both.
    spec fn moved_from(&self, before: &Self) -> bool {
        &&& self.source == before.source
        &&& self.tokens == before.tokens
        &&& self.start == before.start
        &&& self.start_line == before.start_line
        &&& self.reporter == before.reporter
    }

    /// The text between the start of the lexeme and the position.
    spec fn lexeme_text(&self) -> Seq<char> {
        self.source@.subrange(self.start as int, self.current as int)
    }

    /// The next character is `expected`.
    spec fn next_is(&self, expected: char) -> bool {
        self.current < self.source.len() && self.source@[self.current as int] == expected
    }

    /// The tokens are those of `before` and one more.
    spec fn added_one(&self, before: &Self) -> bool {
        self.tokens@.len() == before.tokens@.len() + 1 && self.tokens@.drop_last()
            == before.tokens@
    }

    /// The state after the step `step` from the state `before`.
    spec fn stepped(&self, before: &Self, step: Step) -> bool {
        &&& self.well_formed()
        &&& self.source == before.source
        &&& self.current == step.next
        &&& self.line == step.line
        &&& match step.lexeme {
            Some(lexeme) => self.added_one(before) && lexeme_of(self.tokens@.last()@) == lexeme,
            None => self.tokens@ == before.tokens@,
        }
        &&& self.sink() == reported_if(before.sink(), step.fault)
    }

    /// The state after a token of this kind and payload was added for the
    /// lexeme, on the line where the lexeme started.
    spec fn pushed(&self, before: &Self, kind: TokenKind, payload: Payload) -> bool {
        &&& self.well_formed()
        &&& self.source == before.source
        &&& self.reporter == before.reporter
        &&& self.start == before.start
        &&& self.start_line == before.start_line
        &&& self.line == before.line
        &&& self.added_one(before)
        &&& self.tokens@.last()@ == TokenView {
            kind,
            payload,
            lexeme: self.lexeme_text(),
            line: before.start_line as nat,
        }
    }

    /// The reserved words with their tokens.
    fn get_keywords() -> (r: Vec<(&'static str, TokenKind)>)
        ensures
            r@.len() == keywords().len(),
            forall|i: int|
                0 <= i < r@.len() ==> (#[trigger] r@[i]).0@ == keywords()[i].0 && r@[i].1
                    == keywords()[i].1,
    {
        vec![
            ("and", TokenKind::And),
            ("class", TokenKind::Class),
            ("else", TokenKind::Else),
            ("false", TokenKind::False),
            ("for", TokenKind::For),
            ("fun", TokenKind::Fun),
            ("if", TokenKind::If),
            ("nil", TokenKind::Nil),
            ("or", TokenKind::Or),
            ("print", TokenKind::Print),
            ("return", TokenKind::Return),
            ("super", TokenKind::Super),
            ("this", TokenKind::This),
            ("true", TokenKind::True),
            ("var", TokenKind::Var),
            ("while", TokenKind::While),
        ]
    }

    /// A scanner at the start of `source`, on line 1, without a reporter.
    pub fn new(source: &str) -> (r: Self)
        requires
            source@.len() + 1 < usize::MAX,
        ensures
            r.ready(),
            r.source_text() == source@,
            r.position() == 0,
            r.line_reached() == 1,
            r.sink() is None,
    {
        Scanner {
            source: chars_of(source),
            tokens: Vec::new(),
            start: 0,
            start_line: 1,
            current: 0,
            line: 1,
            reporter: None,
        }
    }

    /// Hands the scanner the reporter that gets its lexical errors.
    pub fn attach_reporter(self, reporter: R) -> (r: Self)
        ensures
            r.sink() == Some(reporter.reports()),
            r.ready() == self.ready(),
            r.source_text() == self.source_text(),
            r.position() == self.position(),
            r.line_reached() == self.line_reached(),
    {
        Scanner {
            source: self.source,
            tokens: self.tokens,
            start: self.start,
            start_line: self.start_line,
            current: self.current,
            line: self.line,
            reporter: Some(reporter),
        }
    }

    /// Takes the reporter back.
    pub fn detach_reporter(&mut self) -> (r: Option<R>)
        ensures
            match r {
                Some(reporter) => old(self).sink() == Some(reporter.reports()),
                None => old(self).sink() is None,
            },
            final(self).sink() is None,
            final(self).ready() == old(self).ready(),
            final(self).source_text() == old(self).source_text(),
            final(self).position() == old(self).position(),
            final(self).line_reached() == old(self).line_reached(),
    {
        self.reporter.take()
    }

    /// Scans the rest of the source. The result ends with the end-of-file
    /// token; each lexical error went to the reporter, and none of them
    /// stopped the scan.
    pub fn scan_tokens<N: Numerics>(&mut self, numerics: &N) -> (r: Vec<Token>)
        requires
            old(self).ready(),
        ensures
            lexemes_of(r@) == scan_from(
                old(self).source_text(),
                old(self).position(),
                old(self).line_reached(),
                Scanned { lexemes: Seq::empty(), faults: Seq::empty() },
            ).lexemes,
            all_carry(numerics, r@),
            r@.len() > 0 && r@.last()@.kind == TokenKind::EndOfFile,
            final(self).sink() == reported_all_to(
                old(self).sink(),
                scan_from(
                    old(self).source_text(),
                    old(self).position(),
                    old(self).line_reached(),
                    Scanned { lexemes: Seq::empty(), faults: Seq::empty() },
                ).faults,
            ),
            final(self).ready(),
            final(self).source_text() == old(self).source_text(),
            final(self).position() == old(self).source_text().len(),
    {
        let ghost src = self.source@;
        let ghost goal = scan_from(
            src,
            self.current as int,
            self.line as nat,
            Scanned { lexemes: Seq::empty(), faults: Seq::empty() },
        );
        let ghost faults = Seq::<DiagnosticView>::empty();
        assert(lexemes_of(self.tokens@) =~= Seq::<Lexeme>::empty());
        assert(self.sink() == reported_all_to(old(self).sink(), faults)) by {
            if old(self).sink() is Some {
                assert(old(self).sink()->0 + faults =~= old(self).sink()->0);
            }
        }
        while !self.is_at_end()
            invariant
                self.well_formed(),
                self.source@ == src,
                src == old(self).source@,
                self.sink() == reported_all_to(old(self).sink(), faults),
                all_carry(numerics, self.tokens@),
                scan_from(
                    src,
                    self.current as int,
                    self.line as nat,
                    Scanned { lexemes: lexemes_of(self.tokens@), faults },
                ) == goal,
            decreases self.source.len() - self.current,
        {
            self.start = self.current;
            self.start_line = self.line;
            let ghost before = Scanned { lexemes: lexemes_of(self.tokens@), faults };
            let ghost step = scan_step(src, self.current as int, self.line as nat);
            proof {
                lemma_step_advances(src, self.current as int, self.line as nat);
            }
            self.scan_token(numerics);
            proof {
                faults = after_step(before, step).faults;
                assert(self.sink() == reported_all_to(old(self).sink(), faults)) by {
                    if step.fault is Some && old(self).sink() is Some {
                        let held = old(self).sink()->0;
                        assert((held + before.faults).push(step.fault->0) =~= held + faults);
                    }
                }
                assert(lexemes_of(self.tokens@) =~= after_step(before, step).lexemes);
            }
        }
        let end = Token { token_type: TokenType::EndOfFile, lexeme: String::new(), line: self.line };
        proof {
            assert(carries(numerics, end@));
            assert(lexemes_of(self.tokens@.push(end)) =~= lexemes_of(self.tokens@).push(
                lexeme_of(end@),
            ));
        }
        self.tokens.push(end);
        let mut taken: Vec<Token> = Vec::new();
        core::mem::swap(&mut self.tokens, &mut taken);
        taken
    }

    /// Scans the lexeme at the current position.
    fn scan_token<N: Numerics>(&mut self, numerics: &N)
        requires
            old(self).well_formed(),
            old(self).current < old(self).source.len(),
            old(self).start == old(self).current,
            old(self).start_line == old(self).line,
            all_carry(numerics, old(self).tokens@),
        ensures
            final(self).stepped(
                old(self),
                scan_step(old(self).source@, old(self).current as int, old(self).line as nat),
            ),
            all_carry(numerics, final(self).tokens@),
    {
        let consumed_char = match self.consume() {
            Some(c) => c,
            None => {
                return ;
            },
        };
        match consumed_char {
            '(' => self.add_token(TokenType::LeftParen),
            ')' => self.add_token(TokenType::RightParen),
            '{' => self.add_token(TokenType::LeftBrace),
            '}' => self.add_token(TokenType::RightBrace),
            ',' => self.add_token(TokenType::Comma),
            '.' => self.add_token(TokenType::Dot),
            '-' => self.add_token(TokenType::Minus),
            '+' => self.add_token(TokenType::Plus),
            ';' => self.add_token(TokenType::Semicolon),
            '*' => self.add_token(TokenType::Star),
            '!' => self.add_token_with_match(
                '=',
                TokenType::BangEqual,
                TokenType::Bang,
            ),
            '=' => self.add_token_with_match(
                '=',
                TokenType::EqualEqual,
                TokenType::Equal,
            ),
            '<' => self.add_token_with_match(
                '=',
                TokenType::LessEqual,
                TokenType::Less,
            ),
            '>' => self.add_token_with_match(
                '=',
                TokenType::GreaterEqual,
                TokenType::Greater,
            ),
            '/' => {
                if self.next_matches('/') {
                    self.consume_comment();
                } else {
                    self.add_token(TokenType::Slash)
                }
            },
            '\n' => {
                self.line += 1;
            },
            ' ' | '\r' | '\t' => (),
            '"' => self.consume_string(),
            _ => {
                if is_ascii_digit(consumed_char) {
                    self.consume_number(numerics);
                } else if consumed_char.is_alphabetic() {
                    self.consume_identifier();
                } else {
                    self.report_fault("unexpected char")
                }
            },
        };
        proof {
            let added = self.tokens@;
            if added.len() > old(self).tokens@.len() {
                assert(carries(numerics, added.last()@));
                assert forall|i: int| 0 <= i < added.len() implies carries(
                    numerics,
                    (#[trigger] added[i])@,
                ) by {
                    if i < added.len() - 1 {
                        assert(added[i] == added.drop_last()[i]);
                    }
                }
            }
        }
    }

    /// Hands a lexical error at the current line to the reporter, if one is
    /// attached.
    fn report_fault(&mut self, message: &str)
        ensures
            final(self).sink() == reported_if(
                old(self).sink(),
                Some(
                    DiagnosticView::Static {
                        line: old(self).line as nat,
                        location: Seq::empty(),
                        message: message@,
                    },
                ),
            ),
            final(self).source == old(self).source,
            final(self).tokens == old(self).tokens,
            final(self).start == old(self).start,
            final(self).start_line == old(self).start_line,
            final(self).current == old(self).current,
            final(self).line == old(self).line,
    {
        let line = self.line;
        match &mut self.reporter {
            Some(reporter) => {
                proof {
                    reveal_strlit("");
                    assert(""@ =~= Seq::<char>::empty());
                }
                reporter.report(line, "", message);
            },
            None => {},
        }
    }

    /// Consumes the rest of a word and adds its token: that of a reserved
    /// word, or an identifier.
    fn consume_identifier(&mut self)
        requires
            old(self).well_formed(),
            old(self).current == old(self).start + 1,
        ensures
            final(self).current == old(self).current + alphanumerics_from(
                old(self).source@,
                old(self).current as int,
            ),
            final(self).pushed(
                old(self),
                word_kind(keywords(), 0, final(self).lexeme_text()),
                Payload::Nothing,
            ),
    {
        while !self.is_at_end() && self.peek().is_alphanumeric()
            invariant
                self.well_formed(),
                self.moved_from(old(self)),
                self.line == old(self).line,
                old(self).current <= self.current,
                self.current + alphanumerics_from(self.source@, self.current as int) == old(
                    self,
                ).current + alphanumerics_from(old(self).source@, old(self).current as int),
            decreases self.source.len() - self.current,
        {
            self.consume();
        }
        let table = Scanner::<R>::get_keywords();
        let ghost text = self.source@.subrange(self.start as int, self.current as int);
        let mut found = TokenKind::Identifier;
        let mut done = false;
        let mut i: usize = 0;
        while i < table.len() && !done
            invariant
                i <= table.len(),
                self.well_formed(),
                table@.len() == keywords().len(),
                forall|k: int|
                    0 <= k < table@.len() ==> (#[trigger] table@[k]).0@ == keywords()[k].0
                        && table@[k].1 == keywords()[k].1,
                text == self.source@.subrange(self.start as int, self.current as int),
                word_kind(keywords(), 0, text) == if done {
                    found
                } else {
                    word_kind(keywords(), i as int, text)
                },
                !done ==> found == TokenKind::Identifier,
            decreases table.len() - i, if done { 0nat } else { 1nat },
        {
            if spells(&self.source, self.start, self.current, table[i].0) {
                found = table[i].1;
                done = true;
            } else {
                i += 1;
            }
        }
        assert(found == word_kind(keywords(), 0, text));
        proof {
            lemma_word_kinds(0, text);
        }
        let token_type = match found {
            TokenKind::And => TokenType::And,
            TokenKind::Class => TokenType::Class,
            TokenKind::Else => TokenType::Else,
            TokenKind::False => TokenType::False,
            TokenKind::For => TokenType::For,
            TokenKind::Fun => TokenType::Fun,
            TokenKind::If => TokenType::If,
            TokenKind::Nil => TokenType::Nil,
            TokenKind::Or => TokenType::Or,
            TokenKind::Print => TokenType::Print,
            TokenKind::Return => TokenType::Return,
            TokenKind::Super => TokenType::Super,
            TokenKind::This => TokenType::This,
            TokenKind::True => TokenType::True,
            TokenKind::Var => TokenType::Var,
            TokenKind::While => TokenType::While,
            _ => TokenType::Identifier,
        };
        self.add_token(token_type);
    }

    /// Consumes a string literal to its closing quote and adds its token;
    /// without a closing quote reports the error.
    fn consume_string(&mut self)
        requires
            old(self).well_formed(),
            old(self).current == old(self).start + 1,
            old(self).source@[old(self).start as int] == '"',
            old(self).start_line == old(self).line,
        ensures
            final(self).stepped(
                old(self),
                string_step(old(self).source@, old(self).start as int, old(self).line as nat),
            ),
            final(self).tokens@.len() > old(self).tokens@.len() ==> carries_text(
                final(self).tokens@.last()@,
            ),
    {
        let ghost src = self.source@;
        let ghost first = self.current as int;
        let ghost close = first + distance_to(src, first, '"');
        proof {
            lemma_runs_end(src, first, '"');
        }
        while !self.is_at_end() && self.peek() != '"'
            invariant
                self.well_formed(),
                self.moved_from(old(self)),
                src == self.source@,
                first <= self.current <= close <= src.len(),
                close == first + distance_to(src, first, '"'),
                self.current + distance_to(src, self.current as int, '"') == close,
                self.line + newlines(src, self.current as int, close) == old(self).line + newlines(
                    src,
                    first,
                    close,
                ),
            decreases self.source.len() - self.current,
        {
            let next = self.peek();
            self.consume();
            if next == '\n' {
                self.line += 1;
            }
        }
        assert(self.current == close);
        if self.is_at_end() {
            self.report_fault("Unterminated string.");
            return ;
        }
        // consume the closing "
        self.consume();
        let value = string_of(&self.source, self.start + 1, self.current - 1);
        proof {
            let text = src.subrange(self.start as int, self.current as int);
            assert(text.subrange(1, text.len() - 1) =~= value@);
        }
        self.add_token(TokenType::String(value));
    }

    /// Consumes the rest of a number literal and adds its token, with the
    /// value that `numerics` gives for its text.
    fn consume_number<N: Numerics>(&mut self, numerics: &N)
        requires
            old(self).well_formed(),
            old(self).current == old(self).start + 1,
            is_digit(old(self).source@[old(self).start as int]),
        ensures
            final(self).current == number_step(
                old(self).source@,
                old(self).start as int,
                old(self).line as nat,
            ).next,
            final(self).pushed(old(self), TokenKind::Number, final(self).tokens@.last()@.payload),
            carries(numerics, final(self).tokens@.last()@),
    {
        self.consume_digits();
        if self.peek() == '.' && is_ascii_digit(self.peek_next()) {
            self.consume();
            self.consume_digits();
        }
        let number_literal = string_of(&self.source, self.start, self.current);
        let value = numerics.parse(number_literal.as_str());
        assert(parses_as(
            numerics,
            self.source@.subrange(self.start as int, self.current as int),
            value,
        ));
        self.add_token(TokenType::Number(value));
    }

    /// Consumes a run of digits.
    fn consume_digits(&mut self)
        requires
            old(self).well_formed(),
        ensures
            final(self).well_formed(),
            final(self).moved_from(old(self)),
            final(self).line == old(self).line,
            final(self).current == old(self).current + digits_from(
                old(self).source@,
                old(self).current as int,
            ),
    {
        while !self.is_at_end() && is_ascii_digit(self.peek())
            invariant
                self.well_formed(),
                self.moved_from(old(self)),
                self.line == old(self).line,
                self.current + digits_from(self.source@, self.current as int) == old(self).current
                    + digits_from(old(self).source@, old(self).current as int),
            decreases self.source.len() - self.current,
        {
            self.consume();
        }
    }

    /// Consumes a comment: everything up to the end of the line.
    fn consume_comment(&mut self)
        requires
            old(self).well_formed(),
        ensures
            final(self).well_formed(),
            final(self).moved_from(old(self)),
            final(self).line == old(self).line,
            final(self).current == old(self).current + distance_to(
                old(self).source@,
                old(self).current as int,
                '\n',
            ),
    {
        while !self.is_at_end() && self.peek() != '\n'
            invariant
                self.well_formed(),
                self.moved_from(old(self)),
                self.line == old(self).line,
                self.current + distance_to(self.source@, self.current as int, '\n') == old(
                    self,
                ).current + distance_to(old(self).source@, old(self).current as int, '\n'),
            decreases self.source.len() - self.current,
        {
            self.consume();
        }
    }

    /// Adds `expected_token` if the next character is `expected`, which is
    /// then consumed, else `else_token`.
    fn add_token_with_match(
        &mut self,
        expected: char,
        expected_token: TokenType,
        else_token: TokenType,
    )
        requires
            old(self).well_formed(),
        ensures
            final(self).current == old(self).current + if old(self).next_is(expected) {
                1int
            } else {
                0int
            },
            final(self).pushed(
                old(self),
                if old(self).next_is(expected) {
                    expected_token.spec_kind()
                } else {
                    else_token.spec_kind()
                },
                if old(self).next_is(expected) {
                    expected_token.payload()
                } else {
                    else_token.payload()
                },
            ),
    {
        if self.next_matches(expected) {
            self.add_token(expected_token)
        } else {
            self.add_token(else_token)
        }
    }

    /// Consumes the next character if it is `expected`.
    fn next_matches(&mut self, expected: char) -> (r: bool)
        requires
            old(self).well_formed(),
        ensures
            final(self).well_formed(),
            final(self).moved_from(old(self)),
            final(self).line == old(self).line,
            r == old(self).next_is(expected),
            final(self).current == old(self).current + if r {
                1int
            } else {
                0int
            },
    {
        if self.is_at_end() {
            return false;
        }
        if self.source[self.current] == expected {
            self.current += 1;
            true
        } else {
            false
        }
    }

    fn is_at_end(&self) -> (r: bool)
        ensures
            r == (self.current >= self.source.len()),
    {
        self.current >= self.source.len()
    }

    /// The next character, or NUL at the end.
    fn peek(&self) -> (r: char)
        ensures
            r == if self.current < self.source.len() {
                self.source@[self.current as int]
            } else {
                '\0'
            },
    {
        if self.is_at_end() {
            return '\0';
        }
        self.source[self.current]
    }

    /// The character after the next one, or NUL where there is none.
    fn peek_next(&self) -> (r: char)
        requires
            self.well_formed(),
        ensures
            r == if self.current + 1 < self.source.len() {
                self.source@[self.current + 1]
            } else {
                '\0'
            },
    {
        if self.current + 1 >= self.source.len() {
            return '\0';
        }
        self.source[self.current + 1]
    }

    /// Consumes the next character, if there is one.
    fn consume(&mut self) -> (r: Option<char>)
        requires
            old(self).well_formed(),
        ensures
            final(self).well_formed(),
            final(self).moved_from(old(self)),
            final(self).line == old(self).line,
            r == if old(self).current < old(self).source.len() {
                Some(old(self).source@[old(self).current as int])
            } else {
                None
            },
            final(self).current == old(self).current + if r is Some {
                1int
            } else {
                0int
            },
    {
        if self.is_at_end() {
            return None;
        }
        let consumed_char = self.source[self.current];
        self.current += 1;
        Some(consumed_char)
    }

    /// Adds a token for the text between `start` and the current position,
    /// on the line where that text started.
    fn add_token(&mut self, token_type: TokenType)
        requires
            old(self).well_formed(),
        ensures
            final(self).current == old(self).current,
            final(self).pushed(old(self), token_type.spec_kind(), token_type.payload()),
    {
        let text = string_of(&self.source, self.start, self.current);
        let token = Token { token_type, lexeme: text, line: self.start_line };
        self.tokens.push(token);
        assert(self.tokens@.drop_last() =~= old(self).tokens@);
    }
}

/// The token of a word is that of a reserved word or an identifier.
proof fn lemma_word_kinds(from: int, text: Seq<char>)
    requires
        0 <= from,
    ensures
        ({
            let kind = word_kind(keywords(), from, text);
            kind == TokenKind::And || kind == TokenKind::Class || kind == TokenKind::Else || kind
                == TokenKind::False || kind == TokenKind::For || kind == TokenKind::Fun || kind
                == TokenKind::If || kind == TokenKind::Nil || kind == TokenKind::Or || kind
                == TokenKind::Print || kind == TokenKind::Return || kind == TokenKind::Super
                || kind == TokenKind::This || kind == TokenKind::True || kind == TokenKind::Var
                || kind == TokenKind::While || kind == TokenKind::Identifier
        }),
    decreases keywords().len() - from,
{
    if from < keywords().len() {
        lemma_word_kinds(from + 1, text);
    }
}

} // verus!
