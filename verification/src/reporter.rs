//! Diagnostics and the sinks that receive them.
//!
//! A diagnostic is either static (found while scanning or parsing) or a
//! runtime error. Nothing here writes to a stream: a reporter keeps what it
//! was handed, and the embedding program writes it out.

use crate::text::{decimal_text, push_decimal, push_text};
use vstd::prelude::*;

verus! {

/// One report, as it was handed to a reporter.
#[derive(Debug, PartialEq, Eq)]
pub enum Diagnostic {
    Static { line: usize, location: String, message: String },
    Runtime { line: usize, message: String },
}

/// One report as a mathematical value.
pub enum DiagnosticView {
    Static { line: nat, location: Seq<char>, message: Seq<char> },
    Runtime { line: nat, message: Seq<char> },
}

impl View for Diagnostic {
    type V = DiagnosticView;

    open spec fn view(&self) -> DiagnosticView {
        match self {
            Diagnostic::Static { line, location, message } => DiagnosticView::Static {
                line: *line as nat,
                location: location@,
                message: message@,
            },
            Diagnostic::Runtime { line, message } => DiagnosticView::Runtime {
                line: *line as nat,
                message: message@,
            },
        }
    }
}

/// `[line N] Error<location>: <message>`.
pub open spec fn static_text(line: nat, location: Seq<char>, message: Seq<char>) -> Seq<char> {
    "[line "@ + decimal_text(line) + "] Error"@ + location + ": "@ + message
}

/// The message, then on a line of its own `[line N]`.
pub open spec fn runtime_text(line: nat, message: Seq<char>) -> Seq<char> {
    message + "\n[line "@ + decimal_text(line) + "]"@
}

/// The text of a diagnostic as it is written to standard error.
pub open spec fn diagnostic_text(diagnostic: DiagnosticView) -> Seq<char> {
    match diagnostic {
        DiagnosticView::Static { line, location, message } => static_text(
            line,
            location,
            message,
        ),
        DiagnosticView::Runtime { line, message } => runtime_text(line, message),
    }
}

/// Some report of the sequence is a static one.
pub open spec fn any_static(reports: Seq<DiagnosticView>) -> bool {
    exists|i: int| 0 <= i < reports.len() && #[trigger] reports[i] is Static
}

/// Some report of the sequence is a runtime one.
pub open spec fn any_runtime(reports: Seq<DiagnosticView>) -> bool {
    exists|i: int| 0 <= i < reports.len() && #[trigger] reports[i] is Runtime
}

/// What a reporter holds, or `None` where none is attached.
pub type Sink = Option<Seq<DiagnosticView>>;

/// The sink with one more report, where a reporter is attached.
pub open spec fn reported_to(sink: Sink, fault: DiagnosticView) -> Sink {
    match sink {
        Some(reports) => Some(reports.push(fault)),
        None => None,
    }
}

/// The sink with the report of a step that may have failed.
pub open spec fn reported_if(sink: Sink, fault: Option<DiagnosticView>) -> Sink {
    match fault {
        Some(fault) => reported_to(sink, fault),
        None => sink,
    }
}

/// The sink with some more reports in order, where a reporter is attached.
pub open spec fn reported_all_to(sink: Sink, faults: Seq<DiagnosticView>) -> Sink {
    match sink {
        Some(reports) => Some(reports + faults),
        None => None,
    }
}

/// `after` holds what `before` held and, behind it, static reports only;
/// without a reporter both hold nothing.
pub open spec fn only_static_added(before: Sink, after: Sink) -> bool {
    match (before, after) {
        (Some(b), Some(a)) => b.len() <= a.len() && a.subrange(0, b.len() as int) == b && forall|
            i: int,
        |
            b.len() <= i < a.len() ==> (#[trigger] a[i]) is Static,
        (None, None) => true,
        _ => false,
    }
}

/// A sink adds nothing to itself, and a static report is a static addition.
pub proof fn lemma_static_step(sink: Sink, fault: DiagnosticView)
    ensures
        only_static_added(sink, sink),
        fault is Static ==> only_static_added(sink, reported_to(sink, fault)),
{
    match sink {
        Some(b) => {
            assert(b.subrange(0, b.len() as int) =~= b);
            assert(b.push(fault).subrange(0, b.len() as int) =~= b);
        },
        None => {},
    }
}

/// Static additions to static additions are static additions.
pub proof fn lemma_static_chain(a: Sink, b: Sink, c: Sink)
    requires
        only_static_added(a, b),
        only_static_added(b, c),
    ensures
        only_static_added(a, c),
{
    match (a, b, c) {
        (Some(x), Some(y), Some(z)) => {
            assert(z.subrange(0, x.len() as int) =~= x) by {
                assert forall|i: int| 0 <= i < x.len() implies z[i] == x[i] by {
                    assert(y.subrange(0, x.len() as int)[i] == x[i]);
                    assert(z.subrange(0, y.len() as int)[i] == y[i]);
                }
            }
            assert forall|i: int| x.len() <= i < z.len() implies (#[trigger] z[i]) is Static by {
                if i < y.len() {
                    assert(z.subrange(0, y.len() as int)[i] == y[i]);
                }
            }
        },
        _ => {},
    }
}

/// Static additions leave the runtime reports as they were.
pub proof fn lemma_static_keeps_runtime(before: Seq<DiagnosticView>, after: Seq<DiagnosticView>)
    requires
        only_static_added(Some(before), Some(after)),
    ensures
        any_runtime(after) == any_runtime(before),
{
    if any_runtime(before) {
        let i = choose|i: int| 0 <= i < before.len() && #[trigger] before[i] is Runtime;
        assert(after.subrange(0, before.len() as int)[i] == before[i]);
        assert(after[i] is Runtime);
    }
    if any_runtime(after) {
        let i = choose|i: int| 0 <= i < after.len() && #[trigger] after[i] is Runtime;
        assert(i < before.len());
        assert(after.subrange(0, before.len() as int)[i] == before[i]);
        assert(before[i] is Runtime);
    }
}

/// The sink that an optional reporter stands for.
pub open spec fn sink_of<R: ErrorReporter>(reporter: Option<R>) -> Sink {
    match reporter {
        Some(reporter) => Some(reporter.reports()),
        None => None,
    }
}

/// The text of a static diagnostic.
pub fn report(line: usize, where_occurred: &str, message: &str) -> (r: String)
    ensures
        r@ == static_text(line as nat, where_occurred@, message@),
{
    let mut out = String::new();
    push_text(&mut out, "[line ");
    push_decimal(&mut out, line);
    push_text(&mut out, "] Error");
    push_text(&mut out, where_occurred);
    push_text(&mut out, ": ");
    push_text(&mut out, message);
    assert(out@ == static_text(line as nat, where_occurred@, message@));
    out
}

/// The text of a static diagnostic that names no place in the line.
pub fn error(line: usize, message: &str) -> (r: String)
    ensures
        r@ == static_text(line as nat, Seq::empty(), message@),
{
    let mut out = String::new();
    push_text(&mut out, "[line ");
    push_decimal(&mut out, line);
    push_text(&mut out, "] Error");
    push_text(&mut out, ": ");
    push_text(&mut out, message);
    assert(out@ == static_text(line as nat, Seq::empty(), message@));
    out
}

/// The text of a runtime diagnostic.
pub fn report_runtime(line: usize, message: &str) -> (r: String)
    ensures
        r@ == runtime_text(line as nat, message@),
{
    let mut out = String::new();
    push_text(&mut out, message);
    push_text(&mut out, "\n[line ");
    push_decimal(&mut out, line);
    push_text(&mut out, "]");
    assert(out@ == runtime_text(line as nat, message@));
    out
}

/// A sink for diagnostics.
///
/// `reports` is everything the sink was handed, in order; each operation
/// adds one report to it.
pub trait ErrorReporter {
    spec fn reports(&self) -> Seq<DiagnosticView>;

    /// Takes a static diagnostic: a lexical or a parse error.
    fn report(&mut self, line: usize, where_occurred: &str, message: &str)
        ensures
            final(self).reports() == old(self).reports().push(
                DiagnosticView::Static {
                    line: line as nat,
                    location: where_occurred@,
                    message: message@,
                },
            ),
    ;

    /// Takes a runtime error.
    fn report_runtime(&mut self, line: usize, message: &str)
        ensures
            final(self).reports() == old(self).reports().push(
                DiagnosticView::Runtime { line: line as nat, message: message@ },
            ),
    ;
}

/// The views of a sequence of diagnostics.
pub open spec fn diagnostic_views(entries: Seq<Diagnostic>) -> Seq<DiagnosticView> {
    entries.map_values(|d: Diagnostic| d@)
}

/// A reporter that keeps every diagnostic as a value.
#[derive(Debug)]
pub struct LogReporter {
    had_error: bool,
    had_runtime_error: bool,
    entries: Vec<Diagnostic>,
}

impl LogReporter {
    #[verifier::type_invariant]
    spec fn consistent(&self) -> bool {
        &&& self.had_error == any_static(diagnostic_views(self.entries@))
        &&& self.had_runtime_error == any_runtime(diagnostic_views(self.entries@))
    }

    /// A reporter that was handed nothing yet.
    pub fn new() -> (r: LogReporter)
        ensures
            r.reports() == Seq::<DiagnosticView>::empty(),
    {
        let r = LogReporter { had_error: false, had_runtime_error: false, entries: Vec::new() };
        assert(diagnostic_views(r.entries@) == Seq::<DiagnosticView>::empty());
        r
    }

    /// Whether a lexical or parse error was reported.
    pub fn is_had_error(&self) -> (r: bool)
        ensures
            r == any_static(self.reports()),
    {
        proof {
            use_type_invariant(self);
        }
        self.had_error
    }

    /// Whether a runtime error was reported.
    pub fn is_had_runtime_error(&self) -> (r: bool)
        ensures
            r == any_runtime(self.reports()),
    {
        proof {
            use_type_invariant(self);
        }
        self.had_runtime_error
    }

    /// What was reported, in order.
    pub fn entries(&self) -> (r: &Vec<Diagnostic>)
        ensures
            diagnostic_views(r@) == self.reports(),
    {
        &self.entries
    }
}

pub proof fn lemma_any_after_push(reports: Seq<DiagnosticView>, last: DiagnosticView)
    ensures
        any_static(reports.push(last)) == (any_static(reports) || last is Static),
        any_runtime(reports.push(last)) == (any_runtime(reports) || last is Runtime),
{
    let all = reports.push(last);
    assert(all[reports.len() as int] == last);
    if any_static(reports) {
        let i = choose|i: int| 0 <= i < reports.len() && #[trigger] reports[i] is Static;
        assert(all[i] is Static);
    }
    if any_runtime(reports) {
        let i = choose|i: int| 0 <= i < reports.len() && #[trigger] reports[i] is Runtime;
        assert(all[i] is Runtime);
    }
    if any_static(all) {
        let i = choose|i: int| 0 <= i < all.len() && #[trigger] all[i] is Static;
        if i < reports.len() {
            assert(reports[i] is Static);
        }
    }
    if any_runtime(all) {
        let i = choose|i: int| 0 <= i < all.len() && #[trigger] all[i] is Runtime;
        if i < reports.len() {
            assert(reports[i] is Runtime);
        }
    }
}

impl LogReporter {
    /// Adds one entry and sets the flag of its kind.
    fn append(&mut self, entry: Diagnostic)
        ensures
            final(self).reports() == old(self).reports().push(entry@),
    {
        let mut taken = LogReporter::new();
        core::mem::swap(self, &mut taken);
        proof {
            use_type_invariant(&taken);
            lemma_any_after_push(diagnostic_views(taken.entries@), entry@);
            assert(diagnostic_views(taken.entries@.push(entry)) == diagnostic_views(
                taken.entries@,
            ).push(entry@));
        }
        let LogReporter { had_error, had_runtime_error, mut entries } = taken;
        let is_static = match &entry {
            Diagnostic::Static { .. } => true,
            Diagnostic::Runtime { .. } => false,
        };
        entries.push(entry);
        *self = LogReporter {
            had_error: had_error || is_static,
            had_runtime_error: had_runtime_error || !is_static,
            entries,
        };
    }
}

impl Default for LogReporter {
    fn default() -> (r: Self)
        ensures
            r.reports() == Seq::<DiagnosticView>::empty(),
    {
        LogReporter::new()
    }
}

impl ErrorReporter for LogReporter {
    closed spec fn reports(&self) -> Seq<DiagnosticView> {
        diagnostic_views(self.entries@)
    }

    fn report(&mut self, line: usize, where_occurred: &str, message: &str) {
        self.append(
            Diagnostic::Static {
                line,
                location: where_occurred.to_owned(),
                message: message.to_owned(),
            },
        );
    }

    fn report_runtime(&mut self, line: usize, message: &str) {
        self.append(Diagnostic::Runtime { line, message: message.to_owned() });
    }
}

/// The text of each report of a sequence.
pub open spec fn diagnostic_texts(reports: Seq<DiagnosticView>) -> Seq<Seq<char>> {
    reports.map_values(|d: DiagnosticView| diagnostic_text(d))
}

/// The texts of a sequence of lines.
pub open spec fn line_views(lines: Seq<String>) -> Seq<Seq<char>> {
    Seq::new(lines.len(), |i: int| lines[i]@)
}

/// A reporter that keeps, for each diagnostic, the line of text that
/// standard error is to get.
pub struct ConsoleReporter {
    had_error: bool,
    had_runtime_error: bool,
    lines: Vec<String>,
    history: Ghost<Seq<DiagnosticView>>,
}

impl ConsoleReporter {
    #[verifier::type_invariant]
    spec fn consistent(&self) -> bool {
        &&& self.had_error == any_static(self.history@)
        &&& self.had_runtime_error == any_runtime(self.history@)
        &&& line_views(self.lines@) == diagnostic_texts(self.history@)
    }

    /// A reporter that was handed nothing yet.
    pub fn new() -> (r: ConsoleReporter)
        ensures
            r.reports() == Seq::<DiagnosticView>::empty(),
    {
        let lines: Vec<String> = Vec::new();
        assert(line_views(lines@) =~= diagnostic_texts(Seq::empty()));
        ConsoleReporter {
            had_error: false,
            had_runtime_error: false,
            lines,
            history: Ghost(Seq::empty()),
        }
    }

    /// Whether a lexical or parse error was reported.
    pub fn is_had_error(&self) -> (r: bool)
        ensures
            r == any_static(self.reports()),
    {
        proof {
            use_type_invariant(self);
        }
        self.had_error
    }

    /// Whether a runtime error was reported.
    pub fn is_had_runtime_error(&self) -> (r: bool)
        ensures
            r == any_runtime(self.reports()),
    {
        proof {
            use_type_invariant(self);
        }
        self.had_runtime_error
    }

    /// The text of each report, in order.
    pub fn lines(&self) -> (r: &Vec<String>)
        ensures
            line_views(r@) == diagnostic_texts(self.reports()),
    {
        proof {
            use_type_invariant(self);
        }
        &self.lines
    }
}

impl ConsoleReporter {
    /// Adds the text of one report and sets the flag of its kind.
    fn append(&mut self, text: String, entry: Ghost<DiagnosticView>, is_static: bool)
        requires
            text@ == diagnostic_text(entry@),
            is_static == (entry@ is Static),
        ensures
            final(self).reports() == old(self).reports().push(entry@),
    {
        let mut taken = ConsoleReporter::new();
        core::mem::swap(self, &mut taken);
        proof {
            use_type_invariant(&taken);
            lemma_any_after_push(taken.history@, entry@);
            let before = line_views(taken.lines@);
            let after = line_views(taken.lines@.push(text));
            assert(before.len() == taken.history@.len());
            assert forall|i: int| 0 <= i < after.len() implies after[i] == diagnostic_texts(
                taken.history@.push(entry@),
            )[i] by {
                if i < before.len() {
                    assert(after[i] == before[i]);
                    assert(before[i] == diagnostic_texts(taken.history@)[i]);
                }
            }
            assert(after =~= diagnostic_texts(taken.history@.push(entry@)));
        }
        let ConsoleReporter { had_error, had_runtime_error, mut lines, history } = taken;
        lines.push(text);
        *self = ConsoleReporter {
            had_error: had_error || is_static,
            had_runtime_error: had_runtime_error || !is_static,
            lines,
            history: Ghost(history@.push(entry@)),
        };
    }
}

impl Default for ConsoleReporter {
    fn default() -> (r: Self)
        ensures
            r.reports() == Seq::<DiagnosticView>::empty(),
    {
        ConsoleReporter::new()
    }
}

impl ErrorReporter for ConsoleReporter {
    closed spec fn reports(&self) -> Seq<DiagnosticView> {
        self.history@
    }

    fn report(&mut self, line: usize, where_occurred: &str, message: &str) {
        let text = self::report(line, where_occurred, message);
        let ghost entry = DiagnosticView::Static {
            line: line as nat,
            location: where_occurred@,
            message: message@,
        };
        self.append(text, Ghost(entry), true);
    }

    fn report_runtime(&mut self, line: usize, message: &str) {
        let text = self::report_runtime(line, message);
        let ghost entry = DiagnosticView::Runtime { line: line as nat, message: message@ };
        self.append(text, Ghost(entry), false);
    }
}

} // verus!
