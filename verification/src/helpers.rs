//! The listing of a program's statements, for the embedding program to
//! print.

use crate::ast::{expr_text, stmt_views, Stmt, StmtView};
use crate::number::Numerics;
use crate::reporter::line_views;
use crate::text::push_text;
use vstd::prelude::*;

verus! {

/// `indent` tab characters.
pub open spec fn tabs(indent: nat) -> Seq<char> {
    Seq::new(indent, |i: int| '\t')
}

/// The indentation of a listing line: one tab for each level.
pub fn gen_indent(indent: usize) -> (r: String)
    ensures
        r@ == tabs(indent as nat),
{
    let mut out = String::new();
    let mut i: usize = 0;
    while i < indent
        invariant
            i <= indent,
            out@ == tabs(i as nat),
        decreases indent - i,
    {
        out.push('\t');
        i += 1;
        assert(out@ =~= tabs(i as nat));
    }
    assert(out@ =~= tabs(indent as nat));
    out
}

/// One line of a listing: the indentation, the label and the text.
pub open spec fn listing_line(indent: nat, label: Seq<char>, text: Seq<char>) -> Seq<char> {
    tabs(indent) + label + text
}

/// The level of the statements of a block that stands at level `indent`:
/// one more, as long as the number fits the machine.
pub open spec fn deeper(indent: nat) -> nat {
    if indent < usize::MAX {
        indent + 1
    } else {
        indent
    }
}

/// The lines `before` followed by the lines `last`.
pub open spec fn listed_after(before: Seq<Seq<char>>, last: Seq<Seq<char>>) -> Seq<Seq<char>> {
    before + last
}

/// `lines` is a listing of the statement at level `indent`: one line with the
/// kind of the statement and the text of its expression, or, for a block,
/// the listing of its statements one level deeper.
pub open spec fn lists_statement<N: Numerics>(
    numerics: &N,
    stmt: StmtView,
    indent: nat,
    lines: Seq<Seq<char>>,
) -> bool
    decreases stmt, 0nat,
{
    match stmt {
        StmtView::Expression(expr) => exists|text: Seq<char>|
            #![trigger listing_line(indent, "Expression: "@, text)]
            expr_text(numerics, expr, text) && lines == seq![
                listing_line(indent, "Expression: "@, text),
            ],
        StmtView::Print(expr) => exists|text: Seq<char>|
            #![trigger listing_line(indent, "Print: "@, text)]
            expr_text(numerics, expr, text) && lines == seq![
                listing_line(indent, "Print: "@, text),
            ],
        StmtView::Var(name, initializer) => exists|text: Seq<char>|
            #![trigger listing_line(indent, "Var: "@ + name.lexeme + " = "@, text)]
            (match initializer {
                Some(expr) => expr_text(numerics, expr, text),
                None => text == "nil"@,
            }) && lines == seq![listing_line(indent, "Var: "@ + name.lexeme + " = "@, text)],
        StmtView::Block(statements) => lists_first(
            numerics,
            statements,
            statements.len(),
            deeper(indent),
            lines,
        ),
    }
}

/// `lines` is a listing of the first `count` of `statements` at level
/// `indent`: the heading `Statements:`, then the listing of each statement in
/// order.
pub open spec fn lists_first<N: Numerics>(
    numerics: &N,
    statements: Seq<StmtView>,
    count: nat,
    indent: nat,
    lines: Seq<Seq<char>>,
) -> bool
    decreases statements, count,
{
    if count == 0 || count > statements.len() {
        lines == seq!["Statements:"@]
    } else {
        exists|before: Seq<Seq<char>>, last: Seq<Seq<char>>|
            #![trigger listed_after(before, last)]
            lists_first(numerics, statements, (count - 1) as nat, indent, before)
                && lists_statement(numerics, statements[count - 1], indent, last) && lines
                == listed_after(before, last)
    }
}

/// One line of a listing.
fn line_of(indent: usize, label: &str, text: &String) -> (r: String)
    ensures
        r@ == listing_line(indent as nat, label@, text@),
{
    let mut line = gen_indent(indent);
    push_text(&mut line, label);
    push_text(&mut line, text.as_str());
    line
}

/// The listing of the statements at the level `indent`.
pub fn print_statements<N: Numerics>(statements: &[Stmt], indent: usize, numerics: &N) -> (r: Vec<
    String,
>)
    ensures
        lists_first(
            numerics,
            stmt_views(statements@),
            statements@.len(),
            indent as nat,
            line_views(r@),
        ),
    decreases statements@,
{
    let ghost views = stmt_views(statements@);
    let mut lines: Vec<String> = Vec::new();
    lines.push("Statements:".to_owned());
    assert(line_views(lines@) =~= seq!["Statements:"@]);
    let mut i: usize = 0;
    while i < statements.len()
        invariant
            i <= statements.len(),
            views == stmt_views(statements@),
            lists_first(numerics, views, i as nat, indent as nat, line_views(lines@)),
        decreases statements.len() - i,
    {
        let ghost before = line_views(lines@);
        assert(views[i as int] == statements@[i as int]@);
        match &statements[i] {
            Stmt::Expression(expr) => {
                let text = expr.stringify(numerics);
                let line = line_of(indent, "Expression: ", &text);
                lines.push(line);
                proof {
                    let last = seq![listing_line(indent as nat, "Expression: "@, text@)];
                    assert(lists_statement(numerics, views[i as int], indent as nat, last));
                    assert(line_views(lines@) =~= listed_after(before, last));
                }
            },
            Stmt::Print(expr) => {
                let text = expr.stringify(numerics);
                let line = line_of(indent, "Print: ", &text);
                lines.push(line);
                proof {
                    let last = seq![listing_line(indent as nat, "Print: "@, text@)];
                    assert(lists_statement(numerics, views[i as int], indent as nat, last));
                    assert(line_views(lines@) =~= listed_after(before, last));
                }
            },
            Stmt::Var(token, value) => {
                let text = match value {
                    Some(expr) => expr.stringify(numerics),
                    None => "nil".to_owned(),
                };
                let mut label = String::new();
                push_text(&mut label, "Var: ");
                push_text(&mut label, token.lexeme.as_str());
                push_text(&mut label, " = ");
                let line = line_of(indent, label.as_str(), &text);
                lines.push(line);
                proof {
                    let last = seq![
                        listing_line(indent as nat, "Var: "@ + token@.lexeme + " = "@, text@),
                    ];
                    assert(label@ == "Var: "@ + token@.lexeme + " = "@);
                    assert(lists_statement(numerics, views[i as int], indent as nat, last));
                    assert(line_views(lines@) =~= listed_after(before, last));
                }
            },
            Stmt::Block(inner) => {
                let level = if indent < usize::MAX {
                    indent + 1
                } else {
                    indent
                };
                let mut listed = print_statements(inner.as_slice(), level, numerics);
                proof {
                    let last = line_views(listed@);
                    assert(views[i as int]->Block_0 =~= stmt_views(inner@));
                    assert(lists_statement(numerics, views[i as int], indent as nat, last));
                }
                let ghost last = line_views(listed@);
                lines.append(&mut listed);
                assert(line_views(lines@) =~= listed_after(before, last));
            },
        }
        i += 1;
    }
    lines
}

} // verus!
