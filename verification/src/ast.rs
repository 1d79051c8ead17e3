//! Runtime values and the syntax tree.

use crate::number::{renders_as, Number, Numerics};
use crate::text::push_text;
use crate::tokens::{Token, TokenView};
use vstd::prelude::*;

verus! {

/// A runtime value.
#[derive(Debug, PartialEq)]
pub enum Value {
    Number(Number),
    String(String),
    Bool(bool),
    Nil,
}

/// A runtime value as a mathematical value.
pub enum ValueView {
    Number(Number),
    Text(Seq<char>),
    Bool(bool),
    Nil,
}

impl View for Value {
    type V = ValueView;

    open spec fn view(&self) -> ValueView {
        match self {
            Value::Number(n) => ValueView::Number(*n),
            Value::String(s) => ValueView::Text(s@),
            Value::Bool(b) => ValueView::Bool(*b),
            Value::Nil => ValueView::Nil,
        }
    }
}

impl Clone for Value {
    fn clone(&self) -> (r: Self)
        ensures
            r == *self,
    {
        match self {
            Value::Number(n) => Value::Number(*n),
            Value::String(s) => Value::String(s.clone()),
            Value::Bool(b) => Value::Bool(*b),
            Value::Nil => Value::Nil,
        }
    }
}

/// The text of a value: the decimal text of a number, a string as it is,
/// `true` or `false`, `nil`.
pub open spec fn value_text<N: Numerics>(numerics: &N, value: ValueView, text: Seq<char>) -> bool {
    match value {
        ValueView::Number(n) => renders_as(numerics, n, text),
        ValueView::Text(s) => text == s,
        ValueView::Bool(b) => text == if b {
            "true"@
        } else {
            "false"@
        },
        ValueView::Nil => text == "nil"@,
    }
}

impl Value {
    pub fn as_number(&self) -> (r: Option<Number>)
        ensures
            r == match self@ {
                ValueView::Number(n) => Some(n),
                _ => None,
            },
    {
        match self {
            Value::Number(n) => Some(*n),
            _ => None,
        }
    }

    pub fn as_string(&self) -> (r: Option<String>)
        ensures
            match self@ {
                ValueView::Text(s) => r is Some && r->0@ == s,
                _ => r is None,
            },
    {
        match self {
            Value::String(s) => Some(s.clone()),
            _ => None,
        }
    }

    pub fn as_bool(&self) -> (r: Option<bool>)
        ensures
            r == match self@ {
                ValueView::Bool(b) => Some(b),
                _ => None,
            },
    {
        match self {
            Value::Bool(b) => Some(*b),
            _ => None,
        }
    }

    pub fn is_number(&self) -> (r: bool)
        ensures
            r == (self@ is Number),
    {
        match self {
            Value::Number(_) => true,
            _ => false,
        }
    }

    pub fn is_string(&self) -> (r: bool)
        ensures
            r == (self@ is Text),
    {
        match self {
            Value::String(_) => true,
            _ => false,
        }
    }

    pub fn is_bool(&self) -> (r: bool)
        ensures
            r == (self@ is Bool),
    {
        match self {
            Value::Bool(_) => true,
            _ => false,
        }
    }

    pub fn is_nil(&self) -> (r: bool)
        ensures
            r == (self@ is Nil),
    {
        match self {
            Value::Nil => true,
            _ => false,
        }
    }

    /// The text that a print statement writes for this value.
    pub fn stringify<N: Numerics>(&self, numerics: &N) -> (r: String)
        ensures
            value_text(numerics, self@, r@),
    {
        match self {
            Value::Number(n) => numerics.render(*n),
            Value::String(s) => s.clone(),
            Value::Bool(b) => {
                if *b {
                    "true".to_owned()
                } else {
                    "false".to_owned()
                }
            },
            Value::Nil => "nil".to_owned(),
        }
    }
}

/// An expression.
#[derive(Debug, PartialEq)]
pub enum Expr {
    Binary { left: Box<Expr>, operator: Token, right: Box<Expr> },
    Unary { operator: Token, right: Box<Expr> },
    Grouping(Box<Expr>),
    Literal(Value),
    Variable(Token),
    Assign(Token, Box<Expr>),
}

/// An expression as a mathematical value.
pub enum ExprView {
    Binary { left: Box<ExprView>, operator: TokenView, right: Box<ExprView> },
    Unary { operator: TokenView, right: Box<ExprView> },
    Grouping(Box<ExprView>),
    Literal(ValueView),
    Variable(TokenView),
    Assign(TokenView, Box<ExprView>),
}

impl Expr {
    /// The expression as a mathematical value.
    pub open spec fn model(&self) -> ExprView
        decreases self,
    {
        match self {
            Expr::Binary { left, operator, right } => ExprView::Binary {
                left: Box::new((**left).model()),
                operator: operator@,
                right: Box::new((**right).model()),
            },
            Expr::Unary { operator, right } => ExprView::Unary {
                operator: operator@,
                right: Box::new((**right).model()),
            },
            Expr::Grouping(inner) => ExprView::Grouping(Box::new((**inner).model())),
            Expr::Literal(value) => ExprView::Literal(value@),
            Expr::Variable(name) => ExprView::Variable(name@),
            Expr::Assign(name, value) => ExprView::Assign(name@, Box::new((**value).model())),
        }
    }
}

impl View for Expr {
    type V = ExprView;

    open spec fn view(&self) -> ExprView {
        self.model()
    }
}

/// A statement.
#[derive(Debug, PartialEq)]
pub enum Stmt {
    Block(Box<Vec<Stmt>>),
    Expression(Expr),
    Print(Expr),
    Var(Token, Option<Expr>),
}

/// A statement as a mathematical value.
pub enum StmtView {
    Block(Seq<StmtView>),
    Expression(ExprView),
    Print(ExprView),
    Var(TokenView, Option<ExprView>),
}

impl Stmt {
    /// The statement as a mathematical value.
    pub open spec fn model(&self) -> StmtView
        decreases self,
    {
        match self {
            Stmt::Block(statements) => StmtView::Block(
                Seq::new(
                    statements@.len(),
                    |i: int|
                        if 0 <= i < statements@.len() {
                            statements@[i].model()
                        } else {
                            StmtView::Block(Seq::empty())
                        },
                ),
            ),
            Stmt::Expression(expr) => StmtView::Expression(expr@),
            Stmt::Print(expr) => StmtView::Print(expr@),
            Stmt::Var(name, initializer) => StmtView::Var(
                name@,
                match initializer {
                    Some(expr) => Some(expr@),
                    None => None,
                },
            ),
        }
    }
}

impl View for Stmt {
    type V = StmtView;

    open spec fn view(&self) -> StmtView {
        self.model()
    }
}

/// The views of a sequence of statements.
pub open spec fn stmt_views(statements: Seq<Stmt>) -> Seq<StmtView> {
    Seq::new(statements.len(), |i: int| statements[i].model())
}

/// The view of a block is made of the views of its statements.
pub proof fn lemma_block_view(statements: Vec<Stmt>)
    ensures
        Stmt::Block(Box::new(statements))@ == StmtView::Block(stmt_views(statements@)),
{
    let stmt = Stmt::Block(Box::new(statements));
    assert(stmt@->Block_0 =~= stmt_views(statements@));
}

/// `(` name, then a space and a part for each part, then `)`.
pub open spec fn parenthesized(name: Seq<char>, parts: Seq<Seq<char>>) -> Seq<char> {
    seq!['('] + name + spaced(parts) + seq![')']
}

/// `(operator operand)`.
pub open spec fn unary_text(operator: Seq<char>, operand: Seq<char>) -> Seq<char> {
    parenthesized(operator, seq![operand])
}

/// `(operator left right)`.
pub open spec fn binary_text(operator: Seq<char>, left: Seq<char>, right: Seq<char>) -> Seq<char> {
    parenthesized(operator, seq![left, right])
}

/// Each part with a space before it.
pub open spec fn spaced(parts: Seq<Seq<char>>) -> Seq<char>
    decreases parts.len(),
{
    if parts.len() == 0 {
        Seq::empty()
    } else {
        spaced(parts.drop_last()) + seq![' '] + parts.last()
    }
}

/// The text of an expression: a literal as written in source (a string
/// between double quotes), a variable by its name, every other node as its
/// operator followed by its operands in source order, between parentheses.
pub open spec fn expr_text<N: Numerics>(numerics: &N, expr: ExprView, text: Seq<char>) -> bool
    decreases expr,
{
    match expr {
        ExprView::Binary { left, operator, right } => exists|l: Seq<char>, r: Seq<char>|
            #![trigger binary_text(operator.lexeme, l, r)]
            expr_text(numerics, *left, l) && expr_text(numerics, *right, r) && text
                == binary_text(operator.lexeme, l, r),
        ExprView::Unary { operator, right } => exists|r: Seq<char>|
            #![trigger unary_text(operator.lexeme, r)]
            expr_text(numerics, *right, r) && text == unary_text(operator.lexeme, r),
        ExprView::Grouping(inner) => exists|r: Seq<char>|
            #![trigger unary_text("group"@, r)]
            expr_text(numerics, *inner, r) && text == unary_text("group"@, r),
        ExprView::Literal(value) => match value {
            ValueView::Text(s) => text == seq!['"'] + s + seq!['"'],
            _ => value_text(numerics, value, text),
        },
        ExprView::Variable(name) => text == name.lexeme,
        ExprView::Assign(name, value) => exists|r: Seq<char>|
            #![trigger binary_text("assign"@, name.lexeme, r)]
            expr_text(numerics, *value, r) && text == binary_text("assign"@, name.lexeme, r),
    }
}

/// `(name part)`.
fn parenthesize_one(name: &str, part: &String) -> (r: String)
    ensures
        r@ == parenthesized(name@, seq![part@]),
{
    let mut out = String::new();
    out.push('(');
    push_text(&mut out, name);
    out.push(' ');
    push_text(&mut out, part.as_str());
    out.push(')');
    proof {
        let parts = seq![part@];
        assert(parts.drop_last() == Seq::<Seq<char>>::empty());
        assert(spaced(parts.drop_last()) == Seq::<char>::empty());
        assert(spaced(parts) == Seq::<char>::empty() + seq![' '] + part@);
        assert(out@ == parenthesized(name@, parts));
    }
    out
}

/// `(name first second)`.
fn parenthesize_two(name: &str, first: &String, second: &String) -> (r: String)
    ensures
        r@ == parenthesized(name@, seq![first@, second@]),
{
    let mut out = String::new();
    out.push('(');
    push_text(&mut out, name);
    out.push(' ');
    push_text(&mut out, first.as_str());
    out.push(' ');
    push_text(&mut out, second.as_str());
    out.push(')');
    proof {
        let parts = seq![first@, second@];
        let head = seq![first@];
        assert(parts.drop_last() == head);
        assert(head.drop_last() == Seq::<Seq<char>>::empty());
        assert(spaced(head.drop_last()) == Seq::<char>::empty());
        assert(spaced(head) == Seq::<char>::empty() + seq![' '] + first@);
        assert(spaced(parts) == spaced(head) + seq![' '] + second@);
        assert(out@ == parenthesized(name@, parts));
    }
    out
}

impl Expr {
    /// The expression in prefix notation, fully parenthesized.
    pub fn stringify<N: Numerics>(&self, numerics: &N) -> (r: String)
        ensures
            expr_text(numerics, self@, r@),
        decreases self,
    {
        match self {
            Expr::Binary { left, operator, right } => {
                let first = left.stringify(numerics);
                let second = right.stringify(numerics);
                let out = parenthesize_two(operator.lexeme.as_str(), &first, &second);
                proof {
                    let lv = (**left).model();
                    let rv = (**right).model();
                    assert(expr_text(numerics, lv, first@));
                    assert(expr_text(numerics, rv, second@));
                    assert(out@ == binary_text(operator@.lexeme, first@, second@));
                }
                out
            },
            Expr::Literal(value) => match value {
                Value::String(s) => {
                    let mut out = String::new();
                    out.push('"');
                    push_text(&mut out, s.as_str());
                    out.push('"');
                    assert(out@ == seq!['"'] + s@ + seq!['"']);
                    out
                },
                _ => value.stringify(numerics),
            },
            Expr::Unary { operator, right } => {
                let r = right.stringify(numerics);
                let out = parenthesize_one(operator.lexeme.as_str(), &r);
                assert(expr_text(numerics, (**right).model(), r@));
                assert(out@ == unary_text(operator@.lexeme, r@));
                out
            },
            Expr::Grouping(inner) => {
                let r = inner.stringify(numerics);
                let out = parenthesize_one("group", &r);
                assert(expr_text(numerics, (**inner).model(), r@));
                assert(out@ == unary_text("group"@, r@));
                out
            },
            Expr::Variable(name) => name.lexeme.clone(),
            Expr::Assign(name, value) => {
                let r = value.stringify(numerics);
                let out = parenthesize_two("assign", &name.lexeme, &r);
                assert(expr_text(numerics, (**value).model(), r@));
                assert(out@ == binary_text("assign"@, name@.lexeme, r@));
                out
            },
        }
    }
}

} // verus!
