//! The syntax tree printer.

use crate::ast::{expr_text, Expr};
use crate::number::Numerics;
use vstd::prelude::*;

verus! {

/// The expression in prefix notation, fully parenthesized.
pub fn print_asp<N: Numerics>(expr: &Expr, numerics: &N) -> (r: String)
    ensures
        expr_text(numerics, expr@, r@),
{
    expr.stringify(numerics)
}

} // verus!
