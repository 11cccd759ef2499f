//! The term contract: how a user's expression type is taken apart into, and
//! rebuilt from, a tree of tagged operators.

use vstd::prelude::*;

verus! {

/// A concrete expression tree: an operator tag and its ordered arguments.
#[derive(Debug)]
pub struct Expr {
    pub op: u64,
    pub args: Vec<Expr>,
}

impl Expr {
    /// Builds the expression `op(args...)`.
    pub fn new(op: u64, args: Vec<Expr>) -> (r: Expr)
        ensures
            r.op == op,
            r.args == args,
    {
        Expr { op, args }
    }

    /// The leaf `op()`.
    pub fn leaf(op: u64) -> (r: Expr)
        ensures
            r.op == op,
            r.args@.len() == 0,
    {
        Expr { op, args: Vec::new() }
    }
}

/// An expression type that can be stored in a graph.
///
/// An implementor says how a value is taken apart into an [`Expr`] and how
/// one is rebuilt from an [`Expr`].
pub trait Type: Sized {
    /// Converts a value to its expression tree.
    fn into_ty(self) -> Expr;

    /// Rebuilds a value from an expression tree.
    fn from_ty(ty: Expr) -> Self;

    /// Whether values of this type are literals.
    fn is_lit() -> bool;
}

} // verus!
