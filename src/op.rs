//! The operations an expression node can perform.
use vstd::prelude::*;

verus! {

/// A binary operation. It names both the kind of a binary node and the way a
/// node's result is combined into an existing target (`target op= node`).
#[derive(Clone, Copy, Debug, PartialEq, Eq, Structural)]
pub enum Op {
    Add,
    Sub,
    Mul,
    Div,
    /// `target = target ^ node`.
    Pow,
}

/// A unary operation, applied in place to a target dual number.
#[derive(Clone, Copy, Debug, PartialEq, Eq, Structural)]
pub enum UnOp {
    Neg,
    Sin,
    Cos,
    Sqrt,
    Ln,
    Exp,
}

} // verus!
