//! Forward-mode automatic differentiation by expression templates.
//!
//! Expressions over dual numbers are closed trees ([`xpr::Xpr`]). Evaluating one
//! follows the assign protocol: the root is assigned into a target and every
//! further operand is folded into that target, so that chains of `+` and `-`
//! need no temporary at all. [`plan::lower`] turns a tree into the straight-line
//! list of primitive dual-number updates that the protocol performs, and the
//! proofs in [`plan`] and [`laws`] show that running that list yields exactly
//! the value and derivative that the chain rule gives. [`gradient::seed_order`]
//! fixes the order in which a gradient seeds its inputs.
//!
//! The arithmetic of each step on concrete numbers is left to the caller, who
//! runs the plan on its own number type.

pub mod op;
pub mod xpr;
pub mod plan;
pub mod laws;
pub mod gradient;
