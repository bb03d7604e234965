//! Expression trees over dual numbers, and their meaning under the chain rule.
use vstd::prelude::*;

use crate::op::{Op, UnOp};

verus! {

/// An expression node. Every node owns its operands; the tree is finite and has
/// no sharing.
#[derive(Debug)]
pub enum Xpr {
    /// The independent dual number at this position of the inputs.
    Var(usize),
    /// A literal real number, held as its IEEE-754 binary64 bit pattern. Its
    /// derivative is zero.
    Const(u64),
    /// `l op r`.
    Bin(Op, Box<Xpr>, Box<Xpr>),
    /// `op(arg)`.
    Un(UnOp, Box<Xpr>),
}

/// An exact dual number: a value and its derivative.
pub struct DualV {
    pub v: int,
    pub d: int,
}

/// How the operations that are not ring operations act on exact values.
///
/// Addition, subtraction, multiplication and negation are exact. Division,
/// powers, logarithms, the unary functions and the reading of a literal are
/// left open: a statement proved over a `Funcs` holds for every choice of them
/// that meets its stated requirements (such as [`quot_is_odd`]).
pub struct Funcs {
    /// The real number that a literal's bit pattern denotes.
    pub lit: spec_fn(u64) -> int,
    /// Quotient of two values.
    pub quot: spec_fn(int, int) -> int,
    /// `base ^ exponent`.
    pub pw: spec_fn(int, int) -> int,
    /// Natural logarithm.
    pub ln: spec_fn(int) -> int,
    /// `op(v)` for the unary functions other than negation.
    pub fv: spec_fn(UnOp, int) -> int,
    /// The slope of `op` at `v`: its derivative with respect to its argument
    /// (`cos(v)` for `sin`, `1 / v` for `ln`, ...).
    pub slope: spec_fn(UnOp, int) -> int,
}

/// What any quotient obeys: negating either operand negates the quotient.
pub open spec fn quot_is_odd(f: Funcs) -> bool {
    forall|a: int, b: int|
        #![trigger (f.quot)(-a, b)]
        #![trigger (f.quot)(a, -b)]
        (f.quot)(-a, b) == -(f.quot)(a, b) && (f.quot)(a, -b) == -(f.quot)(a, b)
}

pub open spec fn dual(v: int, d: int) -> DualV {
    DualV { v, d }
}

/// A constant: derivative zero.
pub open spec fn constant(v: int) -> DualV {
    DualV { v, d: 0 }
}

/// `a op b` on dual numbers, by the sum, difference, product, quotient and
/// generalized power rules.
pub open spec fn combine(f: Funcs, op: Op, a: DualV, b: DualV) -> DualV {
    match op {
        Op::Add => dual(a.v + b.v, a.d + b.d),
        Op::Sub => dual(a.v - b.v, a.d - b.d),
        Op::Mul => dual(a.v * b.v, a.d * b.v + b.d * a.v),
        Op::Div => dual(
            (f.quot)(a.v, b.v),
            (f.quot)((f.quot)(-(a.d * b.v - b.d * a.v), b.v), b.v),
        ),
        Op::Pow => dual(
            (f.pw)(a.v, b.v),
            (f.pw)(a.v, b.v - 1) * (b.d * (f.ln)(a.v) * a.v + b.v * a.d),
        ),
    }
}

/// `op(a)` on a dual number: negation is exact, the other functions follow the
/// chain rule.
pub open spec fn unary(f: Funcs, op: UnOp, a: DualV) -> DualV {
    match op {
        UnOp::Neg => dual(-a.v, -a.d),
        _ => dual((f.fv)(op, a.v), a.d * (f.slope)(op, a.v)),
    }
}

/// Every input position that `e` reads is below `n`.
pub open spec fn reads_below(e: Xpr, n: nat) -> bool
    decreases e,
{
    match e {
        Xpr::Var(i) => i < n,
        Xpr::Const(_) => true,
        Xpr::Bin(_, l, r) => reads_below(*l, n) && reads_below(*r, n),
        Xpr::Un(_, a) => reads_below(*a, n),
    }
}

/// Nesting depth: zero for a leaf.
pub open spec fn depth(e: Xpr) -> nat
    decreases e,
{
    match e {
        Xpr::Var(_) => 0,
        Xpr::Const(_) => 0,
        Xpr::Bin(_, l, r) => 1 + if depth(*l) >= depth(*r) {
            depth(*l)
        } else {
            depth(*r)
        },
        Xpr::Un(_, a) => 1 + depth(*a),
    }
}

/// The value and derivative of `e` when the inputs are `env`.
pub open spec fn eval(e: Xpr, env: Seq<DualV>, f: Funcs) -> DualV
    decreases e,
{
    match e {
        Xpr::Var(i) => env[i as int],
        Xpr::Const(c) => constant((f.lit)(c)),
        Xpr::Bin(op, l, r) => combine(f, op, eval(*l, env, f), eval(*r, env, f)),
        Xpr::Un(op, a) => unary(f, op, eval(*a, env, f)),
    }
}

/// `e` with every input position moved up by `k`.
pub open spec fn shift(e: Xpr, k: nat) -> Xpr
    decreases e,
{
    match e {
        Xpr::Var(i) => Xpr::Var((i + k) as usize),
        Xpr::Const(c) => Xpr::Const(c),
        Xpr::Bin(op, l, r) => Xpr::Bin(op, Box::new(shift(*l, k)), Box::new(shift(*r, k))),
        Xpr::Un(op, a) => Xpr::Un(op, Box::new(shift(*a, k))),
    }
}

/// Moving the input positions up by the length of a prefix of the inputs
/// leaves the meaning unchanged.
pub proof fn lemma_shift_eval(e: Xpr, k: nat, pre: Seq<DualV>, env: Seq<DualV>, f: Funcs)
    requires
        pre.len() == k,
        k <= usize::MAX,
        reads_below(e, env.len()),
        reads_below(e, (usize::MAX + 1 - k) as nat),
    ensures
        eval(shift(e, k), pre + env, f) == eval(e, env, f),
        reads_below(shift(e, k), env.len() + k),
    decreases e,
{
    match e {
        Xpr::Var(i) => {
            let j = (i + k) as usize;
            assert(j as int == i + k);
            assert((pre + env)[j as int] == env[i as int]);
        },
        Xpr::Const(_) => {},
        Xpr::Bin(op, l, r) => {
            lemma_shift_eval(*l, k, pre, env, f);
            lemma_shift_eval(*r, k, pre, env, f);
        },
        Xpr::Un(op, a) => {
            lemma_shift_eval(*a, k, pre, env, f);
        },
    }
}

impl Clone for Xpr {
    fn clone(&self) -> (r: Self)
        ensures
            r == *self,
        decreases self,
    {
        match self {
            Xpr::Var(i) => Xpr::Var(*i),
            Xpr::Const(c) => Xpr::Const(*c),
            Xpr::Bin(op, l, r) => Xpr::Bin(*op, Box::new((**l).clone()), Box::new((**r).clone())),
            Xpr::Un(op, a) => Xpr::Un(*op, Box::new((**a).clone())),
        }
    }
}

impl Xpr {
    /// A copy of the tree that reads input `i + k` wherever this one reads input
    /// `i`: the tree to use once `k` other inputs are placed before its own.
    pub fn shifted(&self, k: usize) -> (r: Xpr)
        requires
            reads_below(*self, (usize::MAX + 1 - k) as nat),
        ensures
            r == shift(*self, k as nat),
            forall|pre: Seq<DualV>, env: Seq<DualV>, f: Funcs|
                pre.len() == k && reads_below(*self, env.len()) ==> #[trigger] eval(
                    r,
                    pre + env,
                    f,
                ) == eval(*self, env, f) && reads_below(r, env.len() + k as nat),
        decreases self,
    {
        let r = match self {
            Xpr::Var(i) => Xpr::Var(*i + k),
            Xpr::Const(c) => Xpr::Const(*c),
            Xpr::Bin(op, l, r) => Xpr::Bin(*op, Box::new(l.shifted(k)), Box::new(r.shifted(k))),
            Xpr::Un(op, a) => Xpr::Un(*op, Box::new(a.shifted(k))),
        };
        proof {
            assert forall|pre: Seq<DualV>, env: Seq<DualV>, f: Funcs|
                pre.len() == k && reads_below(*self, env.len()) implies #[trigger] eval(
                    r,
                    pre + env,
                    f,
                ) == eval(*self, env, f) && reads_below(r, env.len() + k as nat) by {
                lemma_shift_eval(*self, k as nat, pre, env, f);
            }
        }
        r
    }

    /// The nesting depth of the tree, or `None` where it does not fit in `usize`.
    pub fn depth(&self) -> (r: Option<usize>)
        ensures
            r == (if depth(*self) <= usize::MAX {
                Some(depth(*self) as usize)
            } else {
                None::<usize>
            }),
        decreases self,
    {
        match self {
            Xpr::Var(_) => Some(0),
            Xpr::Const(_) => Some(0),
            Xpr::Bin(_, l, r) => {
                match (l.depth(), r.depth()) {
                    (Some(a), Some(b)) => {
                        let m = if a >= b { a } else { b };
                        if m < usize::MAX {
                            Some(m + 1)
                        } else {
                            None
                        }
                    },
                    _ => None,
                }
            },
            Xpr::Un(_, a) => {
                match a.depth() {
                    Some(x) => if x < usize::MAX {
                        Some(x + 1)
                    } else {
                        None
                    },
                    None => None,
                }
            },
        }
    }
}

} // verus!
