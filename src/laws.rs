//! Algebraic and differentiation laws of the values that plans materialize.
//!
//! [`crate::plan::lower`] guarantees that running its plan yields
//! [`eval`] of the tree, so every law below, stated over `eval`, holds of what a
//! lowered plan computes.
use vstd::prelude::*;

use crate::op::{Op, UnOp};
use crate::plan::{lemma_neg_inside, lemma_product_assoc};
use crate::xpr::{combine, dual, eval, quot_is_odd, reads_below, unary, DualV, Funcs, Xpr};

verus! {

/// Bit pattern of the literal `0.0`.
pub const ZERO_BITS: u64 = 0;

/// Bit pattern of the literal `1.0`.
pub const ONE_BITS: u64 = 0x3FF0_0000_0000_0000;

/// The node `a op b`.
pub open spec fn bin(op: Op, a: Xpr, b: Xpr) -> Xpr {
    Xpr::Bin(op, Box::new(a), Box::new(b))
}

/// The node `op(a)`.
pub open spec fn un(op: UnOp, a: Xpr) -> Xpr {
    Xpr::Un(op, Box::new(a))
}

/// Inputs with the given values, where input `i` is seeded (derivative one) and
/// every other input has derivative zero.
pub open spec fn seeded(vals: Seq<int>, i: int) -> Seq<DualV> {
    Seq::new(vals.len(), |k: int| dual(vals[k], if k == i { 1 } else { 0 }))
}

/// Whether `e` reads input `i`.
pub open spec fn reads(e: Xpr, i: int) -> bool
    decreases e,
{
    match e {
        Xpr::Var(k) => k == i,
        Xpr::Const(_) => false,
        Xpr::Bin(_, l, r) => reads(*l, i) || reads(*r, i),
        Xpr::Un(_, a) => reads(*a, i),
    }
}

/// The partial derivatives of `e` at `vals`, one per input, in input order,
/// each from one evaluation with that input alone seeded.
pub open spec fn gradient(e: Xpr, vals: Seq<int>, f: Funcs) -> Seq<int> {
    Seq::new(vals.len(), |i: int| eval(e, seeded(vals, i), f).d)
}

proof fn lemma_eval_bin(op: Op, a: Xpr, b: Xpr, env: Seq<DualV>, f: Funcs)
    ensures
        eval(bin(op, a, b), env, f) == combine(f, op, eval(a, env, f), eval(b, env, f)),
{
    assert(*Box::new(a) == a);
    assert(*Box::new(b) == b);
}

proof fn lemma_eval_un(op: UnOp, a: Xpr, env: Seq<DualV>, f: Funcs)
    ensures
        eval(un(op, a), env, f) == unary(f, op, eval(a, env, f)),
{
    assert(*Box::new(a) == a);
}

/// The literals `0.0` and `1.0` denote zero and one.
pub open spec fn unit_literals(f: Funcs) -> bool {
    (f.lit)(ZERO_BITS) == 0 && (f.lit)(ONE_BITS) == 1
}

/// `x + 0` and `x * 1` are `x`, value and derivative.
pub proof fn lemma_identity(x: Xpr, env: Seq<DualV>, f: Funcs)
    requires
        unit_literals(f),
    ensures
        eval(bin(Op::Add, x, Xpr::Const(ZERO_BITS)), env, f) == eval(x, env, f),
        eval(bin(Op::Mul, x, Xpr::Const(ONE_BITS)), env, f) == eval(x, env, f),
{
    lemma_eval_bin(Op::Add, x, Xpr::Const(ZERO_BITS), env, f);
    lemma_eval_bin(Op::Mul, x, Xpr::Const(ONE_BITS), env, f);
}

/// `a + b` equals `b + a`, and `a * b` equals `b * a`.
pub proof fn lemma_commutative(a: Xpr, b: Xpr, env: Seq<DualV>, f: Funcs)
    ensures
        eval(bin(Op::Add, a, b), env, f) == eval(bin(Op::Add, b, a), env, f),
        eval(bin(Op::Mul, a, b), env, f) == eval(bin(Op::Mul, b, a), env, f),
{
    lemma_eval_bin(Op::Add, a, b, env, f);
    lemma_eval_bin(Op::Add, b, a, env, f);
    lemma_eval_bin(Op::Mul, a, b, env, f);
    lemma_eval_bin(Op::Mul, b, a, env, f);
    let (x, y) = (eval(a, env, f), eval(b, env, f));
    assert(x.v * y.v == y.v * x.v) by (nonlinear_arith);
}

/// `a + b + c` equals `b + c + a`, and `a * b * c` equals `b * c * a`.
pub proof fn lemma_chained(a: Xpr, b: Xpr, c: Xpr, env: Seq<DualV>, f: Funcs)
    ensures
        eval(bin(Op::Add, bin(Op::Add, a, b), c), env, f) == eval(
            bin(Op::Add, bin(Op::Add, b, c), a),
            env,
            f,
        ),
        eval(bin(Op::Mul, bin(Op::Mul, a, b), c), env, f) == eval(
            bin(Op::Mul, bin(Op::Mul, b, c), a),
            env,
            f,
        ),
{
    lemma_eval_bin(Op::Add, a, b, env, f);
    lemma_eval_bin(Op::Add, b, c, env, f);
    lemma_eval_bin(Op::Add, bin(Op::Add, a, b), c, env, f);
    lemma_eval_bin(Op::Add, bin(Op::Add, b, c), a, env, f);
    lemma_eval_bin(Op::Mul, a, b, env, f);
    lemma_eval_bin(Op::Mul, b, c, env, f);
    lemma_eval_bin(Op::Mul, bin(Op::Mul, a, b), c, env, f);
    lemma_eval_bin(Op::Mul, bin(Op::Mul, b, c), a, env, f);
    let (x, y, z) = (eval(a, env, f), eval(b, env, f), eval(c, env, f));
    assert((x.v * y.v) * z.v == (y.v * z.v) * x.v) by (nonlinear_arith);
    assert((x.d * y.v + y.d * x.v) * z.v == x.d * (y.v * z.v) + y.d * (x.v * z.v))
        by (nonlinear_arith);
    assert(z.d * (x.v * y.v) == z.d * (y.v * x.v)) by (nonlinear_arith);
    assert((y.d * z.v + z.d * y.v) * x.v + x.d * (y.v * z.v) == y.d * (x.v * z.v) + z.d * (y.v
        * x.v) + x.d * (y.v * z.v)) by (nonlinear_arith);
}

proof fn lemma_product_commutes(f: Funcs, x: DualV, y: DualV)
    ensures
        combine(f, Op::Mul, x, y) == combine(f, Op::Mul, y, x),
{
    assert(x.v * y.v == y.v * x.v) by (nonlinear_arith);
}

/// `a + b + c + d` equals `d + b + c + a`, and `a * b * c * d` equals
/// `d * b * c * a`.
pub proof fn lemma_chained_four(a: Xpr, b: Xpr, c: Xpr, d: Xpr, env: Seq<DualV>, f: Funcs)
    ensures
        eval(bin(Op::Add, bin(Op::Add, bin(Op::Add, a, b), c), d), env, f) == eval(
            bin(Op::Add, bin(Op::Add, bin(Op::Add, d, b), c), a),
            env,
            f,
        ),
        eval(bin(Op::Mul, bin(Op::Mul, bin(Op::Mul, a, b), c), d), env, f) == eval(
            bin(Op::Mul, bin(Op::Mul, bin(Op::Mul, d, b), c), a),
            env,
            f,
        ),
{
    let (w, x, y, z) = (eval(a, env, f), eval(b, env, f), eval(c, env, f), eval(d, env, f));
    let m = Op::Mul;
    lemma_eval_bin(Op::Add, a, b, env, f);
    lemma_eval_bin(Op::Add, bin(Op::Add, a, b), c, env, f);
    lemma_eval_bin(Op::Add, bin(Op::Add, bin(Op::Add, a, b), c), d, env, f);
    lemma_eval_bin(Op::Add, d, b, env, f);
    lemma_eval_bin(Op::Add, bin(Op::Add, d, b), c, env, f);
    lemma_eval_bin(Op::Add, bin(Op::Add, bin(Op::Add, d, b), c), a, env, f);
    lemma_eval_bin(m, a, b, env, f);
    lemma_eval_bin(m, bin(m, a, b), c, env, f);
    lemma_eval_bin(m, bin(m, bin(m, a, b), c), d, env, f);
    lemma_eval_bin(m, d, b, env, f);
    lemma_eval_bin(m, bin(m, d, b), c, env, f);
    lemma_eval_bin(m, bin(m, bin(m, d, b), c), a, env, f);
    let bc = combine(f, m, x, y);
    // (d b) c = d (b c), and ((d (b c)) a = d ((b c) a)
    lemma_product_assoc(f, z, x, y);
    lemma_product_assoc(f, z, bc, w);
    // (b c) a = (a b) c
    lemma_product_commutes(f, bc, w);
    lemma_product_assoc(f, w, x, y);
    // d ((a b) c) = ((a b) c) d
    lemma_product_commutes(f, z, combine(f, m, combine(f, m, w, x), y));
}

/// `x + (-x)` equals the literal `0`.
pub proof fn lemma_additive_inverse(x: Xpr, env: Seq<DualV>, f: Funcs)
    requires
        unit_literals(f),
    ensures
        eval(bin(Op::Add, x, un(UnOp::Neg, x)), env, f) == eval(Xpr::Const(ZERO_BITS), env, f),
{
    lemma_eval_un(UnOp::Neg, x, env, f);
    lemma_eval_bin(Op::Add, x, un(UnOp::Neg, x), env, f);
}

/// `a - b` equals `-(b - a)`.
pub proof fn lemma_sub_is_negated_sub(a: Xpr, b: Xpr, env: Seq<DualV>, f: Funcs)
    ensures
        eval(bin(Op::Sub, a, b), env, f) == eval(un(UnOp::Neg, bin(Op::Sub, b, a)), env, f),
{
    lemma_eval_bin(Op::Sub, a, b, env, f);
    lemma_eval_bin(Op::Sub, b, a, env, f);
    lemma_eval_un(UnOp::Neg, bin(Op::Sub, b, a), env, f);
}

/// A negated right operand can be moved out: `x + (-y)` is `x - y`, `x - (-y)`
/// is `x + y`, `x * (-y)` is `-(x * y)` and `x / (-y)` is `-(x / y)`.
pub proof fn lemma_negated_operand(x: Xpr, y: Xpr, env: Seq<DualV>, f: Funcs)
    requires
        quot_is_odd(f),
    ensures
        eval(bin(Op::Add, x, un(UnOp::Neg, y)), env, f) == eval(bin(Op::Sub, x, y), env, f),
        eval(bin(Op::Sub, x, un(UnOp::Neg, y)), env, f) == eval(bin(Op::Add, x, y), env, f),
        eval(bin(Op::Mul, x, un(UnOp::Neg, y)), env, f) == eval(
            un(UnOp::Neg, bin(Op::Mul, x, y)),
            env,
            f,
        ),
        eval(bin(Op::Div, x, un(UnOp::Neg, y)), env, f) == eval(
            un(UnOp::Neg, bin(Op::Div, x, y)),
            env,
            f,
        ),
{
    lemma_eval_un(UnOp::Neg, y, env, f);
    lemma_eval_each_op(x, y, env, f);
    lemma_neg_inside(f, Op::Mul, eval(x, env, f), eval(y, env, f));
    lemma_neg_inside(f, Op::Div, eval(x, env, f), eval(y, env, f));
}

proof fn lemma_eval_each_op(x: Xpr, y: Xpr, env: Seq<DualV>, f: Funcs)
    ensures
        forall|op: Op|
            eval(#[trigger] bin(op, x, un(UnOp::Neg, y)), env, f) == combine(
                f,
                op,
                eval(x, env, f),
                eval(un(UnOp::Neg, y), env, f),
            ),
        forall|op: Op| eval(#[trigger] bin(op, x, y), env, f) == combine(
            f,
            op,
            eval(x, env, f),
            eval(y, env, f),
        ),
        forall|op: Op| eval(#[trigger] un(UnOp::Neg, bin(op, x, y)), env, f) == unary(
            f,
            UnOp::Neg,
            eval(bin(op, x, y), env, f),
        ),
{
    assert forall|op: Op| eval(#[trigger] bin(op, x, un(UnOp::Neg, y)), env, f) == combine(
        f,
        op,
        eval(x, env, f),
        eval(un(UnOp::Neg, y), env, f),
    ) by {
        lemma_eval_bin(op, x, un(UnOp::Neg, y), env, f);
    }
    assert forall|op: Op| eval(#[trigger] bin(op, x, y), env, f) == combine(
        f,
        op,
        eval(x, env, f),
        eval(y, env, f),
    ) by {
        lemma_eval_bin(op, x, y, env, f);
    }
    assert forall|op: Op| eval(#[trigger] un(UnOp::Neg, bin(op, x, y)), env, f) == unary(
        f,
        UnOp::Neg,
        eval(bin(op, x, y), env, f),
    ) by {
        lemma_eval_un(UnOp::Neg, bin(op, x, y), env, f);
    }
}

/// `(a + b) * c` equals `a * c + b * c`.
pub proof fn lemma_distributive(a: Xpr, b: Xpr, c: Xpr, env: Seq<DualV>, f: Funcs)
    ensures
        eval(bin(Op::Mul, bin(Op::Add, a, b), c), env, f) == eval(
            bin(Op::Add, bin(Op::Mul, a, c), bin(Op::Mul, b, c)),
            env,
            f,
        ),
{
    lemma_eval_bin(Op::Add, a, b, env, f);
    lemma_eval_bin(Op::Mul, bin(Op::Add, a, b), c, env, f);
    lemma_eval_bin(Op::Mul, a, c, env, f);
    lemma_eval_bin(Op::Mul, b, c, env, f);
    lemma_eval_bin(Op::Add, bin(Op::Mul, a, c), bin(Op::Mul, b, c), env, f);
    let (x, y, z) = (eval(a, env, f), eval(b, env, f), eval(c, env, f));
    assert((x.v + y.v) * z.v == x.v * z.v + y.v * z.v) by (nonlinear_arith);
    assert(z.d * (x.v + y.v) == z.d * x.v + z.d * y.v) by (nonlinear_arith);
    assert((x.d + y.d) * z.v == x.d * z.v + y.d * z.v) by (nonlinear_arith);
}

proof fn lemma_quot_of_zero(f: Funcs, b: int)
    requires
        quot_is_odd(f),
    ensures
        (f.quot)(0, b) == 0,
{
    assert((f.quot)(-0int, b) == -(f.quot)(0int, b));
}

/// An expression that does not read input `i` has derivative zero with respect
/// to it: a constant has no sensitivity.
pub proof fn lemma_constant_rule(e: Xpr, vals: Seq<int>, i: int, f: Funcs)
    requires
        !reads(e, i),
        reads_below(e, vals.len()),
        quot_is_odd(f),
    ensures
        eval(e, seeded(vals, i), f).d == 0,
    decreases e,
{
    let env = seeded(vals, i);
    match e {
        Xpr::Var(k) => {},
        Xpr::Const(_) => {},
        Xpr::Bin(op, l, r) => {
            lemma_constant_rule(*l, vals, i, f);
            lemma_constant_rule(*r, vals, i, f);
            let (a, b) = (eval(*l, env, f), eval(*r, env, f));
            assert(a.d * b.v + b.d * a.v == 0) by (nonlinear_arith)
                requires
                    a.d == 0,
                    b.d == 0,
            ;
            assert(-(a.d * b.v - b.d * a.v) == 0) by (nonlinear_arith)
                requires
                    a.d == 0,
                    b.d == 0,
            ;
            lemma_quot_of_zero(f, b.v);
            let p = (f.pw)(a.v, b.v - 1);
            assert(p * (b.d * (f.ln)(a.v) * a.v + b.v * a.d) == 0) by (nonlinear_arith)
                requires
                    a.d == 0,
                    b.d == 0,
            ;
        },
        Xpr::Un(op, a) => {
            lemma_constant_rule(*a, vals, i, f);
            let x = eval(*a, env, f);
            assert(x.d * (f.slope)(op, x.v) == 0) by (nonlinear_arith)
                requires
                    x.d == 0,
            ;
        },
    }
}

/// The derivative of input `i` with respect to itself is one.
pub proof fn lemma_identity_rule(vals: Seq<int>, i: usize, f: Funcs)
    requires
        i < vals.len(),
    ensures
        eval(Xpr::Var(i), seeded(vals, i as int), f).d == 1,
{
}

/// The derivative of `c * x` with respect to `x` is `c`.
pub proof fn lemma_scaling_rule(c: u64, vals: Seq<int>, i: usize, f: Funcs)
    requires
        i < vals.len(),
    ensures
        eval(bin(Op::Mul, Xpr::Const(c), Xpr::Var(i)), seeded(vals, i as int), f).d == (f.lit)(c),
{
    lemma_eval_bin(Op::Mul, Xpr::Const(c), Xpr::Var(i), seeded(vals, i as int), f);
    assert(0 * vals[i as int] == 0);
}

/// The derivative of a sum is the sum of the derivatives.
pub proof fn lemma_sum_rule(a: Xpr, b: Xpr, env: Seq<DualV>, f: Funcs)
    ensures
        eval(bin(Op::Add, a, b), env, f).d == eval(a, env, f).d + eval(b, env, f).d,
{
    lemma_eval_bin(Op::Add, a, b, env, f);
}

/// The derivative of `a * b` is `a' * b + a * b'`.
pub proof fn lemma_product_rule(a: Xpr, b: Xpr, env: Seq<DualV>, f: Funcs)
    ensures
        eval(bin(Op::Mul, a, b), env, f).d == eval(a, env, f).d * eval(b, env, f).v + eval(
            a,
            env,
            f,
        ).v * eval(b, env, f).d,
{
    lemma_eval_bin(Op::Mul, a, b, env, f);
    let (x, y) = (eval(a, env, f), eval(b, env, f));
    assert(y.d * x.v == x.v * y.d) by (nonlinear_arith);
}

/// Chain rule for the unary functions other than negation: the derivative of
/// `op(a)` is the derivative of `a` times the slope of `op` at the value of `a`;
/// so the derivative of `op(x)` with respect to `x` is that slope (`cos(x)` for
/// `sin`, `-sin(x)` for `cos`, `1 / (2 sqrt(x))` for `sqrt`, `1 / x` for `ln`,
/// `exp(x)` for `exp`).
pub proof fn lemma_function_rule(op: UnOp, a: Xpr, vals: Seq<int>, i: usize, f: Funcs)
    requires
        op != UnOp::Neg,
        i < vals.len(),
    ensures
        eval(un(op, a), seeded(vals, i as int), f).d == eval(a, seeded(vals, i as int), f).d * (
        f.slope)(op, eval(a, seeded(vals, i as int), f).v),
        eval(un(op, Xpr::Var(i)), seeded(vals, i as int), f).d == (f.slope)(op, vals[i as int]),
{
    lemma_eval_un(op, a, seeded(vals, i as int), f);
    lemma_eval_un(op, Xpr::Var(i), seeded(vals, i as int), f);
}

/// Power rule for a constant exponent: the derivative of `x ^ c` with respect to
/// `x` is `c * x ^ (c - 1)`.
pub proof fn lemma_power_rule(c: u64, vals: Seq<int>, i: usize, f: Funcs)
    requires
        i < vals.len(),
    ensures
        eval(bin(Op::Pow, Xpr::Var(i), Xpr::Const(c)), seeded(vals, i as int), f).d == (f.lit)(c)
            * (f.pw)(vals[i as int], (f.lit)(c) - 1),
{
    let env = seeded(vals, i as int);
    lemma_eval_bin(Op::Pow, Xpr::Var(i), Xpr::Const(c), env, f);
    let (v, k) = (vals[i as int], (f.lit)(c));
    let p = (f.pw)(v, k - 1);
    assert(p * (0 * (f.ln)(v) * v + k * 1) == k * p) by (nonlinear_arith);
}

/// `x[0] + x[0] + x[1] + x[2]` has gradient `[2, 1, 1]` at every point.
pub proof fn lemma_gradient_of_sum(vals: Seq<int>, f: Funcs)
    requires
        vals.len() == 3,
    ensures
        gradient(
            bin(
                Op::Add,
                bin(Op::Add, bin(Op::Add, Xpr::Var(0), Xpr::Var(0)), Xpr::Var(1)),
                Xpr::Var(2),
            ),
            vals,
            f,
        ) == seq![2int, 1, 1],
{
    let (x0, x1, x2) = (Xpr::Var(0), Xpr::Var(1), Xpr::Var(2));
    let e = bin(Op::Add, bin(Op::Add, bin(Op::Add, x0, x0), x1), x2);
    assert forall|i: int| 0 <= i < 3 implies #[trigger] gradient(e, vals, f)[i] == seq![
        2int,
        1,
        1,
    ][i] by {
        let env = seeded(vals, i);
        lemma_eval_bin(Op::Add, x0, x0, env, f);
        lemma_eval_bin(Op::Add, bin(Op::Add, x0, x0), x1, env, f);
        lemma_eval_bin(Op::Add, bin(Op::Add, bin(Op::Add, x0, x0), x1), x2, env, f);
    }
    assert(gradient(e, vals, f) =~= seq![2int, 1, 1]);
}

/// With two argument lists `x` and `y` laid out one after the other,
/// `x[0] + a * x[1] + b * y[0] + c * y[1]` has gradient `[1, a, b, c]`: the
/// partials for `x`, then those for `y`, in argument order.
pub proof fn lemma_gradient_of_two_arguments(
    x: Seq<int>,
    y: Seq<int>,
    a: u64,
    b: u64,
    c: u64,
    f: Funcs,
)
    requires
        x.len() == 2,
        y.len() == 2,
    ensures
        gradient(
            bin(
                Op::Add,
                bin(
                    Op::Add,
                    bin(Op::Add, Xpr::Var(0), bin(Op::Mul, Xpr::Const(a), Xpr::Var(1))),
                    bin(Op::Mul, Xpr::Const(b), Xpr::Var(2)),
                ),
                bin(Op::Mul, Xpr::Const(c), Xpr::Var(3)),
            ),
            x + y,
            f,
        ) == seq![1, (f.lit)(a), (f.lit)(b), (f.lit)(c)],
{
    let vals = x + y;
    let t1 = bin(Op::Mul, Xpr::Const(a), Xpr::Var(1));
    let t2 = bin(Op::Mul, Xpr::Const(b), Xpr::Var(2));
    let t3 = bin(Op::Mul, Xpr::Const(c), Xpr::Var(3));
    let s1 = bin(Op::Add, Xpr::Var(0), t1);
    let s2 = bin(Op::Add, s1, t2);
    let e = bin(Op::Add, s2, t3);
    let want = seq![1, (f.lit)(a), (f.lit)(b), (f.lit)(c)];
    assert forall|i: int| 0 <= i < 4 implies #[trigger] gradient(e, vals, f)[i] == want[i] by {
        let env = seeded(vals, i);
        lemma_eval_bin(Op::Mul, Xpr::Const(a), Xpr::Var(1), env, f);
        lemma_eval_bin(Op::Mul, Xpr::Const(b), Xpr::Var(2), env, f);
        lemma_eval_bin(Op::Mul, Xpr::Const(c), Xpr::Var(3), env, f);
        lemma_eval_bin(Op::Add, Xpr::Var(0), t1, env, f);
        lemma_eval_bin(Op::Add, s1, t2, env, f);
        lemma_eval_bin(Op::Add, s2, t3, env, f);
        assert(0 * vals[1] == 0 && 0 * vals[2] == 0 && 0 * vals[3] == 0);
    }
    assert(gradient(e, vals, f) =~= want);
}

} // verus!
