//! The assign protocol as a straight-line plan of dual-number updates.
//!
//! A plan works on a file of registers, each a dual number; register 0 is the
//! target that receives the result. `assign` evaluates a node into a register;
//! `combine` folds a node into a register with an operation (`target op= node`).
//! Leaves and the simple operators fold without a temporary; every other node
//! is evaluated into a fresh register first and then folded.
use vstd::prelude::*;

use crate::op::{Op, UnOp};
use crate::xpr::{combine, constant, depth, eval, quot_is_odd, reads_below, unary, DualV, Funcs, Xpr};

verus! {

/// Where a step reads its second dual number from.
#[derive(Clone, Copy, Debug, PartialEq, Eq, Structural)]
pub enum Operand {
    /// An input dual number.
    Var(usize),
    /// A literal (IEEE-754 bits), with derivative zero.
    Const(u64),
    /// A register.
    Reg(usize),
}

/// One primitive update of a register.
#[derive(Clone, Copy, Debug, PartialEq, Eq, Structural)]
pub enum Step {
    /// `reg = operand`, value and derivative.
    Load(usize, Operand),
    /// `reg = reg op operand`.
    Combine(Op, usize, Operand),
    /// `reg = op(reg)`.
    Apply(UnOp, usize),
}

/// The steps that evaluate an expression, and how many registers they use.
pub struct Plan {
    pub steps: Vec<Step>,
    pub regs: usize,
}

/// The dual number that an operand stands for.
pub open spec fn operand_value(o: Operand, regs: Seq<DualV>, env: Seq<DualV>, f: Funcs) -> DualV {
    match o {
        Operand::Var(i) => env[i as int],
        Operand::Const(c) => constant((f.lit)(c)),
        Operand::Reg(r) => regs[r as int],
    }
}

/// The registers after one step.
pub open spec fn exec_step(s: Step, regs: Seq<DualV>, env: Seq<DualV>, f: Funcs) -> Seq<DualV> {
    match s {
        Step::Load(dst, o) => regs.update(dst as int, operand_value(o, regs, env, f)),
        Step::Combine(op, dst, o) => regs.update(
            dst as int,
            combine(f, op, regs[dst as int], operand_value(o, regs, env, f)),
        ),
        Step::Apply(op, dst) => regs.update(dst as int, unary(f, op, regs[dst as int])),
    }
}

/// The registers after running `steps` in order, from `regs`.
pub open spec fn run(steps: Seq<Step>, regs: Seq<DualV>, env: Seq<DualV>, f: Funcs) -> Seq<DualV>
    decreases steps.len(),
{
    if steps.len() == 0 {
        regs
    } else {
        exec_step(steps.last(), run(steps.drop_last(), regs, env, f), env, f)
    }
}

/// The registers that a step touches are below `n`.
pub open spec fn step_below(s: Step, n: nat) -> bool {
    match s {
        Step::Load(dst, o) => dst < n && (o matches Operand::Reg(r) ==> r < n),
        Step::Combine(_, dst, o) => dst < n && (o matches Operand::Reg(r) ==> r < n),
        Step::Apply(_, dst) => dst < n,
    }
}

/// Every step touches only registers below `n`.
pub open spec fn all_below(steps: Seq<Step>, n: nat) -> bool {
    forall|i: int| 0 <= i < steps.len() ==> step_below(#[trigger] steps[i], n)
}

/// The steps that evaluate `e` into register `dst`; registers from `next` on are
/// free for temporaries.
pub open spec fn plan_assign(e: Xpr, dst: usize, next: usize) -> Seq<Step>
    decreases e, 0nat,
{
    match e {
        Xpr::Var(i) => seq![Step::Load(dst, Operand::Var(i))],
        Xpr::Const(c) => seq![Step::Load(dst, Operand::Const(c))],
        Xpr::Bin(op, l, r) => plan_assign(*l, dst, next) + plan_combine(op, *r, dst, next),
        Xpr::Un(op, a) => plan_assign(*a, dst, next).push(Step::Apply(op, dst)),
    }
}

/// The steps that fold `e` into register `dst` with `op`.
pub open spec fn plan_combine(op: Op, e: Xpr, dst: usize, next: usize) -> Seq<Step>
    decreases e, 1nat,
{
    let via_temp = plan_assign(e, next, (next + 1) as usize).push(
        Step::Combine(op, dst, Operand::Reg(next)),
    );
    match e {
        Xpr::Var(i) => seq![Step::Combine(op, dst, Operand::Var(i))],
        Xpr::Const(c) => seq![Step::Combine(op, dst, Operand::Const(c))],
        Xpr::Bin(bop, l, r) => {
            if (bop == Op::Add || bop == Op::Sub) && (op == Op::Add || op == Op::Sub) {
                // t + (l + r) = (t + l) + r, t - (l + r) = (t - l) - r, and likewise for l - r
                let rop = if (bop == Op::Add) == (op == Op::Add) {
                    Op::Add
                } else {
                    Op::Sub
                };
                plan_combine(op, *l, dst, next) + plan_combine(rop, *r, dst, next)
            } else if (bop == Op::Add || bop == Op::Sub) && op == Op::Mul {
                // t * (l + r) = t * l + t * r (and so for l - r), t * r built in a temporary
                seq![Step::Load(next, Operand::Reg(dst))] + plan_combine(
                    Op::Mul,
                    *l,
                    dst,
                    (next + 1) as usize,
                ) + plan_combine(Op::Mul, *r, next, (next + 1) as usize) + seq![
                    Step::Combine(bop, dst, Operand::Reg(next)),
                ]
            } else if bop == Op::Mul && op == Op::Mul {
                plan_combine(Op::Mul, *l, dst, next) + plan_combine(Op::Mul, *r, dst, next)
            } else {
                via_temp
            }
        },
        Xpr::Un(uop, a) => {
            if uop == UnOp::Neg && op == Op::Add {
                plan_combine(Op::Sub, *a, dst, next)
            } else if uop == UnOp::Neg && op == Op::Sub {
                plan_combine(Op::Add, *a, dst, next)
            } else if uop == UnOp::Neg && (op == Op::Mul || op == Op::Div) {
                plan_combine(op, *a, dst, next).push(Step::Apply(UnOp::Neg, dst))
            } else {
                via_temp
            }
        },
    }
}


proof fn lemma_run_one(x: Step, regs: Seq<DualV>, env: Seq<DualV>, f: Funcs)
    ensures
        run(seq![x], regs, env, f) == exec_step(x, regs, env, f),
{
    assert(seq![x].drop_last() =~= Seq::<Step>::empty());
    assert(run(Seq::<Step>::empty(), regs, env, f) == regs);
}

proof fn lemma_run_append(a: Seq<Step>, b: Seq<Step>, regs: Seq<DualV>, env: Seq<DualV>, f: Funcs)
    ensures
        run(a + b, regs, env, f) == run(b, run(a, regs, env, f), env, f),
    decreases b.len(),
{
    if b.len() == 0 {
        assert(a + b =~= a);
    } else {
        assert((a + b).drop_last() =~= a + b.drop_last());
        assert((a + b).last() == b.last());
        lemma_run_append(a, b.drop_last(), regs, env, f);
    }
}

proof fn lemma_run_push(a: Seq<Step>, x: Step, regs: Seq<DualV>, env: Seq<DualV>, f: Funcs)
    ensures
        run(a.push(x), regs, env, f) == exec_step(x, run(a, regs, env, f), env, f),
{
    assert(a.push(x).drop_last() =~= a);
}

proof fn lemma_below_split(a: Seq<Step>, b: Seq<Step>, n: nat)
    requires
        all_below(a + b, n),
    ensures
        all_below(a, n),
        all_below(b, n),
{
    assert forall|i: int| 0 <= i < a.len() implies step_below(#[trigger] a[i], n) by {
        assert((a + b)[i] == a[i]);
    }
    assert forall|i: int| 0 <= i < b.len() implies step_below(#[trigger] b[i], n) by {
        assert((a + b)[a.len() + i] == b[i]);
    }
}

proof fn lemma_below_push(a: Seq<Step>, x: Step, n: nat)
    requires
        all_below(a.push(x), n),
    ensures
        all_below(a, n),
        step_below(x, n),
{
    assert(a.push(x) =~= a + seq![x]);
    lemma_below_split(a, seq![x], n);
    assert(seq![x][0] == x);
}

proof fn lemma_fold_sum(f: Funcs, op: Op, bop: Op, t: DualV, l: DualV, r: DualV)
    requires
        op == Op::Add || op == Op::Sub,
        bop == Op::Add || bop == Op::Sub,
    ensures
        combine(
            f,
            if (bop == Op::Add) == (op == Op::Add) {
                Op::Add
            } else {
                Op::Sub
            },
            combine(f, op, t, l),
            r,
        ) == combine(f, op, t, combine(f, bop, l, r)),
{
}

proof fn lemma_fold_product(f: Funcs, bop: Op, t: DualV, l: DualV, r: DualV)
    requires
        bop == Op::Add || bop == Op::Sub,
    ensures
        combine(f, bop, combine(f, Op::Mul, t, l), combine(f, Op::Mul, t, r)) == combine(
            f,
            Op::Mul,
            t,
            combine(f, bop, l, r),
        ),
{
    assert(t.v * l.v + t.v * r.v == t.v * (l.v + r.v)) by (nonlinear_arith);
    assert(t.v * l.v - t.v * r.v == t.v * (l.v - r.v)) by (nonlinear_arith);
    assert((t.d * l.v + l.d * t.v) + (t.d * r.v + r.d * t.v) == t.d * (l.v + r.v) + (l.d + r.d)
        * t.v) by (nonlinear_arith);
    assert((t.d * l.v + l.d * t.v) - (t.d * r.v + r.d * t.v) == t.d * (l.v - r.v) + (l.d - r.d)
        * t.v) by (nonlinear_arith);
}

pub(crate) proof fn lemma_product_assoc(f: Funcs, t: DualV, l: DualV, r: DualV)
    ensures
        combine(f, Op::Mul, combine(f, Op::Mul, t, l), r) == combine(
            f,
            Op::Mul,
            t,
            combine(f, Op::Mul, l, r),
        ),
{
    assert((t.v * l.v) * r.v == t.v * (l.v * r.v)) by (nonlinear_arith);
    assert((t.d * l.v + l.d * t.v) * r.v == t.d * (l.v * r.v) + l.d * (t.v * r.v))
        by (nonlinear_arith);
    assert((l.d * r.v + r.d * l.v) * t.v == l.d * (t.v * r.v) + r.d * (t.v * l.v))
        by (nonlinear_arith);
}

pub(crate) proof fn lemma_neg_inside(f: Funcs, op: Op, t: DualV, a: DualV)
    requires
        op == Op::Mul || op == Op::Div,
        quot_is_odd(f),
    ensures
        unary(f, UnOp::Neg, combine(f, op, t, a)) == combine(f, op, t, unary(f, UnOp::Neg, a)),
{
    if op == Op::Mul {
        assert(-(t.v * a.v) == t.v * (-a.v)) by (nonlinear_arith);
        assert(-(t.d * a.v + a.d * t.v) == t.d * (-a.v) + (-a.d) * t.v) by (nonlinear_arith);
    } else {
        let n = -(t.d * a.v - a.d * t.v);
        assert(-(t.d * (-a.v) - (-a.d) * t.v) == -(-(t.d * a.v - a.d * t.v))) by (nonlinear_arith);
        let q = (f.quot)(n, a.v);
        assert((f.quot)(-n, -a.v) == -(f.quot)(-n, a.v));
        assert((f.quot)(-n, a.v) == -q);
        assert((f.quot)(-q, -a.v) == -(f.quot)(-q, a.v));
        assert((f.quot)(-q, a.v) == -(f.quot)(q, a.v));
        assert((f.quot)(t.v, -a.v) == -(f.quot)(t.v, a.v));
    }
}

/// Running `plan_assign(e, dst, next)` leaves the value of `e` in `dst`, and
/// changes no other register below `next`.
pub proof fn lemma_assign(e: Xpr, dst: usize, next: usize, regs: Seq<DualV>, env: Seq<DualV>, f: Funcs)
    requires
        dst < next,
        next + depth(e) < usize::MAX,
        dst < regs.len(),
        all_below(plan_assign(e, dst, next), regs.len()),
        reads_below(e, env.len()),
        quot_is_odd(f),
    ensures
        ({
            let out = run(plan_assign(e, dst, next), regs, env, f);
            &&& out.len() == regs.len()
            &&& out[dst as int] == eval(e, env, f)
            &&& forall|j: int|
                0 <= j < next && j < regs.len() && j != dst ==> #[trigger] out[j] == regs[j]
        }),
    decreases e, 0nat,
{
    match e {
        Xpr::Var(i) => {
            lemma_run_one(Step::Load(dst, Operand::Var(i)), regs, env, f);
        },
        Xpr::Const(c) => {
            lemma_run_one(Step::Load(dst, Operand::Const(c)), regs, env, f);
        },
        Xpr::Bin(op, l, r) => {
            let a = plan_assign(*l, dst, next);
            let b = plan_combine(op, *r, dst, next);
            lemma_below_split(a, b, regs.len());
            lemma_run_append(a, b, regs, env, f);
            lemma_assign(*l, dst, next, regs, env, f);
            let mid = run(a, regs, env, f);
            lemma_combine(op, *r, dst, next, mid, env, f);
        },
        Xpr::Un(op, x) => {
            let a = plan_assign(*x, dst, next);
            lemma_below_push(a, Step::Apply(op, dst), regs.len());
            lemma_run_push(a, Step::Apply(op, dst), regs, env, f);
            lemma_assign(*x, dst, next, regs, env, f);
        },
    }
}

/// Running `plan_combine(op, e, dst, next)` turns `dst` into `dst op e`, and
/// changes no other register below `next`. Whether the fold goes through a
/// temporary or straight into `dst` does not change the result.
pub proof fn lemma_combine(
    op: Op,
    e: Xpr,
    dst: usize,
    next: usize,
    regs: Seq<DualV>,
    env: Seq<DualV>,
    f: Funcs,
)
    requires
        dst < next,
        next + depth(e) + 1 < usize::MAX,
        dst < regs.len(),
        all_below(plan_combine(op, e, dst, next), regs.len()),
        reads_below(e, env.len()),
        quot_is_odd(f),
    ensures
        ({
            let out = run(plan_combine(op, e, dst, next), regs, env, f);
            &&& out.len() == regs.len()
            &&& out[dst as int] == combine(f, op, regs[dst as int], eval(e, env, f))
            &&& forall|j: int|
                0 <= j < next && j < regs.len() && j != dst ==> #[trigger] out[j] == regs[j]
        }),
    decreases e, 1nat,
{
    let t = regs[dst as int];
    match e {
        Xpr::Var(i) => {
            lemma_run_one(Step::Combine(op, dst, Operand::Var(i)), regs, env, f);
        },
        Xpr::Const(c) => {
            lemma_run_one(Step::Combine(op, dst, Operand::Const(c)), regs, env, f);
        },
        Xpr::Bin(bop, l, r) => {
            if (bop == Op::Add || bop == Op::Sub) && (op == Op::Add || op == Op::Sub) {
                let rop = if (bop == Op::Add) == (op == Op::Add) {
                    Op::Add
                } else {
                    Op::Sub
                };
                let a = plan_combine(op, *l, dst, next);
                let b = plan_combine(rop, *r, dst, next);
                lemma_below_split(a, b, regs.len());
                lemma_run_append(a, b, regs, env, f);
                lemma_combine(op, *l, dst, next, regs, env, f);
                let mid = run(a, regs, env, f);
                lemma_combine(rop, *r, dst, next, mid, env, f);
                lemma_fold_sum(f, op, bop, t, eval(*l, env, f), eval(*r, env, f));
            } else if (bop == Op::Add || bop == Op::Sub) && op == Op::Mul {
                let n1 = (next + 1) as usize;
                let s0 = seq![Step::Load(next, Operand::Reg(dst))];
                let s1 = plan_combine(Op::Mul, *l, dst, n1);
                let s2 = plan_combine(Op::Mul, *r, next, n1);
                let s3 = seq![Step::Combine(bop, dst, Operand::Reg(next))];
                lemma_below_split(s0 + s1 + s2, s3, regs.len());
                lemma_below_split(s0 + s1, s2, regs.len());
                lemma_below_split(s0, s1, regs.len());
                assert(s0[0] == Step::Load(next, Operand::Reg(dst)));
                assert(step_below(s0[0], regs.len()));
                lemma_run_append(s0 + s1 + s2, s3, regs, env, f);
                lemma_run_append(s0 + s1, s2, regs, env, f);
                lemma_run_append(s0, s1, regs, env, f);
                lemma_run_one(s0[0], regs, env, f);
                let r0 = run(s0, regs, env, f);
                lemma_combine(Op::Mul, *l, dst, n1, r0, env, f);
                let r1 = run(s1, r0, env, f);
                lemma_combine(Op::Mul, *r, next, n1, r1, env, f);
                let r2 = run(s2, r1, env, f);
                lemma_run_one(s3[0], r2, env, f);
                assert(s3 =~= seq![s3[0]]);
                lemma_fold_product(f, bop, t, eval(*l, env, f), eval(*r, env, f));
            } else if bop == Op::Mul && op == Op::Mul {
                let a = plan_combine(Op::Mul, *l, dst, next);
                let b = plan_combine(Op::Mul, *r, dst, next);
                lemma_below_split(a, b, regs.len());
                lemma_run_append(a, b, regs, env, f);
                lemma_combine(Op::Mul, *l, dst, next, regs, env, f);
                let mid = run(a, regs, env, f);
                lemma_combine(Op::Mul, *r, dst, next, mid, env, f);
                lemma_product_assoc(f, t, eval(*l, env, f), eval(*r, env, f));
            } else {
                let s = plan_assign(e, next, (next + 1) as usize);
                let last = Step::Combine(op, dst, Operand::Reg(next));
                lemma_below_push(s, last, regs.len());
                lemma_run_push(s, last, regs, env, f);
                lemma_assign(e, next, (next + 1) as usize, regs, env, f);
            }
        },
        Xpr::Un(uop, a) => {
            if uop == UnOp::Neg && op == Op::Add {
                lemma_combine(Op::Sub, *a, dst, next, regs, env, f);
            } else if uop == UnOp::Neg && op == Op::Sub {
                lemma_combine(Op::Add, *a, dst, next, regs, env, f);
            } else if uop == UnOp::Neg && (op == Op::Mul || op == Op::Div) {
                let s = plan_combine(op, *a, dst, next);
                lemma_below_push(s, Step::Apply(UnOp::Neg, dst), regs.len());
                lemma_run_push(s, Step::Apply(UnOp::Neg, dst), regs, env, f);
                lemma_combine(op, *a, dst, next, regs, env, f);
                lemma_neg_inside(f, op, t, eval(*a, env, f));
            } else {
                let s = plan_assign(e, next, (next + 1) as usize);
                let last = Step::Combine(op, dst, Operand::Reg(next));
                lemma_below_push(s, last, regs.len());
                lemma_run_push(s, last, regs, env, f);
                lemma_assign(e, next, (next + 1) as usize, regs, env, f);
            }
        },
    }
}

proof fn lemma_below_join(a: Seq<Step>, b: Seq<Step>, n: nat)
    requires
        all_below(a, n),
        all_below(b, n),
    ensures
        all_below(a + b, n),
{
    assert forall|i: int| 0 <= i < (a + b).len() implies step_below(#[trigger] (a + b)[i], n) by {
        if i < a.len() {
            assert((a + b)[i] == a[i]);
        } else {
            assert((a + b)[i] == b[i - a.len()]);
        }
    }
}

proof fn lemma_below_widen(a: Seq<Step>, m: nat, n: nat)
    requires
        all_below(a, m),
        m <= n,
    ensures
        all_below(a, n),
{
    assert forall|i: int| 0 <= i < a.len() implies step_below(#[trigger] a[i], n) by {
        assert(step_below(a[i], m));
    }
}

proof fn lemma_below_one(x: Step, n: nat)
    requires
        step_below(x, n),
    ensures
        all_below(seq![x], n),
{
    assert forall|i: int| 0 <= i < seq![x].len() implies step_below(#[trigger] seq![x][i], n) by {
        assert(seq![x][i] == x);
    }
}

/// `plan_assign(e, dst, next)` uses no register at or above `next + depth(e)`.
proof fn lemma_assign_regs(e: Xpr, dst: usize, next: usize)
    requires
        dst < next,
        next + depth(e) < usize::MAX,
    ensures
        all_below(plan_assign(e, dst, next), (next + depth(e)) as nat),
    decreases e, 0nat,
{
    let n = (next + depth(e)) as nat;
    match e {
        Xpr::Var(i) => lemma_below_one(Step::Load(dst, Operand::Var(i)), n),
        Xpr::Const(c) => lemma_below_one(Step::Load(dst, Operand::Const(c)), n),
        Xpr::Bin(op, l, r) => {
            lemma_assign_regs(*l, dst, next);
            lemma_combine_regs(op, *r, dst, next);
            lemma_below_widen(plan_assign(*l, dst, next), (next + depth(*l)) as nat, n);
            lemma_below_widen(plan_combine(op, *r, dst, next), (next + depth(*r) + 1) as nat, n);
            lemma_below_join(plan_assign(*l, dst, next), plan_combine(op, *r, dst, next), n);
        },
        Xpr::Un(op, a) => {
            lemma_assign_regs(*a, dst, next);
            lemma_below_widen(plan_assign(*a, dst, next), (next + depth(*a)) as nat, n);
            lemma_below_one(Step::Apply(op, dst), n);
            lemma_below_join(plan_assign(*a, dst, next), seq![Step::Apply(op, dst)], n);
            assert(plan_assign(*a, dst, next).push(Step::Apply(op, dst)) =~= plan_assign(
                *a,
                dst,
                next,
            ) + seq![Step::Apply(op, dst)]);
        },
    }
}

/// `plan_combine(op, e, dst, next)` uses no register at or above
/// `next + depth(e) + 1`.
proof fn lemma_combine_regs(op: Op, e: Xpr, dst: usize, next: usize)
    requires
        dst < next,
        next + depth(e) + 1 < usize::MAX,
    ensures
        all_below(plan_combine(op, e, dst, next), (next + depth(e) + 1) as nat),
    decreases e, 1nat,
{
    let n = (next + depth(e) + 1) as nat;
    let n1 = (next + 1) as usize;
    let last = Step::Combine(op, dst, Operand::Reg(next));
    if !(e matches Xpr::Var(_)) && !(e matches Xpr::Const(_)) {
        lemma_assign_regs(e, next, n1);
        lemma_below_one(last, n);
        lemma_below_join(plan_assign(e, next, n1), seq![last], n);
        assert(plan_assign(e, next, n1).push(last) =~= plan_assign(e, next, n1) + seq![last]);
    }
    match e {
        Xpr::Var(i) => lemma_below_one(Step::Combine(op, dst, Operand::Var(i)), n),
        Xpr::Const(c) => lemma_below_one(Step::Combine(op, dst, Operand::Const(c)), n),
        Xpr::Bin(bop, l, r) => {
            if (bop == Op::Add || bop == Op::Sub) && (op == Op::Add || op == Op::Sub) {
                let rop = if (bop == Op::Add) == (op == Op::Add) {
                    Op::Add
                } else {
                    Op::Sub
                };
                lemma_combine_regs(op, *l, dst, next);
                lemma_combine_regs(rop, *r, dst, next);
                lemma_below_widen(plan_combine(op, *l, dst, next), (next + depth(*l) + 1) as nat, n);
                lemma_below_widen(plan_combine(rop, *r, dst, next), (next + depth(*r) + 1) as nat, n);
                lemma_below_join(plan_combine(op, *l, dst, next), plan_combine(rop, *r, dst, next), n);
            } else if (bop == Op::Add || bop == Op::Sub) && op == Op::Mul {
                let s0 = seq![Step::Load(next, Operand::Reg(dst))];
                let s1 = plan_combine(Op::Mul, *l, dst, n1);
                let s2 = plan_combine(Op::Mul, *r, next, n1);
                let s3 = seq![Step::Combine(bop, dst, Operand::Reg(next))];
                lemma_combine_regs(Op::Mul, *l, dst, n1);
                lemma_combine_regs(Op::Mul, *r, next, n1);
                lemma_below_widen(s1, (n1 + depth(*l) + 1) as nat, n);
                lemma_below_widen(s2, (n1 + depth(*r) + 1) as nat, n);
                lemma_below_one(Step::Load(next, Operand::Reg(dst)), n);
                lemma_below_one(Step::Combine(bop, dst, Operand::Reg(next)), n);
                lemma_below_join(s0, s1, n);
                lemma_below_join(s0 + s1, s2, n);
                lemma_below_join(s0 + s1 + s2, s3, n);
            } else if bop == Op::Mul && op == Op::Mul {
                lemma_combine_regs(Op::Mul, *l, dst, next);
                lemma_combine_regs(Op::Mul, *r, dst, next);
                lemma_below_widen(plan_combine(Op::Mul, *l, dst, next), (next + depth(*l) + 1) as nat, n);
                lemma_below_widen(plan_combine(Op::Mul, *r, dst, next), (next + depth(*r) + 1) as nat, n);
                lemma_below_join(
                    plan_combine(Op::Mul, *l, dst, next),
                    plan_combine(Op::Mul, *r, dst, next),
                    n,
                );
            }
        },
        Xpr::Un(uop, a) => {
            if uop == UnOp::Neg && (op == Op::Add || op == Op::Sub) {
                let aop = if op == Op::Add {
                    Op::Sub
                } else {
                    Op::Add
                };
                lemma_combine_regs(aop, *a, dst, next);
                lemma_below_widen(plan_combine(aop, *a, dst, next), (next + depth(*a) + 1) as nat, n);
            } else if uop == UnOp::Neg && (op == Op::Mul || op == Op::Div) {
                let s = plan_combine(op, *a, dst, next);
                lemma_combine_regs(op, *a, dst, next);
                lemma_below_widen(s, (next + depth(*a) + 1) as nat, n);
                lemma_below_one(Step::Apply(UnOp::Neg, dst), n);
                lemma_below_join(s, seq![Step::Apply(UnOp::Neg, dst)], n);
                assert(s.push(Step::Apply(UnOp::Neg, dst)) =~= s + seq![Step::Apply(UnOp::Neg, dst)]);
            }
        },
    }
}

/// Built from leaves, negation, `+` and `-` only.
pub open spec fn is_sum_chain(e: Xpr) -> bool
    decreases e,
{
    match e {
        Xpr::Var(_) => true,
        Xpr::Const(_) => true,
        Xpr::Bin(op, l, r) => (op == Op::Add || op == Op::Sub) && is_sum_chain(*l) && is_sum_chain(
            *r,
        ),
        Xpr::Un(op, a) => op == UnOp::Neg && is_sum_chain(*a),
    }
}

proof fn lemma_chain_assign(e: Xpr, dst: usize, next: usize)
    requires
        is_sum_chain(e),
    ensures
        all_below(plan_assign(e, dst, next), (dst + 1) as nat),
    decreases e, 0nat,
{
    let n = (dst + 1) as nat;
    match e {
        Xpr::Var(i) => lemma_below_one(Step::Load(dst, Operand::Var(i)), n),
        Xpr::Const(c) => lemma_below_one(Step::Load(dst, Operand::Const(c)), n),
        Xpr::Bin(op, l, r) => {
            lemma_chain_assign(*l, dst, next);
            lemma_chain_combine(op, *r, dst, next);
            lemma_below_join(plan_assign(*l, dst, next), plan_combine(op, *r, dst, next), n);
        },
        Xpr::Un(op, a) => {
            lemma_chain_assign(*a, dst, next);
            lemma_below_one(Step::Apply(op, dst), n);
            lemma_below_join(plan_assign(*a, dst, next), seq![Step::Apply(op, dst)], n);
            assert(plan_assign(*a, dst, next).push(Step::Apply(op, dst)) =~= plan_assign(
                *a,
                dst,
                next,
            ) + seq![Step::Apply(op, dst)]);
        },
    }
}

proof fn lemma_chain_combine(op: Op, e: Xpr, dst: usize, next: usize)
    requires
        is_sum_chain(e),
        op == Op::Add || op == Op::Sub,
    ensures
        all_below(plan_combine(op, e, dst, next), (dst + 1) as nat),
    decreases e, 1nat,
{
    let n = (dst + 1) as nat;
    match e {
        Xpr::Var(i) => lemma_below_one(Step::Combine(op, dst, Operand::Var(i)), n),
        Xpr::Const(c) => lemma_below_one(Step::Combine(op, dst, Operand::Const(c)), n),
        Xpr::Bin(bop, l, r) => {
            let rop = if (bop == Op::Add) == (op == Op::Add) {
                Op::Add
            } else {
                Op::Sub
            };
            lemma_chain_combine(op, *l, dst, next);
            lemma_chain_combine(rop, *r, dst, next);
            lemma_below_join(plan_combine(op, *l, dst, next), plan_combine(rop, *r, dst, next), n);
        },
        Xpr::Un(_, a) => {
            let aop = if op == Op::Add {
                Op::Sub
            } else {
                Op::Add
            };
            lemma_chain_combine(aop, *a, dst, next);
        },
    }
}

/// The plan that [`lower`] emits for `e`: evaluate it into register 0, with
/// temporaries from register 1 on.
pub open spec fn plan_of(e: Xpr) -> Seq<Step> {
    plan_assign(e, 0, 1)
}

/// The target (register 0) after running `steps` from `regs` registers that all
/// hold zero: the dual number that a plan materializes.
pub open spec fn materialize(steps: Seq<Step>, regs: nat, env: Seq<DualV>, f: Funcs) -> DualV {
    run(steps, Seq::new(regs, |i: int| constant(0)), env, f)[0]
}

fn emit_assign(e: &Xpr, dst: usize, next: usize, steps: &mut Vec<Step>)
    requires
        dst < next,
        next + depth(*e) < usize::MAX,
    ensures
        final(steps)@ == old(steps)@ + plan_assign(*e, dst, next),
    decreases e, 0nat,
{
    let ghost s0 = steps@;
    match e {
        Xpr::Var(i) => {
            steps.push(Step::Load(dst, Operand::Var(*i)));
        },
        Xpr::Const(c) => {
            steps.push(Step::Load(dst, Operand::Const(*c)));
        },
        Xpr::Bin(op, l, r) => {
            emit_assign(l, dst, next, steps);
            emit_combine(*op, r, dst, next, steps);
        },
        Xpr::Un(op, a) => {
            emit_assign(a, dst, next, steps);
            steps.push(Step::Apply(*op, dst));
        },
    }
    assert(steps@ =~= s0 + plan_assign(*e, dst, next));
}

fn emit_combine(op: Op, e: &Xpr, dst: usize, next: usize, steps: &mut Vec<Step>)
    requires
        dst < next,
        next + depth(*e) + 1 < usize::MAX,
    ensures
        final(steps)@ == old(steps)@ + plan_combine(op, *e, dst, next),
    decreases e, 1nat,
{
    let ghost s0 = steps@;
    let mut folded = true;
    match e {
        Xpr::Var(i) => {
            steps.push(Step::Combine(op, dst, Operand::Var(*i)));
        },
        Xpr::Const(c) => {
            steps.push(Step::Combine(op, dst, Operand::Const(*c)));
        },
        Xpr::Bin(bop, l, r) => {
            let bop = *bop;
            if (bop == Op::Add || bop == Op::Sub) && (op == Op::Add || op == Op::Sub) {
                let rop = if (bop == Op::Add) == (op == Op::Add) {
                    Op::Add
                } else {
                    Op::Sub
                };
                emit_combine(op, l, dst, next, steps);
                emit_combine(rop, r, dst, next, steps);
            } else if (bop == Op::Add || bop == Op::Sub) && op == Op::Mul {
                steps.push(Step::Load(next, Operand::Reg(dst)));
                emit_combine(Op::Mul, l, dst, next + 1, steps);
                emit_combine(Op::Mul, r, next, next + 1, steps);
                steps.push(Step::Combine(bop, dst, Operand::Reg(next)));
            } else if bop == Op::Mul && op == Op::Mul {
                emit_combine(Op::Mul, l, dst, next, steps);
                emit_combine(Op::Mul, r, dst, next, steps);
            } else {
                folded = false;
            }
        },
        Xpr::Un(uop, a) => {
            let uop = *uop;
            if uop == UnOp::Neg && op == Op::Add {
                emit_combine(Op::Sub, a, dst, next, steps);
            } else if uop == UnOp::Neg && op == Op::Sub {
                emit_combine(Op::Add, a, dst, next, steps);
            } else if uop == UnOp::Neg && (op == Op::Mul || op == Op::Div) {
                emit_combine(op, a, dst, next, steps);
                steps.push(Step::Apply(UnOp::Neg, dst));
            } else {
                folded = false;
            }
        },
    }
    if !folded {
        emit_assign(e, next, next + 1, steps);
        steps.push(Step::Combine(op, dst, Operand::Reg(next)));
    }
    assert(steps@ =~= s0 + plan_combine(op, *e, dst, next));
}

/// The highest register that a step touches.
fn top_register(s: &Step) -> (r: usize)
    ensures
        forall|n: nat| step_below(*s, n) <==> r < n,
{
    match s {
        Step::Load(dst, o) | Step::Combine(_, dst, o) => match o {
            Operand::Reg(x) => if *x > *dst {
                *x
            } else {
                *dst
            },
            _ => *dst,
        },
        Step::Apply(_, dst) => *dst,
    }
}

/// Lowers an expression to the steps that the assign protocol performs on it.
///
/// The plan evaluates `e` into register 0 and uses exactly `regs` registers.
/// For every choice of inputs and of the open operations, running it from zeroed
/// registers gives the value and derivative of `e` under the chain rule. A tree
/// of leaves joined by `+`, `-` and negation is evaluated in the target alone,
/// with no temporary. `None`
/// only where the tree is so deep that register numbers would not fit in `usize`.
pub fn lower(e: &Xpr) -> (r: Option<Plan>)
    ensures
        r is Some <==> depth(*e) + 2 <= usize::MAX,
        r matches Some(p) ==> {
            &&& p.steps@ == plan_of(*e)
            &&& 1 <= p.regs <= 1 + depth(*e)
            &&& all_below(p.steps@, p.regs as nat)
            &&& (p.regs == 1 || !all_below(p.steps@, (p.regs - 1) as nat))
            &&& (is_sum_chain(*e) ==> p.regs == 1)
            &&& forall|env: Seq<DualV>, f: Funcs|
                reads_below(*e, env.len()) && quot_is_odd(f) ==> #[trigger] materialize(
                    p.steps@,
                    p.regs as nat,
                    env,
                    f,
                ) == eval(*e, env, f)
        },
{
    let d = match e.depth() {
        Some(d) => d,
        None => {
            return None;
        },
    };
    if d > usize::MAX - 2 {
        return None;
    }
    let mut steps: Vec<Step> = Vec::new();
    emit_assign(e, 0, 1, &mut steps);
    assert(steps@ =~= plan_of(*e));
    proof {
        lemma_assign_regs(*e, 0, 1);
    }
    let mut regs: usize = 1;
    let mut i: usize = 0;
    while i < steps.len()
        invariant
            steps@ == plan_of(*e),
            all_below(steps@, (1 + d) as nat),
            d == depth(*e),
            d <= usize::MAX - 2,
            i <= steps.len(),
            1 <= regs <= 1 + d,
            forall|k: int| 0 <= k < i ==> step_below(#[trigger] steps@[k], regs as nat),
            regs == 1 || exists|k: int|
                0 <= k < i && !step_below(#[trigger] steps@[k], (regs - 1) as nat),
        decreases steps.len() - i,
    {
        let top = top_register(&steps[i]);
        assert(step_below(steps@[i as int], (1 + d) as nat));
        assert(top < 1 + d);
        if top >= regs {
            regs = top + 1;
            assert(!step_below(steps@[i as int], (regs - 1) as nat));
            assert forall|k: int| 0 <= k < i + 1 implies step_below(#[trigger] steps@[k], regs as nat) by {
                if k < i {
                    assert(step_below(steps@[k], (regs - 1) as nat) || step_below(steps@[k], regs as nat));
                }
            }
        }
        i += 1;
    }
    let ghost n = regs as nat;
    assert(all_below(steps@, n));
    proof {
        if is_sum_chain(*e) {
            lemma_chain_assign(*e, 0, 1);
            if regs > 1 {
                lemma_below_widen(steps@, 1, (regs - 1) as nat);
            }
        }
        if regs > 1 {
            let k = choose|k: int| 0 <= k < steps.len() && !step_below(#[trigger] steps@[k], (regs - 1) as nat);
            assert(!all_below(steps@, (regs - 1) as nat));
        }
        assert forall|env: Seq<DualV>, f: Funcs|
            reads_below(*e, env.len()) && quot_is_odd(f) implies #[trigger] materialize(
                steps@,
                n,
                env,
                f,
            ) == eval(*e, env, f) by {
            lemma_assign(*e, 0, 1, Seq::new(n, |i: int| constant(0)), env, f);
        }
    }
    Some(Plan { steps, regs })
}

} // verus!
