use xprlib::op::{Op, UnOp};
use xprlib::plan::{lower, Operand, Step};
use xprlib::xpr::Xpr;

fn var(i: usize) -> Xpr {
    Xpr::Var(i)
}

fn lit(c: f64) -> Xpr {
    Xpr::Const(c.to_bits())
}

fn bin(op: Op, l: Xpr, r: Xpr) -> Xpr {
    Xpr::Bin(op, Box::new(l), Box::new(r))
}

fn un(op: UnOp, a: Xpr) -> Xpr {
    Xpr::Un(op, Box::new(a))
}

#[test]
fn fun() {
    assert_eq!(1 + 1, 2);
}

#[test]
fn leaf_is_loaded_into_the_target() {
    let p = lower(&var(3)).unwrap();
    assert_eq!(p.steps, vec![Step::Load(0, Operand::Var(3))]);
    assert_eq!(p.regs, 1);
}

#[test]
fn chained_sum_needs_no_temporary() {
    // x0 + x0 + x1 + x2
    let e = bin(Op::Add, bin(Op::Add, bin(Op::Add, var(0), var(0)), var(1)), var(2));
    let p = lower(&e).unwrap();
    assert_eq!(
        p.steps,
        vec![
            Step::Load(0, Operand::Var(0)),
            Step::Combine(Op::Add, 0, Operand::Var(0)),
            Step::Combine(Op::Add, 0, Operand::Var(1)),
            Step::Combine(Op::Add, 0, Operand::Var(2)),
        ]
    );
    assert_eq!(p.regs, 1);
}

#[test]
fn right_nested_sum_folds_through() {
    // a - (b + c) folds as a - b - c
    let e = bin(Op::Sub, var(0), bin(Op::Add, var(1), var(2)));
    let p = lower(&e).unwrap();
    assert_eq!(
        p.steps,
        vec![
            Step::Load(0, Operand::Var(0)),
            Step::Combine(Op::Sub, 0, Operand::Var(1)),
            Step::Combine(Op::Sub, 0, Operand::Var(2)),
        ]
    );
    assert_eq!(p.regs, 1);
    // a - (b - c) folds as a - b + c
    let e = bin(Op::Sub, var(0), bin(Op::Sub, var(1), var(2)));
    let p = lower(&e).unwrap();
    assert_eq!(
        p.steps,
        vec![
            Step::Load(0, Operand::Var(0)),
            Step::Combine(Op::Sub, 0, Operand::Var(1)),
            Step::Combine(Op::Add, 0, Operand::Var(2)),
        ]
    );
}

#[test]
fn negation_folds_into_sum() {
    // x + (-x)
    let e = bin(Op::Add, var(0), un(UnOp::Neg, var(0)));
    let p = lower(&e).unwrap();
    assert_eq!(
        p.steps,
        vec![Step::Load(0, Operand::Var(0)), Step::Combine(Op::Sub, 0, Operand::Var(0))]
    );
    assert_eq!(p.regs, 1);
}

#[test]
fn negation_of_difference_is_applied_after() {
    // -(b - a)
    let e = un(UnOp::Neg, bin(Op::Sub, var(1), var(0)));
    let p = lower(&e).unwrap();
    assert_eq!(
        p.steps,
        vec![
            Step::Load(0, Operand::Var(1)),
            Step::Combine(Op::Sub, 0, Operand::Var(0)),
            Step::Apply(UnOp::Neg, 0),
        ]
    );
}

#[test]
fn product_of_sum_uses_one_temporary() {
    // c * (a + b) = c * a + c * b, with c * b built in register 1
    let e = bin(Op::Mul, var(2), bin(Op::Add, var(0), var(1)));
    let p = lower(&e).unwrap();
    assert_eq!(
        p.steps,
        vec![
            Step::Load(0, Operand::Var(2)),
            Step::Load(1, Operand::Reg(0)),
            Step::Combine(Op::Mul, 0, Operand::Var(0)),
            Step::Combine(Op::Mul, 1, Operand::Var(1)),
            Step::Combine(Op::Add, 0, Operand::Reg(1)),
        ]
    );
    assert_eq!(p.regs, 2);
}

#[test]
fn product_of_difference_subtracts_the_temporary() {
    let e = bin(Op::Mul, var(2), bin(Op::Sub, var(0), var(1)));
    let p = lower(&e).unwrap();
    assert_eq!(p.steps[4], Step::Combine(Op::Sub, 0, Operand::Reg(1)));
    assert_eq!(p.regs, 2);
}

#[test]
fn nested_products_fold_without_temporary() {
    // a * (b * c)
    let e = bin(Op::Mul, var(0), bin(Op::Mul, var(1), var(2)));
    let p = lower(&e).unwrap();
    assert_eq!(
        p.steps,
        vec![
            Step::Load(0, Operand::Var(0)),
            Step::Combine(Op::Mul, 0, Operand::Var(1)),
            Step::Combine(Op::Mul, 0, Operand::Var(2)),
        ]
    );
    assert_eq!(p.regs, 1);
}

#[test]
fn product_with_negation_negates_afterwards() {
    // a * (-b) and a / (-b)
    for op in [Op::Mul, Op::Div] {
        let e = bin(op, var(0), un(UnOp::Neg, var(1)));
        let p = lower(&e).unwrap();
        assert_eq!(
            p.steps,
            vec![
                Step::Load(0, Operand::Var(0)),
                Step::Combine(op, 0, Operand::Var(1)),
                Step::Apply(UnOp::Neg, 0),
            ]
        );
    }
}

#[test]
fn sum_in_a_quotient_goes_through_a_temporary() {
    // a / (b + c)
    let e = bin(Op::Div, var(0), bin(Op::Add, var(1), var(2)));
    let p = lower(&e).unwrap();
    assert_eq!(
        p.steps,
        vec![
            Step::Load(0, Operand::Var(0)),
            Step::Load(1, Operand::Var(1)),
            Step::Combine(Op::Add, 1, Operand::Var(2)),
            Step::Combine(Op::Div, 0, Operand::Reg(1)),
        ]
    );
    assert_eq!(p.regs, 2);
}

#[test]
fn unary_function_applies_in_place() {
    let e = un(UnOp::Sin, bin(Op::Add, var(0), var(1)));
    let p = lower(&e).unwrap();
    assert_eq!(
        p.steps,
        vec![
            Step::Load(0, Operand::Var(0)),
            Step::Combine(Op::Add, 0, Operand::Var(1)),
            Step::Apply(UnOp::Sin, 0),
        ]
    );
    // a + sin(b) evaluates sin(b) in a temporary
    let e = bin(Op::Add, var(0), un(UnOp::Sin, var(1)));
    let p = lower(&e).unwrap();
    assert_eq!(
        p.steps,
        vec![
            Step::Load(0, Operand::Var(0)),
            Step::Load(1, Operand::Var(1)),
            Step::Apply(UnOp::Sin, 1),
            Step::Combine(Op::Add, 0, Operand::Reg(1)),
        ]
    );
}

#[test]
fn constants_fold_directly() {
    // x * 2 + 5, and x ^ 3
    let e = bin(Op::Add, bin(Op::Mul, var(0), lit(2.0)), lit(5.0));
    let p = lower(&e).unwrap();
    assert_eq!(
        p.steps,
        vec![
            Step::Load(0, Operand::Var(0)),
            Step::Combine(Op::Mul, 0, Operand::Const(2.0f64.to_bits())),
            Step::Combine(Op::Add, 0, Operand::Const(5.0f64.to_bits())),
        ]
    );
    let e = bin(Op::Pow, var(0), lit(3.0));
    let p = lower(&e).unwrap();
    assert_eq!(
        p.steps,
        vec![Step::Load(0, Operand::Var(0)), Step::Combine(Op::Pow, 0, Operand::Const(3.0f64.to_bits()))]
    );
}

#[test]
fn temporaries_nest() {
    // a * ((b + c) / d + e): the quotient needs a register above the one for the sum
    let q = bin(Op::Div, bin(Op::Add, var(1), var(2)), var(3));
    let e = bin(Op::Mul, var(0), bin(Op::Add, q, var(4)));
    let p = lower(&e).unwrap();
    assert_eq!(p.regs, 3);
    assert!(p.steps.iter().any(|s| matches!(s, Step::Load(2, _))));
}

#[test]
fn depth_counts_nesting() {
    assert_eq!(var(0).depth(), Some(0));
    assert_eq!(lit(1.5).depth(), Some(0));
    let e = bin(Op::Add, un(UnOp::Neg, var(0)), var(1));
    assert_eq!(e.depth(), Some(2));
}

#[test]
fn shifted_moves_input_positions() {
    let e = bin(Op::Mul, var(0), un(UnOp::Exp, bin(Op::Add, var(1), lit(2.0))));
    let s = e.shifted(3);
    let p = lower(&s).unwrap();
    let q = lower(&e).unwrap();
    assert_eq!(p.steps.len(), q.steps.len());
    assert_eq!(p.steps[0], Step::Load(0, Operand::Var(3)));
    assert!(p.steps.contains(&Step::Load(1, Operand::Var(4))));
    assert!(p.steps.contains(&Step::Combine(Op::Add, 1, Operand::Const(2.0f64.to_bits()))));
    let c = s.clone();
    assert_eq!(lower(&c).unwrap().steps, p.steps);
}

#[test]
fn power_with_expression_exponent_uses_temporary() {
    // x ^ y folds directly; x ^ (y * 2) evaluates the exponent first
    let p = lower(&bin(Op::Pow, var(0), var(1))).unwrap();
    assert_eq!(
        p.steps,
        vec![Step::Load(0, Operand::Var(0)), Step::Combine(Op::Pow, 0, Operand::Var(1))]
    );
    let p = lower(&bin(Op::Pow, var(0), bin(Op::Mul, var(1), lit(2.0)))).unwrap();
    assert_eq!(
        p.steps,
        vec![
            Step::Load(0, Operand::Var(0)),
            Step::Load(1, Operand::Var(1)),
            Step::Combine(Op::Mul, 1, Operand::Const(2.0f64.to_bits())),
            Step::Combine(Op::Pow, 0, Operand::Reg(1)),
        ]
    );
    assert_eq!(p.regs, 2);
}

#[test]
fn commuted_sum_reads_inputs_in_the_other_order() {
    let ab = lower(&bin(Op::Add, var(0), var(1))).unwrap();
    let ba = lower(&bin(Op::Add, var(1), var(0))).unwrap();
    assert_eq!(ab.steps[0], Step::Load(0, Operand::Var(0)));
    assert_eq!(ba.steps[0], Step::Load(0, Operand::Var(1)));
    assert_eq!(ab.steps[1], Step::Combine(Op::Add, 0, Operand::Var(1)));
    assert_eq!(ba.steps[1], Step::Combine(Op::Add, 0, Operand::Var(0)));
}

#[test]
fn distributed_product_and_product_of_sum() {
    // (a + b) * c evaluates the sum first, then scales it
    let p = lower(&bin(Op::Mul, bin(Op::Add, var(0), var(1)), var(2))).unwrap();
    assert_eq!(
        p.steps,
        vec![
            Step::Load(0, Operand::Var(0)),
            Step::Combine(Op::Add, 0, Operand::Var(1)),
            Step::Combine(Op::Mul, 0, Operand::Var(2)),
        ]
    );
    // a * c + b * c builds b * c in a temporary
    let e = bin(Op::Add, bin(Op::Mul, var(0), var(2)), bin(Op::Mul, var(1), var(2)));
    let p = lower(&e).unwrap();
    assert_eq!(p.regs, 2);
    assert_eq!(p.steps[p.steps.len() - 1], Step::Combine(Op::Add, 0, Operand::Reg(1)));
}
