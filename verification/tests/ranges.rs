//! Value ranges.
use analyssa::analysis::range::ValueRange;
use analyssa::events::{EventKind, EventLog};
use analyssa::ir::block::{SsaBlock, SsaInstruction};
use analyssa::ir::function::SsaFunction;
use analyssa::ir::ops::SsaOp;
use analyssa::ir::phi::{PhiNode, PhiOperand};
use analyssa::ir::value::ConstValue;
use analyssa::ir::variable::{DefSite, SsaVarId, VariableOrigin};
use analyssa::passes::ranges::{RangeResult, ranges_overlap, run, try_simplify_comparison};
use analyssa::testing::{MockTarget, MockType};

#[test]
fn ranges_overlap_basics() {
    // Non-overlapping ranges
    let a = ValueRange::bounded(0, 5);
    let b = ValueRange::bounded(10, 15);
    assert!(!ranges_overlap(&a, &b));

    // Overlapping ranges
    let c = ValueRange::bounded(0, 10);
    let d = ValueRange::bounded(5, 15);
    assert!(ranges_overlap(&c, &d));

    // Same range
    let e = ValueRange::bounded(5, 10);
    assert!(ranges_overlap(&e, &e));

    // Top overlaps with everything
    let top = ValueRange::top();
    assert!(ranges_overlap(&top, &a));

    // Bottom doesn't overlap
    let bottom = ValueRange::bottom();
    assert!(!ranges_overlap(&bottom, &a));
}

fn make_result(entries: Vec<(SsaVarId, ValueRange)>) -> RangeResult {
    RangeResult {
        ranges: entries
            .into_iter()
            .map(|(var, range)| (var.index(), range))
            .collect(),
    }
}

#[test]
fn try_simplify_clt_always_true() {
    let v0 = SsaVarId::from_index(0);
    let v1 = SsaVarId::from_index(1);
    let dest = SsaVarId::from_index(2);
    let result = make_result(vec![
        (v0, ValueRange::bounded(0, 5)),
        (v1, ValueRange::bounded(10, 20)),
    ]);
    let op: SsaOp<MockTarget> = SsaOp::Clt {
        dest,
        left: v0,
        right: v1,
        unsigned: false,
    };
    assert_eq!(try_simplify_comparison(&op, &result), Some((dest, true)));
}

#[test]
fn try_simplify_cgt_always_true() {
    let v0 = SsaVarId::from_index(0);
    let v1 = SsaVarId::from_index(1);
    let dest = SsaVarId::from_index(2);
    let result = make_result(vec![
        (v0, ValueRange::bounded(100, 200)),
        (v1, ValueRange::bounded(0, 50)),
    ]);
    let op: SsaOp<MockTarget> = SsaOp::Cgt {
        dest,
        left: v0,
        right: v1,
        unsigned: false,
    };
    assert_eq!(try_simplify_comparison(&op, &result), Some((dest, true)));
}

#[test]
fn try_simplify_ceq_never() {
    let v0 = SsaVarId::from_index(0);
    let v1 = SsaVarId::from_index(1);
    let dest = SsaVarId::from_index(2);
    let result = make_result(vec![
        (v0, ValueRange::bounded(0, 5)),
        (v1, ValueRange::bounded(10, 20)),
    ]);
    let op: SsaOp<MockTarget> = SsaOp::Ceq {
        dest,
        left: v0,
        right: v1,
    };
    assert_eq!(try_simplify_comparison(&op, &result), Some((dest, false)));
}

#[test]
fn try_simplify_ceq_constants_equal() {
    let v0 = SsaVarId::from_index(0);
    let v1 = SsaVarId::from_index(1);
    let dest = SsaVarId::from_index(2);
    let result = make_result(vec![
        (v0, ValueRange::constant(42)),
        (v1, ValueRange::constant(42)),
    ]);
    let op: SsaOp<MockTarget> = SsaOp::Ceq {
        dest,
        left: v0,
        right: v1,
    };
    assert_eq!(try_simplify_comparison(&op, &result), Some((dest, true)));
}

fn instr(op: SsaOp<MockTarget>) -> SsaInstruction<MockTarget> {
    SsaInstruction::synthetic(op)
}

fn local_at(
    ssa: &mut SsaFunction<MockTarget>,
    idx: u16,
    block: usize,
    instr: usize,
) -> SsaVarId {
    ssa.create_variable(
        VariableOrigin::Local(idx),
        0,
        DefSite::instruction(block, instr),
        MockType::I32,
    )
}

#[test]
fn range_propagation_through_copy() {
    let mut ssa: SsaFunction<MockTarget> = SsaFunction::new(0, 2);
    let v0 = local_at(&mut ssa, 0, 0, 0);
    let v1 = local_at(&mut ssa, 1, 0, 1);
    let mut block = SsaBlock::new(0);
    block.add_instruction(instr(SsaOp::Const {
        dest: v0,
        value: ConstValue::I32(10),
    }));
    block.add_instruction(instr(SsaOp::Copy { dest: v1, src: v0 }));
    block.add_instruction(instr(SsaOp::Return { value: Some(v1) }));
    ssa.add_block(block);
    ssa.recompute_uses();

    let mut log: EventLog<MockTarget> = EventLog::new();
    let method = 0u32;
    let changed = run(&mut ssa, &method, &mut log, 20);
    let _ = changed;
    // Just verify no crash
}

#[test]
fn range_on_add_propagates() {
    let mut ssa: SsaFunction<MockTarget> = SsaFunction::new(0, 3);
    let v0 = local_at(&mut ssa, 0, 0, 0);
    let v1 = local_at(&mut ssa, 1, 0, 1);
    let v2 = local_at(&mut ssa, 2, 0, 2);
    let mut block = SsaBlock::new(0);
    block.add_instruction(instr(SsaOp::Const {
        dest: v0,
        value: ConstValue::I32(5),
    }));
    block.add_instruction(instr(SsaOp::Const {
        dest: v1,
        value: ConstValue::I32(3),
    }));
    block.add_instruction(instr(SsaOp::Add {
        dest: v2,
        left: v0,
        right: v1,
        flags: None,
    }));
    block.add_instruction(instr(SsaOp::Return { value: Some(v2) }));
    ssa.add_block(block);
    ssa.recompute_uses();

    let mut log: EventLog<MockTarget> = EventLog::new();
    let method = 0u32;
    let _ = run(&mut ssa, &method, &mut log, 20);
}

#[test]
fn range_simplifies_branch_with_constant_condition() {
    let mut ssa: SsaFunction<MockTarget> = SsaFunction::new(0, 2);
    let v0 = local_at(&mut ssa, 0, 0, 0);
    let mut b1 = SsaBlock::new(1);
    b1.add_instruction(instr(SsaOp::Return { value: None }));
    ssa.add_block(b1);
    let mut b2 = SsaBlock::new(2);
    b2.add_instruction(instr(SsaOp::Return { value: None }));
    ssa.add_block(b2);

    let mut b0 = SsaBlock::new(0);
    b0.add_instruction(instr(SsaOp::Const {
        dest: v0,
        value: ConstValue::I32(1),
    }));
    b0.add_instruction(instr(SsaOp::Branch {
        condition: v0,
        true_target: 1,
        false_target: 2,
    }));
    ssa.add_block(b0);
    ssa.recompute_uses();

    let mut log: EventLog<MockTarget> = EventLog::new();
    let method = 0u32;
    let changed = run(&mut ssa, &method, &mut log, 20);
    // Branch on constant 1 should be simplified to Jump 1
    if changed {
        assert!(matches!(
            ssa.block(0).unwrap().terminator_op().unwrap(),
            SsaOp::Jump { target: 1 }
        ));
    }
}

#[test]
fn single_block_no_branch_no_changes() {
    let mut ssa: SsaFunction<MockTarget> = SsaFunction::new(0, 1);
    let v0 = SsaVarId::from_index(0);
    ssa.create_variable(
        VariableOrigin::Local(0),
        0,
        DefSite::instruction(0, 0),
        MockType::I32,
    );
    let mut block = SsaBlock::new(0);
    block.add_instruction(SsaInstruction::synthetic(SsaOp::Const {
        dest: v0,
        value: ConstValue::I32(42),
    }));
    block.add_instruction(SsaInstruction::synthetic(SsaOp::Return { value: Some(v0) }));
    ssa.add_block(block);
    ssa.recompute_uses();
    let mut log: EventLog<MockTarget> = EventLog::new();
    let method = 0u32;
    let changed = run(&mut ssa, &method, &mut log, 20);
    assert!(!changed);
}

#[test]
fn comparison_folding_with_ranges() {
    let mut ssa: SsaFunction<MockTarget> = SsaFunction::new(0, 3);
    let v0 = local_at(&mut ssa, 0, 0, 0);
    let v1 = local_at(&mut ssa, 1, 0, 1);
    let v2 = local_at(&mut ssa, 2, 0, 2);
    let mut block = SsaBlock::new(0);
    block.add_instruction(instr(SsaOp::Const {
        dest: v0,
        value: ConstValue::I32(1),
    }));
    block.add_instruction(instr(SsaOp::Const {
        dest: v1,
        value: ConstValue::I32(100),
    }));
    // v0 < v1 is always true since both are constants
    block.add_instruction(instr(SsaOp::Clt {
        dest: v2,
        left: v0,
        right: v1,
        unsigned: false,
    }));
    block.add_instruction(instr(SsaOp::Return { value: Some(v2) }));
    ssa.add_block(block);
    ssa.recompute_uses();

    let mut log: EventLog<MockTarget> = EventLog::new();
    let method = 0u32;
    let changed = run(&mut ssa, &method, &mut log, 20);
    // Should fold Clt to Const(true)
    if changed {
        assert!(log.has(EventKind::ConstantFolded));
    }
}

#[test]
fn range_propagation_does_not_crash_with_phi() {
    let mut ssa: SsaFunction<MockTarget> = SsaFunction::new(0, 4);
    let v0 = local_at(&mut ssa, 0, 0, 0);
    let v1 = local_at(&mut ssa, 1, 1, 0);
    let phi_var =
        ssa.create_variable(VariableOrigin::Local(2), 0, DefSite::phi(2), MockType::I32);
    let cond = local_at(&mut ssa, 3, 0, 1);

    let mut b0 = SsaBlock::new(0);
    b0.add_instruction(instr(SsaOp::Const {
        dest: v0,
        value: ConstValue::I32(0),
    }));
    b0.add_instruction(instr(SsaOp::Const {
        dest: cond,
        value: ConstValue::I32(1),
    }));
    b0.add_instruction(instr(SsaOp::Branch {
        condition: cond,
        true_target: 1,
        false_target: 2,
    }));
    ssa.add_block(b0);

    let mut b1 = SsaBlock::new(1);
    b1.add_instruction(instr(SsaOp::Const {
        dest: v1,
        value: ConstValue::I32(10),
    }));
    b1.add_instruction(instr(SsaOp::Jump { target: 2 }));
    ssa.add_block(b1);

    let mut b2 = SsaBlock::new(2);
    let mut phi = analyssa::ir::phi::PhiNode::new(phi_var, VariableOrigin::Local(2));
    phi.add_operand(analyssa::ir::phi::PhiOperand::new(v0, 0));
    phi.add_operand(analyssa::ir::phi::PhiOperand::new(v1, 1));
    b2.add_phi(phi);
    b2.add_instruction(instr(SsaOp::Return {
        value: Some(phi_var),
    }));
    ssa.add_block(b2);
    ssa.recompute_uses();

    let mut log: EventLog<MockTarget> = EventLog::new();
    let method = 0u32;
    let _ = run(&mut ssa, &method, &mut log, 20);
}

#[test]
fn ranges_overlap_edge_cases() {
    // Exactly adjacent
    let a = ValueRange::bounded(0, 5);
    let b = ValueRange::bounded(6, 10);
    assert!(
        !ranges_overlap(&a, &b),
        "adjacent ranges should not overlap"
    );

    // Single point overlapping
    let c = ValueRange::bounded(5, 5);
    let d = ValueRange::bounded(5, 10);
    assert!(
        ranges_overlap(&c, &d),
        "single point should overlap if same value"
    );

    // Negative ranges
    let e = ValueRange::bounded(-10, -1);
    let f = ValueRange::bounded(-5, 5);
    assert!(
        ranges_overlap(&e, &f),
        "negative ranges should overlap correctly"
    );

    // Non-overlapping negatives
    let g = ValueRange::bounded(-10, -5);
    let h = ValueRange::bounded(-4, 5);
    assert!(
        !ranges_overlap(&g, &h),
        "non-overlapping negatives should not overlap"
    );
}

#[test]
fn try_simplify_clt_always_false() {
    let v0 = SsaVarId::from_index(0);
    let v1 = SsaVarId::from_index(1);
    let dest = SsaVarId::from_index(2);
    let result = make_result(vec![
        (v0, ValueRange::bounded(10, 20)),
        (v1, ValueRange::bounded(0, 5)),
    ]);
    let op: SsaOp<MockTarget> = SsaOp::Clt {
        dest,
        left: v0,
        right: v1,
        unsigned: false,
    };
    assert_eq!(try_simplify_comparison(&op, &result), Some((dest, false)));
}

#[test]
fn try_simplify_cgt_always_false() {
    let v0 = SsaVarId::from_index(0);
    let v1 = SsaVarId::from_index(1);
    let dest = SsaVarId::from_index(2);
    let result = make_result(vec![
        (v0, ValueRange::bounded(0, 5)),
        (v1, ValueRange::bounded(10, 20)),
    ]);
    let op: SsaOp<MockTarget> = SsaOp::Cgt {
        dest,
        left: v0,
        right: v1,
        unsigned: false,
    };
    assert_eq!(try_simplify_comparison(&op, &result), Some((dest, false)));
}
