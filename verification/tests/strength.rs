//! Strength reduction.
use analyssa::events::{EventKind, EventLog};
use analyssa::ir::block::{SsaBlock, SsaInstruction};
use analyssa::ir::function::SsaFunction;
use analyssa::ir::ops::SsaOp;
use analyssa::ir::value::ConstValue;
use analyssa::ir::variable::{DefSite, SsaVarId, VariableOrigin};
use analyssa::passes::strength::run;
use analyssa::testing::{MockTarget, MockType};

fn instr(op: SsaOp<MockTarget>) -> SsaInstruction<MockTarget> {
    SsaInstruction::synthetic(op)
}

fn local_at(
    ssa: &mut SsaFunction<MockTarget>,
    idx: u16,
    block: usize,
    instr: usize,
) -> SsaVarId {
    ssa.create_variable(
        VariableOrigin::Local(idx),
        0,
        DefSite::instruction(block, instr),
        MockType::I32,
    )
}

#[test]
fn mul_by_power_of_two_reduced() {
    let mut ssa: SsaFunction<MockTarget> = SsaFunction::new(0, 3);
    let x = local_at(&mut ssa, 0, 0, 0);
    let pow2 = local_at(&mut ssa, 1, 0, 1);
    let result = local_at(&mut ssa, 2, 0, 2);

    let mut block = SsaBlock::new(0);
    block.add_instruction(instr(SsaOp::Const {
        dest: x,
        value: ConstValue::I32(10),
    }));
    block.add_instruction(instr(SsaOp::Const {
        dest: pow2,
        value: ConstValue::I32(8),
    }));
    block.add_instruction(instr(SsaOp::Mul {
        dest: result,
        left: x,
        right: pow2,
        flags: None,
    }));
    block.add_instruction(instr(SsaOp::Return {
        value: Some(result),
    }));
    ssa.add_block(block);
    ssa.recompute_uses();

    let mut log: EventLog<MockTarget> = EventLog::new();
    let changed = run(&mut ssa, &0u32, &mut log, &|_| true);
    assert!(changed, "mul by power of two should reduce to shift");
    assert!(log.has(EventKind::StrengthReduced));
    assert!(matches!(
        ssa.block(0).unwrap().instruction(2).unwrap().op(),
        SsaOp::Shl { .. }
    ));
}

#[test]
fn mul_by_non_power_of_two_not_reduced() {
    let mut ssa: SsaFunction<MockTarget> = SsaFunction::new(0, 3);
    let x = local_at(&mut ssa, 0, 0, 0);
    let not_pow2 = local_at(&mut ssa, 1, 0, 1);
    let result = local_at(&mut ssa, 2, 0, 2);

    let mut block = SsaBlock::new(0);
    block.add_instruction(instr(SsaOp::Const {
        dest: x,
        value: ConstValue::I32(10),
    }));
    block.add_instruction(instr(SsaOp::Const {
        dest: not_pow2,
        value: ConstValue::I32(7),
    }));
    block.add_instruction(instr(SsaOp::Mul {
        dest: result,
        left: x,
        right: not_pow2,
        flags: None,
    }));
    block.add_instruction(instr(SsaOp::Return {
        value: Some(result),
    }));
    ssa.add_block(block);
    ssa.recompute_uses();

    let mut log: EventLog<MockTarget> = EventLog::new();
    let changed = run(&mut ssa, &0u32, &mut log, &|_| true);
    assert!(!changed, "mul by non-power-of-two should NOT reduce");
}

#[test]
fn unsigned_div_by_power_of_two_reduced() {
    let mut ssa: SsaFunction<MockTarget> = SsaFunction::new(0, 3);
    let x = local_at(&mut ssa, 0, 0, 0);
    let pow2 = local_at(&mut ssa, 1, 0, 1);
    let result = local_at(&mut ssa, 2, 0, 2);

    let mut block = SsaBlock::new(0);
    block.add_instruction(instr(SsaOp::Const {
        dest: x,
        value: ConstValue::I32(100),
    }));
    block.add_instruction(instr(SsaOp::Const {
        dest: pow2,
        value: ConstValue::I32(4),
    }));
    block.add_instruction(instr(SsaOp::Div {
        dest: result,
        left: x,
        right: pow2,
        unsigned: true,
        flags: None,
    }));
    block.add_instruction(instr(SsaOp::Return {
        value: Some(result),
    }));
    ssa.add_block(block);
    ssa.recompute_uses();

    let mut log: EventLog<MockTarget> = EventLog::new();
    let changed = run(&mut ssa, &0u32, &mut log, &|_| true);
    assert!(changed, "unsigned div by power of two should reduce");
    assert!(log.has(EventKind::StrengthReduced));
    assert!(matches!(
        ssa.block(0).unwrap().instruction(2).unwrap().op(),
        SsaOp::Shr { unsigned: true, .. }
    ));
}

#[test]
fn signed_div_by_power_of_two_reduced_when_non_negative() {
    let mut ssa: SsaFunction<MockTarget> = SsaFunction::new(0, 3);
    let x = local_at(&mut ssa, 0, 0, 0);
    let pow2 = local_at(&mut ssa, 1, 0, 1);
    let result = local_at(&mut ssa, 2, 0, 2);

    let mut block = SsaBlock::new(0);
    block.add_instruction(instr(SsaOp::Const {
        dest: x,
        value: ConstValue::I32(100),
    }));
    block.add_instruction(instr(SsaOp::Const {
        dest: pow2,
        value: ConstValue::I32(8),
    }));
    block.add_instruction(instr(SsaOp::Div {
        dest: result,
        left: x,
        right: pow2,
        unsigned: false,
        flags: None,
    }));
    block.add_instruction(instr(SsaOp::Return {
        value: Some(result),
    }));
    ssa.add_block(block);
    ssa.recompute_uses();

    let mut log: EventLog<MockTarget> = EventLog::new();
    let changed = run(&mut ssa, &0u32, &mut log, &|_| true);
    assert!(
        changed,
        "signed div by power of two should reduce when non-negative"
    );
    assert!(log.has(EventKind::StrengthReduced));
}

#[test]
fn signed_div_not_reduced_when_not_proven_non_negative() {
    let mut ssa: SsaFunction<MockTarget> = SsaFunction::new(0, 3);
    let x = local_at(&mut ssa, 0, 0, 0);
    let pow2 = local_at(&mut ssa, 1, 0, 1);
    let result = local_at(&mut ssa, 2, 0, 2);

    let mut block = SsaBlock::new(0);
    block.add_instruction(instr(SsaOp::Const {
        dest: x,
        value: ConstValue::I32(-100),
    }));
    block.add_instruction(instr(SsaOp::Const {
        dest: pow2,
        value: ConstValue::I32(4),
    }));
    block.add_instruction(instr(SsaOp::Div {
        dest: result,
        left: x,
        right: pow2,
        unsigned: false,
        flags: None,
    }));
    block.add_instruction(instr(SsaOp::Return {
        value: Some(result),
    }));
    ssa.add_block(block);
    ssa.recompute_uses();

    let mut log: EventLog<MockTarget> = EventLog::new();
    let changed = run(&mut ssa, &0u32, &mut log, &|_| false);
    assert!(
        !changed,
        "signed div should NOT reduce when non-negativity not proven"
    );
}

#[test]
fn unsigned_rem_by_power_of_two_reduced() {
    let mut ssa: SsaFunction<MockTarget> = SsaFunction::new(0, 3);
    let x = local_at(&mut ssa, 0, 0, 0);
    let pow2 = local_at(&mut ssa, 1, 0, 1);
    let result = local_at(&mut ssa, 2, 0, 2);

    let mut block = SsaBlock::new(0);
    block.add_instruction(instr(SsaOp::Const {
        dest: x,
        value: ConstValue::I32(100),
    }));
    block.add_instruction(instr(SsaOp::Const {
        dest: pow2,
        value: ConstValue::I32(8),
    }));
    block.add_instruction(instr(SsaOp::Rem {
        dest: result,
        left: x,
        right: pow2,
        unsigned: true,
        flags: None,
    }));
    block.add_instruction(instr(SsaOp::Return {
        value: Some(result),
    }));
    ssa.add_block(block);
    ssa.recompute_uses();

    let mut log: EventLog<MockTarget> = EventLog::new();
    let changed = run(&mut ssa, &0u32, &mut log, &|_| true);
    assert!(changed, "unsigned rem by power of two should reduce to and");
    assert!(log.has(EventKind::StrengthReduced));
    assert!(matches!(
        ssa.block(0).unwrap().instruction(2).unwrap().op(),
        SsaOp::And { .. }
    ));
}

#[test]
fn multiple_reductions_in_one_run() {
    let mut ssa: SsaFunction<MockTarget> = SsaFunction::new(0, 5);
    let x = local_at(&mut ssa, 0, 0, 0);
    let y = local_at(&mut ssa, 1, 0, 1);
    let p1 = local_at(&mut ssa, 2, 0, 2);
    let p2 = local_at(&mut ssa, 3, 0, 3);
    let r1 = local_at(&mut ssa, 4, 0, 4);
    let r2 = local_at(&mut ssa, 5, 0, 5);

    let mut block = SsaBlock::new(0);
    block.add_instruction(instr(SsaOp::Const {
        dest: x,
        value: ConstValue::I32(5),
    }));
    block.add_instruction(instr(SsaOp::Const {
        dest: p1,
        value: ConstValue::I32(4),
    }));
    block.add_instruction(instr(SsaOp::Const {
        dest: y,
        value: ConstValue::I32(50),
    }));
    block.add_instruction(instr(SsaOp::Const {
        dest: p2,
        value: ConstValue::I32(16),
    }));
    block.add_instruction(instr(SsaOp::Mul {
        dest: r1,
        left: x,
        right: p1,
        flags: None,
    }));
    block.add_instruction(instr(SsaOp::Mul {
        dest: r2,
        left: y,
        right: p2,
        flags: None,
    }));
    block.add_instruction(instr(SsaOp::Return { value: Some(r1) }));
    ssa.add_block(block);
    ssa.recompute_uses();

    let mut log: EventLog<MockTarget> = EventLog::new();
    let changed = run(&mut ssa, &0u32, &mut log, &|_| true);
    assert!(changed, "multiple reductions should all fire");
    assert!(log.count_kind(EventKind::StrengthReduced) >= 2);
}

#[test]
fn no_candidates_returns_false() {
    let mut ssa: SsaFunction<MockTarget> = SsaFunction::new(0, 2);
    let x = local_at(&mut ssa, 0, 0, 0);
    let y = local_at(&mut ssa, 1, 0, 1);
    let result = local_at(&mut ssa, 2, 0, 2);

    let mut block = SsaBlock::new(0);
    block.add_instruction(instr(SsaOp::Const {
        dest: x,
        value: ConstValue::I32(10),
    }));
    block.add_instruction(instr(SsaOp::Const {
        dest: y,
        value: ConstValue::I32(3),
    }));
    block.add_instruction(instr(SsaOp::Add {
        dest: result,
        left: x,
        right: y,
        flags: None,
    }));
    block.add_instruction(instr(SsaOp::Return {
        value: Some(result),
    }));
    ssa.add_block(block);
    ssa.recompute_uses();

    let mut log: EventLog<MockTarget> = EventLog::new();
    let changed = run(&mut ssa, &0u32, &mut log, &|_| true);
    assert!(!changed, "no strength-reducible ops should return false");
}

#[test]
fn strength_empty_function_no_changes() {
    let mut ssa: SsaFunction<MockTarget> = SsaFunction::new(0, 0);
    let mut log: EventLog<MockTarget> = EventLog::new();
    let changed = run(&mut ssa, &0u32, &mut log, &|_| true);
    assert!(!changed);
}

#[test]
fn shared_constant_not_reduced() {
    let mut ssa: SsaFunction<MockTarget> = SsaFunction::new(0, 3);
    let x = local_at(&mut ssa, 0, 0, 0);
    let pow2 = local_at(&mut ssa, 1, 0, 1);
    let r1 = local_at(&mut ssa, 2, 0, 2);
    let r2 = local_at(&mut ssa, 3, 0, 3);

    let mut block = SsaBlock::new(0);
    block.add_instruction(instr(SsaOp::Const {
        dest: x,
        value: ConstValue::I32(10),
    }));
    block.add_instruction(instr(SsaOp::Const {
        dest: pow2,
        value: ConstValue::I32(8),
    }));
    block.add_instruction(instr(SsaOp::Mul {
        dest: r1,
        left: x,
        right: pow2,
        flags: None,
    }));
    block.add_instruction(instr(SsaOp::Add {
        dest: r2,
        left: r1,
        right: pow2,
        flags: None,
    }));
    block.add_instruction(instr(SsaOp::Return { value: Some(r2) }));
    ssa.add_block(block);
    ssa.recompute_uses();

    let mut log: EventLog<MockTarget> = EventLog::new();
    let changed = run(&mut ssa, &0u32, &mut log, &|_| true);
    let _ = changed;
}
