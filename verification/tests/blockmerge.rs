//! Block merging.
use analyssa::events::{EventKind, EventLog};
use analyssa::ir::block::{SsaBlock, SsaInstruction};
use analyssa::ir::function::SsaFunction;
use analyssa::ir::ops::SsaOp;
use analyssa::ir::phi::{PhiNode, PhiOperand};
use analyssa::ir::value::ConstValue;
use analyssa::ir::variable::{DefSite, SsaVarId, VariableOrigin};
use analyssa::passes::blockmerge::run;
use analyssa::testing::{MockTarget, MockType};

fn instr(op: SsaOp<MockTarget>) -> SsaInstruction<MockTarget> {
    SsaInstruction::synthetic(op)
}

fn local_at(
    ssa: &mut SsaFunction<MockTarget>,
    idx: u16,
    block: usize,
    instr: usize,
) -> SsaVarId {
    ssa.create_variable(
        VariableOrigin::Local(idx),
        0,
        DefSite::instruction(block, instr),
        MockType::I32,
    )
}

#[test]
fn simple_trampoline_elimination() {
    let mut ssa: SsaFunction<MockTarget> = SsaFunction::new(0, 1);
    let v0 = local_at(&mut ssa, 0, 0, 0);
    let mut b0 = SsaBlock::new(0);
    b0.add_instruction(instr(SsaOp::Const {
        dest: v0,
        value: ConstValue::I32(42),
    }));
    b0.add_instruction(instr(SsaOp::Jump { target: 1 }));
    ssa.add_block(b0);
    let mut b1 = SsaBlock::new(1);
    b1.add_instruction(instr(SsaOp::Jump { target: 2 }));
    ssa.add_block(b1);
    let mut b2 = SsaBlock::new(2);
    b2.add_instruction(instr(SsaOp::Return { value: Some(v0) }));
    ssa.add_block(b2);
    ssa.recompute_uses();

    let mut log: EventLog<MockTarget> = EventLog::new();
    let method = 0u32;
    let changed = run(&mut ssa, &method, &mut log, 10);
    assert!(changed);
    // B1 trampoline should be eliminated
    assert!(log.has(EventKind::BranchSimplified) || log.has(EventKind::BlockRemoved));
}

#[test]
fn chain_of_trampolines() {
    let mut ssa: SsaFunction<MockTarget> = SsaFunction::new(0, 1);
    let v0 = local_at(&mut ssa, 0, 0, 0);
    let mut b0 = SsaBlock::new(0);
    b0.add_instruction(instr(SsaOp::Const {
        dest: v0,
        value: ConstValue::I32(1),
    }));
    b0.add_instruction(instr(SsaOp::Jump { target: 1 }));
    ssa.add_block(b0);
    for i in 1..4 {
        let mut b = SsaBlock::new(i);
        b.add_instruction(instr(SsaOp::Jump { target: i + 1 }));
        ssa.add_block(b);
    }
    let mut b4 = SsaBlock::new(4);
    b4.add_instruction(instr(SsaOp::Return { value: Some(v0) }));
    ssa.add_block(b4);
    ssa.recompute_uses();

    let mut log: EventLog<MockTarget> = EventLog::new();
    let method = 0u32;
    let changed = run(&mut ssa, &method, &mut log, 10);
    assert!(changed, "chain of trampolines should be eliminated");
}

#[test]
fn coalesce_sequential_blocks() {
    let mut ssa: SsaFunction<MockTarget> = SsaFunction::new(0, 2);
    let a = local_at(&mut ssa, 0, 0, 0);
    let b = local_at(&mut ssa, 1, 1, 0);
    let mut b0 = SsaBlock::new(0);
    b0.add_instruction(instr(SsaOp::Const {
        dest: a,
        value: ConstValue::I32(10),
    }));
    b0.add_instruction(instr(SsaOp::Jump { target: 1 }));
    ssa.add_block(b0);
    let mut b1 = SsaBlock::new(1);
    b1.add_instruction(instr(SsaOp::Copy { dest: b, src: a }));
    b1.add_instruction(instr(SsaOp::Return { value: Some(b) }));
    ssa.add_block(b1);
    ssa.recompute_uses();

    let mut log: EventLog<MockTarget> = EventLog::new();
    let method = 0u32;
    let changed = run(&mut ssa, &method, &mut log, 10);
    assert!(changed, "sequential blocks should coalesce");
}

#[test]
fn coalesce_with_phi_operand() {
    let mut ssa: SsaFunction<MockTarget> = SsaFunction::new(0, 3);
    let v0 = local_at(&mut ssa, 0, 0, 0);
    let v1 = local_at(&mut ssa, 1, 1, 0);
    let phi_var =
        ssa.create_variable(VariableOrigin::Local(2), 0, DefSite::phi(2), MockType::I32);
    let mut b0 = SsaBlock::new(0);
    b0.add_instruction(instr(SsaOp::Const {
        dest: v0,
        value: ConstValue::I32(5),
    }));
    b0.add_instruction(instr(SsaOp::Jump { target: 1 }));
    ssa.add_block(b0);
    let mut b1 = SsaBlock::new(1);
    b1.add_instruction(instr(SsaOp::Const {
        dest: v1,
        value: ConstValue::I32(10),
    }));
    b1.add_instruction(instr(SsaOp::Jump { target: 2 }));
    ssa.add_block(b1);
    let mut b2 = SsaBlock::new(2);
    let mut phi = PhiNode::new(phi_var, VariableOrigin::Local(2));
    phi.add_operand(PhiOperand::new(v0, 0));
    phi.add_operand(PhiOperand::new(v1, 1));
    b2.add_phi(phi);
    b2.add_instruction(instr(SsaOp::Return {
        value: Some(phi_var),
    }));
    ssa.add_block(b2);
    ssa.recompute_uses();

    let mut log: EventLog<MockTarget> = EventLog::new();
    let method = 0u32;
    let changed = run(&mut ssa, &method, &mut log, 10);
    let _ = changed;
}

#[test]
fn entry_trampoline_is_handled() {
    let mut ssa: SsaFunction<MockTarget> = SsaFunction::new(0, 1);
    let v0 = local_at(&mut ssa, 0, 1, 0);
    let mut b0 = SsaBlock::new(0);
    b0.add_instruction(instr(SsaOp::Jump { target: 1 }));
    ssa.add_block(b0);
    let mut b1 = SsaBlock::new(1);
    b1.add_instruction(instr(SsaOp::Const {
        dest: v0,
        value: ConstValue::I32(7),
    }));
    b1.add_instruction(instr(SsaOp::Return { value: Some(v0) }));
    ssa.add_block(b1);
    ssa.recompute_uses();

    let mut log: EventLog<MockTarget> = EventLog::new();
    let method = 0u32;
    let changed = run(&mut ssa, &method, &mut log, 10);
    assert!(changed, "entry trampoline should be handled");
}

#[test]
fn blockmerge_empty_function_no_changes() {
    let mut ssa: SsaFunction<MockTarget> = SsaFunction::new(0, 0);
    let mut log: EventLog<MockTarget> = EventLog::new();
    let method = 0u32;
    let changed = run(&mut ssa, &method, &mut log, 10);
    assert!(!changed);
}

#[test]
fn no_trampoline_no_changes() {
    let mut ssa: SsaFunction<MockTarget> = SsaFunction::new(0, 1);
    let v0 = local_at(&mut ssa, 0, 0, 0);
    let mut b0 = SsaBlock::new(0);
    b0.add_instruction(instr(SsaOp::Const {
        dest: v0,
        value: ConstValue::I32(1),
    }));
    b0.add_instruction(instr(SsaOp::Return { value: Some(v0) }));
    ssa.add_block(b0);
    ssa.recompute_uses();

    let mut log: EventLog<MockTarget> = EventLog::new();
    let method = 0u32;
    let changed = run(&mut ssa, &method, &mut log, 10);
    assert!(!changed, "no trampolines should mean no changes");
}

#[test]
fn trampoline_with_phi_successor() {
    let mut ssa: SsaFunction<MockTarget> = SsaFunction::new(0, 2);
    let v0 = local_at(&mut ssa, 0, 0, 0);
    let v1 = local_at(&mut ssa, 1, 2, 0);
    let phi_var =
        ssa.create_variable(VariableOrigin::Local(2), 0, DefSite::phi(2), MockType::I32);
    let mut b0 = SsaBlock::new(0);
    b0.add_instruction(instr(SsaOp::Const {
        dest: v0,
        value: ConstValue::I32(10),
    }));
    b0.add_instruction(instr(SsaOp::Jump { target: 1 }));
    ssa.add_block(b0);
    let mut b1 = SsaBlock::new(1);
    b1.add_instruction(instr(SsaOp::Jump { target: 2 }));
    ssa.add_block(b1);
    let mut b2 = SsaBlock::new(2);
    let mut phi = PhiNode::new(phi_var, VariableOrigin::Local(2));
    phi.add_operand(PhiOperand::new(v0, 1));
    b2.add_phi(phi);
    b2.add_instruction(instr(SsaOp::Const {
        dest: v1,
        value: ConstValue::I32(20),
    }));
    b2.add_instruction(instr(SsaOp::Return {
        value: Some(phi_var),
    }));
    ssa.add_block(b2);
    ssa.recompute_uses();

    let mut log: EventLog<MockTarget> = EventLog::new();
    let method = 0u32;
    let _ = run(&mut ssa, &method, &mut log, 10);
}
