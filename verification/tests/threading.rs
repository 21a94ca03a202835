//! Jump threading.
use analyssa::analysis::soundness::VerifyLevel;
use analyssa::events::{EventKind, EventLog};
use analyssa::ir::block::{SsaBlock, SsaInstruction};
use analyssa::ir::function::SsaFunction;
use analyssa::ir::ops::SsaOp;
use analyssa::ir::phi::{PhiNode, PhiOperand};
use analyssa::ir::value::ConstValue;
use analyssa::ir::variable::{DefSite, SsaVarId, VariableOrigin};
use analyssa::passes::threading::run;
use analyssa::pointer::PointerSize;
use analyssa::testing::{MockTarget, MockType};

fn assert_mock_valid_full(ssa: &SsaFunction<MockTarget>, label: &str) {
    assert!(ssa.verify_at(VerifyLevel::Full), "{label}: the function is not well-formed");
}

fn run_mock_pass_boundary<F>(ssa: &mut SsaFunction<MockTarget>, label: &str, run: F) -> bool
where
    F: FnOnce(&mut SsaFunction<MockTarget>) -> bool,
{
    assert_mock_valid_full(ssa, &format!("{label} before"));
    let changed = run(ssa);
    ssa.recompute_uses();
    assert_mock_valid_full(ssa, &format!("{label} after"));
    changed
}

fn instr(op: SsaOp<MockTarget>) -> SsaInstruction<MockTarget> {
    SsaInstruction::synthetic(op)
}

fn local_at(
    ssa: &mut SsaFunction<MockTarget>,
    idx: u16,
    block: usize,
    instr: usize,
) -> SsaVarId {
    ssa.create_variable(
        VariableOrigin::Local(idx),
        0,
        DefSite::instruction(block, instr),
        MockType::I32,
    )
}

#[test]
fn thread_constant_condition_to_true_branch() {
    let mut ssa: SsaFunction<MockTarget> = SsaFunction::new(0, 2);
    let true_val = local_at(&mut ssa, 0, 0, 0);
    let cond = local_at(&mut ssa, 1, 0, 1);

    // B0 is a predecessor that jumps to B1 (where the branch lives)
    let mut b0 = SsaBlock::new(0);
    b0.add_instruction(instr(SsaOp::Const {
        dest: true_val,
        value: ConstValue::I32(1),
    }));
    b0.add_instruction(instr(SsaOp::Const {
        dest: cond,
        value: ConstValue::I32(1),
    }));
    b0.add_instruction(instr(SsaOp::Jump { target: 1 }));
    ssa.add_block(b0);

    // B1 has the branch — it has a predecessor (B0) so threading can work
    let mut b1 = SsaBlock::new(1);
    b1.add_instruction(instr(SsaOp::Branch {
        condition: cond,
        true_target: 2,
        false_target: 3,
    }));
    ssa.add_block(b1);

    // B2 true target
    let mut b2 = SsaBlock::new(2);
    b2.add_instruction(instr(SsaOp::Return {
        value: Some(true_val),
    }));
    ssa.add_block(b2);

    // B3 false target
    let mut b3 = SsaBlock::new(3);
    b3.add_instruction(instr(SsaOp::Return { value: None }));
    ssa.add_block(b3);
    ssa.recompute_uses();

    let mut log: EventLog<MockTarget> = EventLog::new();
    let method = 0u32;
    let changed = run_mock_pass_boundary(&mut ssa, "constant branch threading", |ssa| {
        run(ssa, &method, &mut log, PointerSize::Bit64)
    });
    assert!(changed, "constant true condition should be threaded");
    assert!(
        log.has(EventKind::BranchSimplified) || log.has(EventKind::ControlFlowRestructured)
    );
}

#[test]
fn thread_with_phi_value_resolution() {
    let mut ssa: SsaFunction<MockTarget> = SsaFunction::new(0, 3);
    let true_cond = local_at(&mut ssa, 0, 0, 0);
    let false_cond = local_at(&mut ssa, 1, 1, 0);
    let merged_cond =
        ssa.create_variable(VariableOrigin::Local(2), 0, DefSite::phi(2), MockType::I32);

    let mut b0 = SsaBlock::new(0);
    b0.add_instruction(instr(SsaOp::Const {
        dest: true_cond,
        value: ConstValue::I32(1),
    }));
    b0.add_instruction(instr(SsaOp::Jump { target: 2 }));
    ssa.add_block(b0);

    let mut b1 = SsaBlock::new(1);
    b1.add_instruction(instr(SsaOp::Const {
        dest: false_cond,
        value: ConstValue::I32(0),
    }));
    b1.add_instruction(instr(SsaOp::Jump { target: 2 }));
    ssa.add_block(b1);

    let mut b2 = SsaBlock::new(2);
    let mut phi = PhiNode::new(merged_cond, VariableOrigin::Local(2));
    phi.add_operand(PhiOperand::new(true_cond, 0));
    phi.add_operand(PhiOperand::new(false_cond, 1));
    b2.add_phi(phi);
    b2.add_instruction(instr(SsaOp::Branch {
        condition: merged_cond,
        true_target: 3,
        false_target: 4,
    }));
    ssa.add_block(b2);

    let mut b3 = SsaBlock::new(3);
    b3.add_instruction(instr(SsaOp::Return { value: None }));
    ssa.add_block(b3);

    let mut b4 = SsaBlock::new(4);
    b4.add_instruction(instr(SsaOp::Return { value: None }));
    ssa.add_block(b4);
    ssa.recompute_uses();

    let mut log: EventLog<MockTarget> = EventLog::new();
    let method = 0u32;
    let changed = run_mock_pass_boundary(&mut ssa, "phi value branch threading", |ssa| {
        run(ssa, &method, &mut log, PointerSize::Bit64)
    });
    assert!(changed, "phi-based threading should work");
}

#[test]
fn no_threading_when_bypassed_phi_value_is_live_after_branch() {
    let mut ssa: SsaFunction<MockTarget> = SsaFunction::new(0, 3);
    let true_cond = local_at(&mut ssa, 0, 0, 0);
    let false_cond = local_at(&mut ssa, 1, 1, 0);
    let merged_cond =
        ssa.create_variable(VariableOrigin::Local(2), 0, DefSite::phi(2), MockType::I32);

    let mut b0 = SsaBlock::new(0);
    b0.add_instruction(instr(SsaOp::Const {
        dest: true_cond,
        value: ConstValue::I32(1),
    }));
    b0.add_instruction(instr(SsaOp::Jump { target: 2 }));
    ssa.add_block(b0);

    let mut b1 = SsaBlock::new(1);
    b1.add_instruction(instr(SsaOp::Const {
        dest: false_cond,
        value: ConstValue::I32(0),
    }));
    b1.add_instruction(instr(SsaOp::Jump { target: 2 }));
    ssa.add_block(b1);

    let mut b2 = SsaBlock::new(2);
    let mut phi = PhiNode::new(merged_cond, VariableOrigin::Local(2));
    phi.add_operand(PhiOperand::new(true_cond, 0));
    phi.add_operand(PhiOperand::new(false_cond, 1));
    b2.add_phi(phi);
    b2.add_instruction(instr(SsaOp::Branch {
        condition: merged_cond,
        true_target: 3,
        false_target: 4,
    }));
    ssa.add_block(b2);

    let mut b3 = SsaBlock::new(3);
    b3.add_instruction(instr(SsaOp::Return {
        value: Some(merged_cond),
    }));
    ssa.add_block(b3);

    let mut b4 = SsaBlock::new(4);
    b4.add_instruction(instr(SsaOp::Return { value: None }));
    ssa.add_block(b4);
    ssa.recompute_uses();

    let mut log: EventLog<MockTarget> = EventLog::new();
    let method = 0u32;
    let changed = run_mock_pass_boundary(&mut ssa, "live phi branch threading", |ssa| {
        run(ssa, &method, &mut log, PointerSize::Bit64)
    });
    assert!(
        !changed,
        "threading must not bypass a phi value used after the branch"
    );
}

#[test]
fn no_threading_when_all_unknown() {
    let mut ssa: SsaFunction<MockTarget> = SsaFunction::new(0, 1);
    let cond = local_at(&mut ssa, 0, 0, 0);

    let mut b0 = SsaBlock::new(0);
    // cond comes from LoadArg, not a constant — can't thread
    b0.add_instruction(instr(SsaOp::LoadArg {
        dest: cond,
        arg_index: 0,
    }));
    b0.add_instruction(instr(SsaOp::Branch {
        condition: cond,
        true_target: 1,
        false_target: 2,
    }));
    ssa.add_block(b0);

    let mut b1 = SsaBlock::new(1);
    b1.add_instruction(instr(SsaOp::Return { value: None }));
    ssa.add_block(b1);

    let mut b2 = SsaBlock::new(2);
    b2.add_instruction(instr(SsaOp::Return { value: None }));
    ssa.add_block(b2);
    ssa.recompute_uses();

    let mut log: EventLog<MockTarget> = EventLog::new();
    let method = 0u32;
    let changed = run_mock_pass_boundary(&mut ssa, "unknown condition threading", |ssa| {
        run(ssa, &method, &mut log, PointerSize::Bit64)
    });
    assert!(
        !changed,
        "no threading should occur when condition cannot be resolved"
    );
}

#[test]
fn threading_empty_function_no_changes() {
    let mut ssa: SsaFunction<MockTarget> = SsaFunction::new(0, 0);
    let mut log: EventLog<MockTarget> = EventLog::new();
    let method = 0u32;
    let changed = run_mock_pass_boundary(&mut ssa, "empty threading", |ssa| {
        run(ssa, &method, &mut log, PointerSize::Bit64)
    });
    assert!(!changed);
}

#[test]
fn threading_with_copy_chain() {
    let mut ssa: SsaFunction<MockTarget> = SsaFunction::new(0, 3);
    let src = local_at(&mut ssa, 0, 0, 0);
    let mid = local_at(&mut ssa, 1, 0, 1);
    let cond = local_at(&mut ssa, 2, 0, 2);

    let mut b0 = SsaBlock::new(0);
    b0.add_instruction(instr(SsaOp::Const {
        dest: src,
        value: ConstValue::I32(1),
    }));
    b0.add_instruction(instr(SsaOp::Copy { dest: mid, src }));
    b0.add_instruction(instr(SsaOp::Copy {
        dest: cond,
        src: mid,
    }));
    b0.add_instruction(instr(SsaOp::Jump { target: 1 }));
    ssa.add_block(b0);

    let mut b1 = SsaBlock::new(1);
    b1.add_instruction(instr(SsaOp::Branch {
        condition: cond,
        true_target: 2,
        false_target: 3,
    }));
    ssa.add_block(b1);

    let mut b2 = SsaBlock::new(2);
    b2.add_instruction(instr(SsaOp::Return { value: None }));
    ssa.add_block(b2);

    let mut b3 = SsaBlock::new(3);
    b3.add_instruction(instr(SsaOp::Return { value: None }));
    ssa.add_block(b3);
    ssa.recompute_uses();

    let mut log: EventLog<MockTarget> = EventLog::new();
    let method = 0u32;
    let changed = run_mock_pass_boundary(&mut ssa, "copy-chain branch threading", |ssa| {
        run(ssa, &method, &mut log, PointerSize::Bit64)
    });
    // The evaluator should trace through Copy chain to find constant
    assert!(changed, "copy-chain condition should be threaded");
}

#[test]
fn no_branch_terminator_no_threading() {
    let mut ssa: SsaFunction<MockTarget> = SsaFunction::new(0, 0);
    let mut b0 = SsaBlock::new(0);
    b0.add_instruction(instr(SsaOp::Return { value: None }));
    ssa.add_block(b0);
    ssa.recompute_uses();

    let mut log: EventLog<MockTarget> = EventLog::new();
    let method = 0u32;
    let changed = run_mock_pass_boundary(&mut ssa, "non-branch threading", |ssa| {
        run(ssa, &method, &mut log, PointerSize::Bit64)
    });
    assert!(!changed, "no branch means no threading");
}

#[test]
fn jump_not_branch_not_threaded() {
    let mut ssa: SsaFunction<MockTarget> = SsaFunction::new(0, 0);
    let mut b0 = SsaBlock::new(0);
    b0.add_instruction(instr(SsaOp::Jump { target: 1 }));
    ssa.add_block(b0);
    let mut b1 = SsaBlock::new(1);
    b1.add_instruction(instr(SsaOp::Return { value: None }));
    ssa.add_block(b1);
    ssa.recompute_uses();

    let mut log: EventLog<MockTarget> = EventLog::new();
    let method = 0u32;
    let changed = run_mock_pass_boundary(&mut ssa, "jump terminator threading", |ssa| {
        run(ssa, &method, &mut log, PointerSize::Bit64)
    });
    assert!(!changed, "Jump should not be threaded by this pass");
}
