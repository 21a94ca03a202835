//! Hoisting out of loops.
use analyssa::analysis::soundness::VerifyLevel;
use analyssa::events::{EventKind, EventLog};
use analyssa::ir::block::{SsaBlock, SsaInstruction};
use analyssa::ir::function::SsaFunction;
use analyssa::ir::ops::SsaOp;
use analyssa::ir::phi::{PhiNode, PhiOperand};
use analyssa::ir::value::ConstValue;
use analyssa::ir::variable::{DefSite, SsaVarId, VariableOrigin};
use analyssa::passes::licm::run;
use analyssa::testing::{MockTarget, MockType};

fn assert_mock_valid_full(ssa: &SsaFunction<MockTarget>, label: &str) {
    assert!(ssa.verify_at(VerifyLevel::Full), "{label}: the function is not well-formed");
}

fn run_mock_pass_boundary<F>(ssa: &mut SsaFunction<MockTarget>, label: &str, run: F) -> bool
where
    F: FnOnce(&mut SsaFunction<MockTarget>) -> bool,
{
    assert_mock_valid_full(ssa, &format!("{label} before"));
    let changed = run(ssa);
    ssa.recompute_uses();
    assert_mock_valid_full(ssa, &format!("{label} after"));
    changed
}

fn instr(op: SsaOp<MockTarget>) -> SsaInstruction<MockTarget> {
    SsaInstruction::synthetic(op)
}

fn local_at(
    ssa: &mut SsaFunction<MockTarget>,
    idx: u16,
    block: usize,
    instr: usize,
) -> SsaVarId {
    ssa.create_variable(
        VariableOrigin::Local(idx),
        0,
        DefSite::instruction(block, instr),
        MockType::I32,
    )
}

/// Builds: preheader (B0) → header (B1: branch cond → body or exit)
/// Body (B2) contains invariant expression, latches back to header
fn build_simple_loop() -> SsaFunction<MockTarget> {
    let mut ssa = SsaFunction::new(0, 5);
    let base = local_at(&mut ssa, 0, 0, 0);
    let one = local_at(&mut ssa, 1, 0, 1);
    let cond = local_at(&mut ssa, 2, 0, 2);
    let invariant = ssa.create_variable(
        VariableOrigin::Local(3),
        0,
        DefSite::instruction(2, 0),
        MockType::I32,
    );
    let iv = local_at(&mut ssa, 4, 1, 0);

    let mut b0 = SsaBlock::new(0);
    b0.add_instruction(instr(SsaOp::Const {
        dest: base,
        value: ConstValue::I32(10),
    }));
    b0.add_instruction(instr(SsaOp::Const {
        dest: one,
        value: ConstValue::I32(1),
    }));
    b0.add_instruction(instr(SsaOp::Const {
        dest: cond,
        value: ConstValue::I32(1),
    }));
    b0.add_instruction(instr(SsaOp::Jump { target: 1 }));
    ssa.add_block(b0);

    let mut b1 = SsaBlock::new(1);
    b1.add_instruction(instr(SsaOp::Const {
        dest: iv,
        value: ConstValue::I32(0),
    }));
    b1.add_instruction(instr(SsaOp::Branch {
        condition: cond,
        true_target: 2,
        false_target: 3,
    }));
    ssa.add_block(b1);

    let mut b2 = SsaBlock::new(2);
    b2.add_instruction(instr(SsaOp::Add {
        dest: invariant,
        left: base,
        right: one,
        flags: None,
    }));
    b2.add_instruction(instr(SsaOp::Jump { target: 1 }));
    ssa.add_block(b2);

    let mut b3 = SsaBlock::new(3);
    b3.add_instruction(instr(SsaOp::Return { value: None }));
    ssa.add_block(b3);

    ssa.recompute_uses();
    ssa
}

#[test]
fn licm_hoists_invariant_to_preheader() {
    let mut ssa = build_simple_loop();
    let mut log: EventLog<MockTarget> = EventLog::new();
    let method = 0u32;
    let changed =
        run_mock_pass_boundary(&mut ssa, "simple LICM hoist", |ssa| run(ssa, &method, &mut log));
    assert!(changed, "LICM should hoist invariant expression");
    assert!(log.has(EventKind::InstructionRemoved));
}

#[test]
fn no_loops_nothing_hoisted() {
    let mut ssa: SsaFunction<MockTarget> = SsaFunction::new(0, 1);
    let v0 = local_at(&mut ssa, 0, 0, 0);
    let mut b0 = SsaBlock::new(0);
    b0.add_instruction(instr(SsaOp::Const {
        dest: v0,
        value: ConstValue::I32(42),
    }));
    b0.add_instruction(instr(SsaOp::Return { value: Some(v0) }));
    ssa.add_block(b0);
    ssa.recompute_uses();

    let mut log: EventLog<MockTarget> = EventLog::new();
    let method = 0u32;
    let changed =
        run_mock_pass_boundary(&mut ssa, "no-loop LICM", |ssa| run(ssa, &method, &mut log));
    assert!(!changed, "no loops should mean nothing to hoist");
}

#[test]
fn invariant_with_loop_variant_operand_not_hoisted() {
    let mut ssa: SsaFunction<MockTarget> = SsaFunction::new(0, 5);
    let base = local_at(&mut ssa, 0, 0, 0);
    let cond = local_at(&mut ssa, 1, 0, 1);
    let iv = local_at(&mut ssa, 2, 0, 2);
    let phi_var =
        ssa.create_variable(VariableOrigin::Local(3), 0, DefSite::phi(1), MockType::I32);
    let result = local_at(&mut ssa, 4, 2, 0);

    let mut b0 = SsaBlock::new(0);
    b0.add_instruction(instr(SsaOp::Const {
        dest: base,
        value: ConstValue::I32(5),
    }));
    b0.add_instruction(instr(SsaOp::Const {
        dest: cond,
        value: ConstValue::I32(1),
    }));
    b0.add_instruction(instr(SsaOp::Const {
        dest: iv,
        value: ConstValue::I32(0),
    }));
    b0.add_instruction(instr(SsaOp::Jump { target: 1 }));
    ssa.add_block(b0);

    let mut b1 = SsaBlock::new(1);
    // phi_var is loop-variant (defined by phi in header, fed by back-edge)
    let mut phi = PhiNode::new(phi_var, VariableOrigin::Local(3));
    phi.add_operand(PhiOperand::new(iv, 0));
    phi.add_operand(PhiOperand::new(result, 2));
    b1.add_phi(phi);
    b1.add_instruction(instr(SsaOp::Branch {
        condition: cond,
        true_target: 2,
        false_target: 3,
    }));
    ssa.add_block(b1);

    let mut b2 = SsaBlock::new(2);
    // result depends on phi_var which is loop-variant -> not invariant
    b2.add_instruction(instr(SsaOp::Add {
        dest: result,
        left: base,
        right: phi_var,
        flags: None,
    }));
    b2.add_instruction(instr(SsaOp::Jump { target: 1 }));
    ssa.add_block(b2);

    let mut b3 = SsaBlock::new(3);
    b3.add_instruction(instr(SsaOp::Return { value: None }));
    ssa.add_block(b3);
    ssa.recompute_uses();

    let mut log: EventLog<MockTarget> = EventLog::new();
    let method = 0u32;
    let changed = run_mock_pass_boundary(&mut ssa, "variant-operand LICM", |ssa| {
        run(ssa, &method, &mut log)
    });
    // phi_var is defined by header phi which is part of loop body, so Add should NOT be hoisted
    assert!(
        !changed,
        "loop-variant operand (header phi) should prevent hoisting"
    );
}

#[test]
fn empty_function_is_noop() {
    let mut ssa: SsaFunction<MockTarget> = SsaFunction::new(0, 0);
    let mut log: EventLog<MockTarget> = EventLog::new();
    let method = 0u32;
    let changed = run_mock_pass_boundary(&mut ssa, "empty LICM", |ssa| run(ssa, &method, &mut log));
    assert!(!changed);
}

#[test]
fn loop_without_preheader_not_hoisted() {
    // A self-loop where the only block branches to itself — no preheader
    let mut ssa: SsaFunction<MockTarget> = SsaFunction::new(0, 2);
    let v0 = local_at(&mut ssa, 0, 0, 0);
    let cond = local_at(&mut ssa, 1, 0, 1);
    let sum = local_at(&mut ssa, 2, 0, 2);
    let mut b0 = SsaBlock::new(0);
    b0.add_instruction(instr(SsaOp::Const {
        dest: v0,
        value: ConstValue::I32(10),
    }));
    b0.add_instruction(instr(SsaOp::Const {
        dest: cond,
        value: ConstValue::I32(1),
    }));
    b0.add_instruction(instr(SsaOp::Add {
        dest: sum,
        left: v0,
        right: v0,
        flags: None,
    }));
    b0.add_instruction(instr(SsaOp::Branch {
        condition: cond,
        true_target: 0,
        false_target: 1,
    }));
    ssa.add_block(b0);
    let mut b1 = SsaBlock::new(1);
    b1.add_instruction(instr(SsaOp::Return { value: None }));
    ssa.add_block(b1);
    ssa.recompute_uses();

    let mut log: EventLog<MockTarget> = EventLog::new();
    let method = 0u32;
    let changed =
        run_mock_pass_boundary(&mut ssa, "no-preheader LICM", |ssa| run(ssa, &method, &mut log));
    assert!(!changed, "loop without preheader should not hoist");
}

#[test]
fn hoist_multiple_invariants() {
    let mut ssa: SsaFunction<MockTarget> = SsaFunction::new(0, 5);
    let a = local_at(&mut ssa, 0, 0, 0);
    let b = local_at(&mut ssa, 1, 0, 1);
    let cond = local_at(&mut ssa, 2, 0, 2);
    let inv1 = local_at(&mut ssa, 3, 2, 0);
    let inv2 = local_at(&mut ssa, 4, 2, 1);

    let mut b0 = SsaBlock::new(0);
    b0.add_instruction(instr(SsaOp::Const {
        dest: a,
        value: ConstValue::I32(3),
    }));
    b0.add_instruction(instr(SsaOp::Const {
        dest: b,
        value: ConstValue::I32(7),
    }));
    b0.add_instruction(instr(SsaOp::Const {
        dest: cond,
        value: ConstValue::I32(1),
    }));
    b0.add_instruction(instr(SsaOp::Jump { target: 1 }));
    ssa.add_block(b0);

    let mut b1 = SsaBlock::new(1);
    b1.add_instruction(instr(SsaOp::Branch {
        condition: cond,
        true_target: 2,
        false_target: 3,
    }));
    ssa.add_block(b1);

    let mut b2 = SsaBlock::new(2);
    b2.add_instruction(instr(SsaOp::Add {
        dest: inv1,
        left: a,
        right: b,
        flags: None,
    }));
    b2.add_instruction(instr(SsaOp::Mul {
        dest: inv2,
        left: a,
        right: b,
        flags: None,
    }));
    b2.add_instruction(instr(SsaOp::Jump { target: 1 }));
    ssa.add_block(b2);

    let mut b3 = SsaBlock::new(3);
    b3.add_instruction(instr(SsaOp::Return { value: None }));
    ssa.add_block(b3);
    ssa.recompute_uses();

    let mut log: EventLog<MockTarget> = EventLog::new();
    let method = 0u32;
    let changed = run_mock_pass_boundary(&mut ssa, "multiple-invariant LICM", |ssa| {
        run(ssa, &method, &mut log)
    });
    assert!(changed, "multiple invariants should be hoisted");
}
