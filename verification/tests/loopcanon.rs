//! Loop canonicalization.
use analyssa::analysis::soundness::VerifyLevel;
use analyssa::events::EventLog;
use analyssa::ir::block::{SsaBlock, SsaInstruction};
use analyssa::ir::function::SsaFunction;
use analyssa::ir::ops::SsaOp;
use analyssa::ir::phi::{PhiNode, PhiOperand};
use analyssa::ir::value::ConstValue;
use analyssa::ir::variable::{DefSite, SsaVarId, VariableOrigin};
use analyssa::passes::loopcanon::run;
use analyssa::testing::{MockTarget, MockType};

fn assert_mock_valid_full(ssa: &SsaFunction<MockTarget>, label: &str) {
    assert!(ssa.verify_at(VerifyLevel::Full), "{label}: the function is not well-formed");
}

fn run_mock_pass_boundary<F>(ssa: &mut SsaFunction<MockTarget>, label: &str, run: F) -> bool
where
    F: FnOnce(&mut SsaFunction<MockTarget>) -> bool,
{
    assert_mock_valid_full(ssa, &format!("{label} before"));
    let changed = run(ssa);
    ssa.recompute_uses();
    assert_mock_valid_full(ssa, &format!("{label} after"));
    changed
}

fn instr(op: SsaOp<MockTarget>) -> SsaInstruction<MockTarget> {
    SsaInstruction::synthetic(op)
}

fn local_at(
    ssa: &mut SsaFunction<MockTarget>,
    idx: u16,
    block: usize,
    instr: usize,
) -> SsaVarId {
    ssa.create_variable(
        VariableOrigin::Local(idx),
        0,
        DefSite::instruction(block, instr),
        MockType::I32,
    )
}

fn phi_local(ssa: &mut SsaFunction<MockTarget>, idx: u16, block: usize) -> SsaVarId {
    ssa.create_variable(
        VariableOrigin::Local(idx),
        0,
        DefSite::phi(block),
        MockType::I32,
    )
}

fn build_loop_with_multiple_latches() -> SsaFunction<MockTarget> {
    let mut ssa = SsaFunction::new(0, 8);
    let init = local_at(&mut ssa, 0, 0, 0);
    let one = local_at(&mut ssa, 1, 0, 1);
    let limit = local_at(&mut ssa, 2, 0, 2);
    let i_phi = phi_local(&mut ssa, 3, 1);
    let cond = local_at(&mut ssa, 4, 1, 0);
    let next = local_at(&mut ssa, 5, 2, 0);
    let alt_next = local_at(&mut ssa, 6, 3, 0);
    let branch_cond = local_at(&mut ssa, 7, 5, 0);

    // Preheader (B0)
    let mut b0 = SsaBlock::new(0);
    b0.add_instruction(instr(SsaOp::Const {
        dest: init,
        value: ConstValue::I32(0),
    }));
    b0.add_instruction(instr(SsaOp::Const {
        dest: one,
        value: ConstValue::I32(1),
    }));
    b0.add_instruction(instr(SsaOp::Const {
        dest: limit,
        value: ConstValue::I32(100),
    }));
    b0.add_instruction(instr(SsaOp::Jump { target: 1 }));
    ssa.add_block(b0);

    // Header (B1): both latches feed the induction phi.
    let mut b1 = SsaBlock::new(1);
    let mut phi = PhiNode::new(i_phi, VariableOrigin::Local(3));
    phi.add_operand(PhiOperand::new(init, 0));
    phi.add_operand(PhiOperand::new(next, 2));
    phi.add_operand(PhiOperand::new(alt_next, 3));
    b1.add_phi(phi);
    b1.add_instruction(instr(SsaOp::Clt {
        dest: cond,
        left: i_phi,
        right: limit,
        unsigned: false,
    }));
    b1.add_instruction(instr(SsaOp::Branch {
        condition: cond,
        true_target: 5,
        false_target: 4,
    }));
    ssa.add_block(b1);

    // Latch 1 (B2)
    let mut b2 = SsaBlock::new(2);
    b2.add_instruction(instr(SsaOp::Add {
        dest: next,
        left: i_phi,
        right: one,
        flags: None,
    }));
    b2.add_instruction(instr(SsaOp::Jump { target: 1 }));
    ssa.add_block(b2);

    // Latch 2 (B3)
    let mut b3 = SsaBlock::new(3);
    b3.add_instruction(instr(SsaOp::Add {
        dest: alt_next,
        left: i_phi,
        right: one,
        flags: None,
    }));
    b3.add_instruction(instr(SsaOp::Jump { target: 1 }));
    ssa.add_block(b3);

    // Exit (B4)
    let mut b4 = SsaBlock::new(4);
    b4.add_instruction(instr(SsaOp::Return { value: Some(i_phi) }));
    ssa.add_block(b4);

    // Body (B5): conditionally reaches either latch, so both are genuine
    // reachable back-edges to the header.
    let mut b5 = SsaBlock::new(5);
    b5.add_instruction(instr(SsaOp::Clt {
        dest: branch_cond,
        left: i_phi,
        right: one,
        unsigned: false,
    }));
    b5.add_instruction(instr(SsaOp::Branch {
        condition: branch_cond,
        true_target: 2,
        false_target: 3,
    }));
    ssa.add_block(b5);

    ssa.recompute_uses();
    ssa
}

#[test]
fn multiple_latches_unified() {
    let mut ssa = build_loop_with_multiple_latches();
    let mut log: EventLog<MockTarget> = EventLog::new();
    let method = 0u32;

    let original_blocks = ssa.block_count();
    let changed =
        run_mock_pass_boundary(&mut ssa, "multiple-latch loop canonicalization", |ssa| {
            run(ssa, &method, &mut log)
        });
    assert!(changed, "multiple latches should be unified");
    assert!(
        ssa.block_count() > original_blocks,
        "should add a unified latch block"
    );

    assert_mock_valid_full(&ssa, "multiple-latch canonical loop");
}

#[test]
fn single_latch_already_canonical() {
    let mut ssa = SsaFunction::new(0, 5);
    let init = local_at(&mut ssa, 0, 0, 0);
    let one = local_at(&mut ssa, 1, 0, 1);
    let limit = local_at(&mut ssa, 2, 0, 2);
    let i_phi = phi_local(&mut ssa, 3, 1);
    let cond = local_at(&mut ssa, 4, 1, 0);
    let next = local_at(&mut ssa, 5, 2, 0);

    let mut b0 = SsaBlock::new(0);
    b0.add_instruction(instr(SsaOp::Const {
        dest: init,
        value: ConstValue::I32(0),
    }));
    b0.add_instruction(instr(SsaOp::Const {
        dest: one,
        value: ConstValue::I32(1),
    }));
    b0.add_instruction(instr(SsaOp::Const {
        dest: limit,
        value: ConstValue::I32(10),
    }));
    b0.add_instruction(instr(SsaOp::Jump { target: 1 }));
    ssa.add_block(b0);

    let mut b1 = SsaBlock::new(1);
    let mut phi = PhiNode::new(i_phi, VariableOrigin::Local(3));
    phi.add_operand(PhiOperand::new(init, 0));
    phi.add_operand(PhiOperand::new(next, 2));
    b1.add_phi(phi);
    b1.add_instruction(instr(SsaOp::Clt {
        dest: cond,
        left: i_phi,
        right: limit,
        unsigned: false,
    }));
    b1.add_instruction(instr(SsaOp::Branch {
        condition: cond,
        true_target: 2,
        false_target: 3,
    }));
    ssa.add_block(b1);

    let mut b2 = SsaBlock::new(2);
    b2.add_instruction(instr(SsaOp::Add {
        dest: next,
        left: i_phi,
        right: one,
        flags: None,
    }));
    b2.add_instruction(instr(SsaOp::Jump { target: 1 }));
    ssa.add_block(b2);

    let mut b3 = SsaBlock::new(3);
    b3.add_instruction(instr(SsaOp::Return { value: Some(i_phi) }));
    ssa.add_block(b3);
    ssa.recompute_uses();

    let mut log: EventLog<MockTarget> = EventLog::new();
    let method = 0u32;
    let changed =
        run_mock_pass_boundary(&mut ssa, "single-latch loop canonicalization", |ssa| {
            run(ssa, &method, &mut log)
        });
    assert!(!changed, "single latch should already be canonical");
}

#[test]
fn no_loops_no_changes() {
    let mut ssa: SsaFunction<MockTarget> = SsaFunction::new(0, 0);
    let mut log: EventLog<MockTarget> = EventLog::new();
    let method = 0u32;
    let changed = run_mock_pass_boundary(&mut ssa, "empty loop canonicalization", |ssa| {
        run(ssa, &method, &mut log)
    });
    assert!(!changed);
}

#[test]
fn single_block_no_loop() {
    let mut ssa: SsaFunction<MockTarget> = SsaFunction::new(0, 1);
    let v0 = local_at(&mut ssa, 0, 0, 0);
    let mut b0 = SsaBlock::new(0);
    b0.add_instruction(instr(SsaOp::Const {
        dest: v0,
        value: ConstValue::I32(42),
    }));
    b0.add_instruction(instr(SsaOp::Return { value: Some(v0) }));
    ssa.add_block(b0);
    ssa.recompute_uses();

    let mut log: EventLog<MockTarget> = EventLog::new();
    let method = 0u32;
    let changed =
        run_mock_pass_boundary(&mut ssa, "single-block loop canonicalization", |ssa| {
            run(ssa, &method, &mut log)
        });
    assert!(!changed, "single block cannot have a loop");
}

#[test]
fn idempotent_after_canonicalization() {
    let mut ssa = build_loop_with_multiple_latches();
    let mut log: EventLog<MockTarget> = EventLog::new();
    let method = 0u32;

    let first_changed =
        run_mock_pass_boundary(&mut ssa, "first loop canonicalization", |ssa| {
            run(ssa, &method, &mut log)
        });
    assert!(
        first_changed,
        "first canonicalization should rewrite the loop"
    );
    let after_first = ssa.block_count();

    // Second run should be idempotent
    let changed = run_mock_pass_boundary(&mut ssa, "idempotent loop canonicalization", |ssa| {
        run(ssa, &method, &mut log)
    });
    assert!(!changed, "second canonicalization should be a no-op");
    assert_eq!(ssa.block_count(), after_first);
}

#[test]
fn loop_with_preheader_insertion_and_latch_unification() {
    // Build a loop with BOTH: no preheader (multiple entries) AND multiple latches
    let mut ssa = SsaFunction::new(0, 6);
    let init_a = local_at(&mut ssa, 0, 0, 0);
    let init_b = local_at(&mut ssa, 1, 1, 0);
    let one = local_at(&mut ssa, 2, 0, 1);
    let limit = local_at(&mut ssa, 3, 0, 2);
    let i_phi = phi_local(&mut ssa, 4, 2);
    let cond = local_at(&mut ssa, 5, 2, 0);
    let next1 = local_at(&mut ssa, 6, 3, 0);
    let next2 = local_at(&mut ssa, 7, 4, 0);

    let mut b0 = SsaBlock::new(0);
    b0.add_instruction(instr(SsaOp::Const {
        dest: init_a,
        value: ConstValue::I32(0),
    }));
    b0.add_instruction(instr(SsaOp::Const {
        dest: one,
        value: ConstValue::I32(1),
    }));
    b0.add_instruction(instr(SsaOp::Const {
        dest: limit,
        value: ConstValue::I32(50),
    }));
    b0.add_instruction(instr(SsaOp::Jump { target: 2 }));
    ssa.add_block(b0);

    let mut b1 = SsaBlock::new(1);
    b1.add_instruction(instr(SsaOp::Const {
        dest: init_b,
        value: ConstValue::I32(10),
    }));
    b1.add_instruction(instr(SsaOp::Jump { target: 2 }));
    ssa.add_block(b1);

    let mut b2 = SsaBlock::new(2);
    let mut phi = PhiNode::new(i_phi, VariableOrigin::Local(4));
    phi.add_operand(PhiOperand::new(init_a, 0));
    phi.add_operand(PhiOperand::new(init_b, 1));
    phi.add_operand(PhiOperand::new(next1, 3));
    phi.add_operand(PhiOperand::new(next2, 4));
    b2.add_phi(phi);
    b2.add_instruction(instr(SsaOp::Clt {
        dest: cond,
        left: i_phi,
        right: limit,
        unsigned: false,
    }));
    b2.add_instruction(instr(SsaOp::Branch {
        condition: cond,
        true_target: 3,
        false_target: 5,
    }));
    ssa.add_block(b2);

    let mut b3 = SsaBlock::new(3);
    b3.add_instruction(instr(SsaOp::Add {
        dest: next1,
        left: i_phi,
        right: one,
        flags: None,
    }));
    b3.add_instruction(instr(SsaOp::Jump { target: 2 }));
    ssa.add_block(b3);

    let mut b4 = SsaBlock::new(4);
    b4.add_instruction(instr(SsaOp::Add {
        dest: next2,
        left: i_phi,
        right: one,
        flags: None,
    }));
    b4.add_instruction(instr(SsaOp::Jump { target: 2 }));
    ssa.add_block(b4);

    let mut b5 = SsaBlock::new(5);
    b5.add_instruction(instr(SsaOp::Return { value: Some(i_phi) }));
    ssa.add_block(b5);
    ssa.recompute_uses();

    let mut log: EventLog<MockTarget> = EventLog::new();
    let method = 0u32;
    let changed =
        run_mock_pass_boundary(&mut ssa, "preheader-and-latch canonicalization", |ssa| {
            run(ssa, &method, &mut log)
        });
    assert!(changed, "loop with both issues should be canonicalized");

    assert_mock_valid_full(&ssa, "preheader-and-latch canonical loop");
}
