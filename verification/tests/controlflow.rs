//! Control-flow simplification.
use analyssa::analysis::soundness::VerifyLevel;
use analyssa::events::{EventKind, EventLog};
use analyssa::ir::block::{SsaBlock, SsaInstruction};
use analyssa::ir::function::SsaFunction;
use analyssa::ir::ops::SsaOp;
use analyssa::ir::value::ConstValue;
use analyssa::ir::variable::{DefSite, SsaVarId, VariableOrigin};
use analyssa::passes::controlflow::run;
use analyssa::testing::{MockTarget, MockType, mock_terminator_at};

fn assert_mock_valid_full(ssa: &SsaFunction<MockTarget>, label: &str) {
    assert!(ssa.verify_at(VerifyLevel::Full), "{label}: the function is not well-formed");
}

fn run_mock_pass_boundary<F>(ssa: &mut SsaFunction<MockTarget>, label: &str, run: F) -> bool
where
    F: FnOnce(&mut SsaFunction<MockTarget>) -> bool,
{
    assert_mock_valid_full(ssa, &format!("{label} before"));
    let changed = run(ssa);
    ssa.recompute_uses();
    assert_mock_valid_full(ssa, &format!("{label} after"));
    changed
}

fn run_mock_malformed_cleanup_boundary<F>(
    ssa: &mut SsaFunction<MockTarget>,
    label: &str,
    run: F,
) -> bool
where
    F: FnOnce(&mut SsaFunction<MockTarget>) -> bool,
{
    let changed = run(ssa);
    ssa.recompute_uses();
    assert_mock_valid_full(ssa, &format!("{label} after"));
    changed
}

fn instr(op: SsaOp<MockTarget>) -> SsaInstruction<MockTarget> {
    SsaInstruction::synthetic(op)
}

fn local_at(
    ssa: &mut SsaFunction<MockTarget>,
    idx: u16,
    block: usize,
    instr: usize,
) -> SsaVarId {
    ssa.create_variable(
        VariableOrigin::Local(idx),
        0,
        DefSite::instruction(block, instr),
        MockType::I32,
    )
}

#[test]
fn dead_tail_after_return_removed() {
    let mut ssa: SsaFunction<MockTarget> = SsaFunction::new(0, 1);
    let v0 = local_at(&mut ssa, 0, 0, 0);
    let mut b0 = SsaBlock::new(0);
    b0.add_instruction(instr(SsaOp::Return { value: None }));
    b0.add_instruction(instr(SsaOp::Const {
        dest: v0,
        value: ConstValue::I32(999),
    }));
    ssa.add_block(b0);
    ssa.recompute_uses();

    let mut log: EventLog<MockTarget> = EventLog::new();
    let method = 0u32;
    let changed =
        run_mock_malformed_cleanup_boundary(&mut ssa, "dead tail control flow", |ssa| {
            run(ssa, &method, &mut log, 10)
        });
    assert!(changed, "dead tail after return should be removed");
    assert!(log.has(EventKind::InstructionRemoved));
}

#[test]
fn branch_to_same_target_simplified() {
    let mut ssa: SsaFunction<MockTarget> = SsaFunction::new(0, 1);
    let cond = local_at(&mut ssa, 0, 0, 0);
    let mut b0 = SsaBlock::new(0);
    b0.add_instruction(instr(SsaOp::Const {
        dest: cond,
        value: ConstValue::I32(1),
    }));
    b0.add_instruction(instr(SsaOp::Branch {
        condition: cond,
        true_target: 1,
        false_target: 1,
    }));
    ssa.add_block(b0);
    let mut b1 = SsaBlock::new(1);
    b1.add_instruction(instr(SsaOp::Return { value: None }));
    ssa.add_block(b1);
    ssa.recompute_uses();

    let mut log: EventLog<MockTarget> = EventLog::new();
    let method = 0u32;
    let changed =
        run_mock_pass_boundary(&mut ssa, "same-target branch simplification", |ssa| {
            run(ssa, &method, &mut log, 10)
        });
    assert!(changed, "branch to same target should be simplified");
    assert!(log.has(EventKind::BranchSimplified));
    // Should now be a Jump
    assert!(matches!(
        mock_terminator_at(&ssa, 0),
        SsaOp::Jump { target: 1 }
    ));
}

#[test]
fn jump_thread_through_trampoline() {
    let mut ssa: SsaFunction<MockTarget> = SsaFunction::new(0, 0);
    let mut b0 = SsaBlock::new(0);
    b0.add_instruction(instr(SsaOp::Jump { target: 1 }));
    ssa.add_block(b0);
    let mut b1 = SsaBlock::new(1);
    b1.add_instruction(instr(SsaOp::Jump { target: 2 }));
    ssa.add_block(b1);
    let mut b2 = SsaBlock::new(2);
    b2.add_instruction(instr(SsaOp::Return { value: None }));
    ssa.add_block(b2);
    ssa.recompute_uses();

    let mut log: EventLog<MockTarget> = EventLog::new();
    let method = 0u32;
    let changed = run_mock_pass_boundary(&mut ssa, "jump trampoline threading", |ssa| {
        run(ssa, &method, &mut log, 10)
    });
    assert!(changed, "jump through trampoline should be threaded");
}

#[test]
fn no_changes_on_well_formed_cfg() {
    let mut ssa: SsaFunction<MockTarget> = SsaFunction::new(0, 1);
    let v0 = local_at(&mut ssa, 0, 0, 0);
    let mut b0 = SsaBlock::new(0);
    b0.add_instruction(instr(SsaOp::Const {
        dest: v0,
        value: ConstValue::I32(0),
    }));
    b0.add_instruction(instr(SsaOp::Return { value: Some(v0) }));
    ssa.add_block(b0);
    ssa.recompute_uses();

    let mut log: EventLog<MockTarget> = EventLog::new();
    let method = 0u32;
    let changed = run_mock_pass_boundary(&mut ssa, "well-formed control flow", |ssa| {
        run(ssa, &method, &mut log, 10)
    });
    assert!(!changed, "well-formed CFG should have no changes");
}

#[test]
fn multiple_changes_in_one_run() {
    let mut ssa: SsaFunction<MockTarget> = SsaFunction::new(0, 1);
    let cond = local_at(&mut ssa, 0, 0, 0);
    let mut b0 = SsaBlock::new(0);
    b0.add_instruction(instr(SsaOp::Const {
        dest: cond,
        value: ConstValue::I32(1),
    }));
    b0.add_instruction(instr(SsaOp::Branch {
        condition: cond,
        true_target: 1,
        false_target: 1,
    }));
    b0.add_instruction(instr(SsaOp::Nop)); // dead tail
    ssa.add_block(b0);
    let mut b1 = SsaBlock::new(1);
    b1.add_instruction(instr(SsaOp::Return { value: None }));
    ssa.add_block(b1);
    ssa.recompute_uses();

    let mut log: EventLog<MockTarget> = EventLog::new();
    let method = 0u32;
    let changed =
        run_mock_malformed_cleanup_boundary(&mut ssa, "multi-change control flow", |ssa| {
            run(ssa, &method, &mut log, 10)
        });
    assert!(changed);
}

#[test]
fn dead_tails_in_multiple_blocks() {
    let mut ssa: SsaFunction<MockTarget> = SsaFunction::new(0, 0);
    let mut b0 = SsaBlock::new(0);
    b0.add_instruction(instr(SsaOp::Jump { target: 1 }));
    b0.add_instruction(instr(SsaOp::Nop));
    ssa.add_block(b0);
    let mut b1 = SsaBlock::new(1);
    b1.add_instruction(instr(SsaOp::Return { value: None }));
    b1.add_instruction(instr(SsaOp::Nop));
    ssa.add_block(b1);
    ssa.recompute_uses();

    let mut log: EventLog<MockTarget> = EventLog::new();
    let method = 0u32;
    let changed =
        run_mock_malformed_cleanup_boundary(&mut ssa, "multi-block dead tails", |ssa| {
            run(ssa, &method, &mut log, 10)
        });
    assert!(changed);
    assert!(log.count_kind(EventKind::InstructionRemoved) >= 2);
}

#[test]
fn switch_all_targets_same() {
    let mut ssa: SsaFunction<MockTarget> = SsaFunction::new(0, 1);
    let val = local_at(&mut ssa, 0, 0, 0);
    let mut b0 = SsaBlock::new(0);
    b0.add_instruction(instr(SsaOp::Const {
        dest: val,
        value: ConstValue::I32(0),
    }));
    b0.add_instruction(instr(SsaOp::Switch {
        value: val,
        targets: vec![1, 1, 1],
        default: 1,
    }));
    ssa.add_block(b0);
    let mut b1 = SsaBlock::new(1);
    b1.add_instruction(instr(SsaOp::Return { value: None }));
    ssa.add_block(b1);
    ssa.recompute_uses();

    let mut log: EventLog<MockTarget> = EventLog::new();
    let method = 0u32;
    let changed = run_mock_pass_boundary(&mut ssa, "switch simplification", |ssa| {
        run(ssa, &method, &mut log, 10)
    });
    assert!(changed, "switch with all same targets should simplify");
    assert!(matches!(
        mock_terminator_at(&ssa, 0),
        SsaOp::Jump { target: 1 }
    ));
}

#[test]
fn controlflow_empty_function() {
    let mut ssa: SsaFunction<MockTarget> = SsaFunction::new(0, 0);
    let mut log: EventLog<MockTarget> = EventLog::new();
    let method = 0u32;
    let changed = run_mock_pass_boundary(&mut ssa, "empty control flow", |ssa| {
        run(ssa, &method, &mut log, 10)
    });
    assert!(!changed);
}

#[test]
fn trampoline_not_skipping_entry_block() {
    let mut ssa: SsaFunction<MockTarget> = SsaFunction::new(0, 0);
    let mut b0 = SsaBlock::new(0);
    b0.add_instruction(instr(SsaOp::Jump { target: 1 }));
    ssa.add_block(b0);
    let mut b1 = SsaBlock::new(1);
    b1.add_instruction(instr(SsaOp::Return { value: None }));
    ssa.add_block(b1);
    ssa.recompute_uses();

    let mut log: EventLog<MockTarget> = EventLog::new();
    let method = 0u32;
    let changed = run_mock_pass_boundary(&mut ssa, "entry trampoline control flow", |ssa| {
        run(ssa, &method, &mut log, 10)
    });
    // B0 is entry trampoline — it has no predecessors so jump threading can't redirect.
    // The entry trampoline handling is done by block merge pass, not control flow.
    assert!(
        !changed,
        "control flow pass should leave entry trampoline handling to block merge"
    );
}
