//! Dead-code elimination.
use analyssa::analysis::soundness::VerifyLevel;
use analyssa::events::{EventKind, EventLog};
use analyssa::ir::block::{SsaBlock, SsaInstruction};
use analyssa::ir::function::SsaFunction;
use analyssa::ir::ops::SsaOp;
use analyssa::ir::phi::{PhiNode, PhiOperand};
use analyssa::ir::value::ConstValue;
use analyssa::ir::variable::{DefSite, SsaVarId, VariableOrigin};
use analyssa::passes::deadcode::{find_dead_tails, run, run_global, run_iteration};
use analyssa::testing::{MockTarget, MockType, MockWorld};

fn assert_mock_valid_full(ssa: &SsaFunction<MockTarget>, label: &str) {
    assert!(ssa.verify_at(VerifyLevel::Full), "{label}: the function is not well-formed");
}

fn run_mock_pass_boundary<F>(ssa: &mut SsaFunction<MockTarget>, label: &str, run: F) -> bool
where
    F: FnOnce(&mut SsaFunction<MockTarget>) -> bool,
{
    assert_mock_valid_full(ssa, &format!("{label} before"));
    let changed = run(ssa);
    ssa.recompute_uses();
    assert_mock_valid_full(ssa, &format!("{label} after"));
    changed
}

fn run_mock_malformed_cleanup_boundary<F>(
    ssa: &mut SsaFunction<MockTarget>,
    label: &str,
    run: F,
) -> bool
where
    F: FnOnce(&mut SsaFunction<MockTarget>) -> bool,
{
    let changed = run(ssa);
    ssa.recompute_uses();
    assert_mock_valid_full(ssa, &format!("{label} after"));
    changed
}

#[test]
fn find_dead_tails_after_terminator() {
    let mut ssa: SsaFunction<MockTarget> = SsaFunction::new(0, 0);
    let mut block: SsaBlock<MockTarget> = SsaBlock::new(0);
    block.add_instruction(SsaInstruction::synthetic(SsaOp::Return { value: None }));
    block.add_instruction(SsaInstruction::synthetic(SsaOp::Nop));
    ssa.add_block(block);

    let dead = find_dead_tails(&ssa);
    assert_eq!(dead, vec![(0, 1)]);
}

#[test]
fn global_dce_marks_unreachable_methods() {
    // Methods 1, 2, 3, 4. Entry: 1. Edges: 1→2, 2→3. Method 4 is
    // unreachable.
    let mut world = MockWorld::new(vec![1u32, 2, 3, 4], vec![1u32], vec![(1u32, 2), (2u32, 3)]);
    let mut log: EventLog<MockTarget> = EventLog::new();
    let changed = run_global(&mut world, &mut log);
    assert!(changed);
    assert!(world.is_dead(&4));
    assert!(!world.is_dead(&1));
    assert!(!world.is_dead(&2));
    assert!(!world.is_dead(&3));
    assert_eq!(log.count_kind(EventKind::MethodMarkedDead), 1);
}

#[test]
fn global_dce_no_op_when_all_reachable() {
    let mut world = MockWorld::new(vec![1u32, 2], vec![1u32], vec![(1u32, 2)]);
    let mut log: EventLog<MockTarget> = EventLog::new();
    let changed = run_global(&mut world, &mut log);
    assert!(!changed);
}

/// Verifies `find_dead_tails` finds a single dead-tail span when one
/// `Const` follows a `Return`. This builds the invalid block manually so
/// the dead-tail scanner can inspect instructions after a terminator.
#[test]
fn find_dead_tails_with_dead_code() {
    let mut ssa: SsaFunction<MockTarget> = SsaFunction::new(1, 0);
    let mut block0: SsaBlock<MockTarget> = SsaBlock::new(0);
    block0.add_instruction(SsaInstruction::synthetic(SsaOp::Return { value: None }));
    block0.add_instruction(SsaInstruction::synthetic(SsaOp::Const {
        dest: SsaVarId::from_index(0),
        value: ConstValue::I32(42),
    }));
    ssa.add_block(block0);

    let dead = find_dead_tails(&ssa);
    assert_eq!(dead.len(), 1);
    assert_eq!(dead[0], (0, 1));
}

/// Multiple `Const` instructions after a `Return` should still report a
/// single dead-tail span starting at index 1.
#[test]
fn find_dead_tails_multiple_dead_instructions() {
    let mut ssa: SsaFunction<MockTarget> = SsaFunction::new(1, 0);
    let mut block0: SsaBlock<MockTarget> = SsaBlock::new(0);
    block0.add_instruction(SsaInstruction::synthetic(SsaOp::Return { value: None }));
    for (i, v) in [1, 2, 3].iter().enumerate() {
        block0.add_instruction(SsaInstruction::synthetic(SsaOp::Const {
            dest: SsaVarId::from_index(i),
            value: ConstValue::I32(*v),
        }));
    }
    ssa.add_block(block0);

    let dead = find_dead_tails(&ssa);
    assert_eq!(dead.len(), 1);
    assert_eq!(dead[0], (0, 1));
}

/// Exercises `SsaOp::successors` for every terminator shape DCE recognizes
/// during reachability.
#[test]
fn successor_extraction() {
    let op: SsaOp<MockTarget> = SsaOp::Jump { target: 5 };
    assert_eq!(op.successors(), vec![5]);

    let cond = SsaVarId::from_index(0);
    let op: SsaOp<MockTarget> = SsaOp::Branch {
        condition: cond,
        true_target: 1,
        false_target: 2,
    };
    assert_eq!(op.successors(), vec![1, 2]);

    let val = SsaVarId::from_index(1);
    let op: SsaOp<MockTarget> = SsaOp::Switch {
        value: val,
        targets: vec![1, 2, 3],
        default: 4,
    };
    assert_eq!(op.successors(), vec![1, 2, 3, 4]);

    let op: SsaOp<MockTarget> = SsaOp::Return { value: None };
    assert!(op.successors().is_empty());

    let op: SsaOp<MockTarget> = SsaOp::Leave { target: 3 };
    assert_eq!(op.successors(), vec![3]);
}

/// A function with no blocks should be a no-op for DCE.
#[test]
fn deadcode_empty_function() {
    let mut ssa: SsaFunction<MockTarget> = SsaFunction::new(0, 0);
    let mut log: EventLog<MockTarget> = EventLog::new();
    let method = 0u32;
    let changed =
        run_mock_pass_boundary(&mut ssa, "empty DCE", |ssa| run(ssa, &method, &mut log, 20));
    assert!(!changed);
}

/// A self-referential phi `v0 = phi(v0)` is trivial; DCE should remove it
/// via `simplify_trivial_phis`.
#[test]
fn self_referential_phi_removed() {
    let mut ssa: SsaFunction<MockTarget> = SsaFunction::new(0, 0);
    let phi_var = ssa.create_variable(VariableOrigin::Phi, 0, DefSite::phi(0), MockType::I32);

    let mut block: SsaBlock<MockTarget> = SsaBlock::new(0);
    let mut phi = PhiNode::new(phi_var, VariableOrigin::Phi);
    phi.add_operand(PhiOperand::new(phi_var, 0)); // self-ref
    block.add_phi(phi);
    block.add_instruction(SsaInstruction::synthetic(SsaOp::Return { value: None }));
    ssa.add_block(block);

    let mut log: EventLog<MockTarget> = EventLog::new();
    let method = 0u32;
    let changed =
        run_mock_malformed_cleanup_boundary(&mut ssa, "self-referential phi DCE", |ssa| {
            run(ssa, &method, &mut log, 20)
        });
    assert!(changed, "self-referential phi should be removed");
    // The trivial phi should have been removed.
    assert!(ssa
        .block(0)
        .expect("entry block should remain")
        .phi_nodes()
        .is_empty());
}

#[test]
fn removes_unreachable_block() {
    let mut ssa: SsaFunction<MockTarget> = SsaFunction::new(0, 1);
    let v0 = SsaVarId::from_index(0);
    ssa.create_variable(
        VariableOrigin::Local(0),
        0,
        DefSite::instruction(0, 0),
        MockType::I32,
    );
    let v1 = SsaVarId::from_index(1);
    ssa.create_variable(
        VariableOrigin::Local(1),
        0,
        DefSite::instruction(1, 0),
        MockType::I32,
    );

    let mut b0 = SsaBlock::new(0);
    b0.add_instruction(SsaInstruction::synthetic(SsaOp::Const {
        dest: v0,
        value: ConstValue::I32(5),
    }));
    b0.add_instruction(SsaInstruction::synthetic(SsaOp::Return { value: Some(v0) }));
    ssa.add_block(b0);

    let mut b1 = SsaBlock::new(1);
    b1.add_instruction(SsaInstruction::synthetic(SsaOp::Const {
        dest: v1,
        value: ConstValue::I32(99),
    }));
    b1.add_instruction(SsaInstruction::synthetic(SsaOp::Return { value: Some(v1) }));
    ssa.add_block(b1);
    ssa.recompute_uses();

    let mut log: EventLog<MockTarget> = EventLog::new();
    let method = 0u32;
    let changed = run_mock_pass_boundary(&mut ssa, "unreachable-block DCE", |ssa| {
        run(ssa, &method, &mut log, 20)
    });
    assert!(changed, "unreachable block should be removed");
    assert!(log.has(EventKind::BlockRemoved));
}

#[test]
fn unused_pure_instruction_removed() {
    let mut ssa: SsaFunction<MockTarget> = SsaFunction::new(0, 0);
    let v0 = SsaVarId::from_index(0);
    ssa.create_variable(
        VariableOrigin::Local(0),
        0,
        DefSite::instruction(0, 0),
        MockType::I32,
    );
    let v1 = SsaVarId::from_index(1);
    ssa.create_variable(
        VariableOrigin::Local(1),
        0,
        DefSite::instruction(0, 1),
        MockType::I32,
    );

    let mut b0 = SsaBlock::new(0);
    b0.add_instruction(SsaInstruction::synthetic(SsaOp::Const {
        dest: v0,
        value: ConstValue::I32(42),
    }));
    // v1 is computed but never used
    b0.add_instruction(SsaInstruction::synthetic(SsaOp::Neg {
        dest: v1,
        operand: v0,
        flags: None,
    }));
    b0.add_instruction(SsaInstruction::synthetic(SsaOp::Return { value: Some(v0) }));
    ssa.add_block(b0);
    ssa.recompute_uses();

    let mut log: EventLog<MockTarget> = EventLog::new();
    let method = 0u32;
    let changed = run_mock_pass_boundary(&mut ssa, "unused pure instruction DCE", |ssa| {
        run(ssa, &method, &mut log, 20)
    });
    assert!(changed, "unused pure instruction should be removed");
    assert!(log.has(EventKind::InstructionRemoved));
}

#[test]
fn dead_phi_removed() {
    let mut ssa: SsaFunction<MockTarget> = SsaFunction::new(0, 2);
    let v0 = SsaVarId::from_index(0);
    ssa.create_variable(
        VariableOrigin::Local(0),
        0,
        DefSite::instruction(0, 0),
        MockType::I32,
    );
    let v1 = SsaVarId::from_index(1);
    ssa.create_variable(
        VariableOrigin::Local(1),
        0,
        DefSite::instruction(1, 0),
        MockType::I32,
    );
    let phi_var = SsaVarId::from_index(2);
    ssa.create_variable(VariableOrigin::Local(2), 0, DefSite::phi(2), MockType::I32);

    let mut b0 = SsaBlock::new(0);
    b0.add_instruction(SsaInstruction::synthetic(SsaOp::Const {
        dest: v0,
        value: ConstValue::I32(1),
    }));
    b0.add_instruction(SsaInstruction::synthetic(SsaOp::Jump { target: 1 }));
    ssa.add_block(b0);

    let mut b1 = SsaBlock::new(1);
    b1.add_instruction(SsaInstruction::synthetic(SsaOp::Const {
        dest: v1,
        value: ConstValue::I32(2),
    }));
    b1.add_instruction(SsaInstruction::synthetic(SsaOp::Jump { target: 2 }));
    ssa.add_block(b1);

    let mut b2 = SsaBlock::new(2);
    let mut phi = PhiNode::new(phi_var, VariableOrigin::Local(2));
    phi.add_operand(PhiOperand::new(v1, 1));
    b2.add_phi(phi);
    b2.add_instruction(SsaInstruction::synthetic(SsaOp::Return { value: Some(v0) }));
    ssa.add_block(b2);
    ssa.recompute_uses();

    let mut log: EventLog<MockTarget> = EventLog::new();
    let method = 0u32;
    let changed =
        run_mock_pass_boundary(&mut ssa, "dead phi DCE", |ssa| run(ssa, &method, &mut log, 20));
    // phi_var is never used after the phi, so the phi should be removed
    assert!(changed);
    assert!(log.has(EventKind::PhiSimplified));
}

#[test]
fn nop_instructions_removed() {
    let mut ssa: SsaFunction<MockTarget> = SsaFunction::new(0, 0);
    let mut b0 = SsaBlock::new(0);
    b0.add_instruction(SsaInstruction::synthetic(SsaOp::Nop));
    b0.add_instruction(SsaInstruction::synthetic(SsaOp::Nop));
    b0.add_instruction(SsaInstruction::synthetic(SsaOp::Return { value: None }));
    ssa.add_block(b0);
    ssa.recompute_uses();

    let mut log: EventLog<MockTarget> = EventLog::new();
    let method = 0u32;
    let changed =
        run_mock_pass_boundary(&mut ssa, "nop DCE", |ssa| run(ssa, &method, &mut log, 20));
    assert!(changed, "Nop instructions should be removed");
    assert!(log.has(EventKind::InstructionRemoved));
    // Only the Return should remain
    assert_eq!(
        ssa.block(0)
            .expect("entry block should remain")
            .instructions()
            .len(),
        1
    );
}

#[test]
fn side_effect_instruction_not_removed() {
    let mut ssa: SsaFunction<MockTarget> = SsaFunction::new(0, 2);
    let v0 = SsaVarId::from_index(0);
    ssa.create_variable(
        VariableOrigin::Local(0),
        0,
        DefSite::instruction(0, 0),
        MockType::I32,
    );
    let v1 = SsaVarId::from_index(1);
    ssa.create_variable(
        VariableOrigin::Local(1),
        0,
        DefSite::instruction(0, 1),
        MockType::I32,
    );
    let v2 = SsaVarId::from_index(2);
    ssa.create_variable(
        VariableOrigin::Local(2),
        0,
        DefSite::instruction(0, 2),
        MockType::I32,
    );

    let mut b0 = SsaBlock::new(0);
    b0.add_instruction(SsaInstruction::synthetic(SsaOp::Const {
        dest: v0,
        value: ConstValue::I32(10),
    }));
    b0.add_instruction(SsaInstruction::synthetic(SsaOp::Const {
        dest: v1,
        value: ConstValue::I32(20),
    }));
    // Use an overflow-checked arithmetic op (impure — may throw)
    b0.add_instruction(SsaInstruction::synthetic(SsaOp::AddOvf {
        dest: v2,
        left: v0,
        right: v1,
        unsigned: false,
        flags: None,
    }));
    b0.add_instruction(SsaInstruction::synthetic(SsaOp::Return { value: None }));
    ssa.add_block(b0);
    ssa.recompute_uses();

    let mut log: EventLog<MockTarget> = EventLog::new();
    let method = 0u32;
    // We don't expect specific changes; just verify the function stays valid
    let changed = run_mock_pass_boundary(&mut ssa, "side-effect DCE", |ssa| {
        run(ssa, &method, &mut log, 20)
    });
    assert!(!changed, "side-effecting unused instruction must remain");
}

#[test]
fn all_blocks_reachable_nothing_removed() {
    let mut ssa: SsaFunction<MockTarget> = SsaFunction::new(0, 2);
    let v0 = SsaVarId::from_index(0);
    ssa.create_variable(
        VariableOrigin::Local(0),
        0,
        DefSite::instruction(0, 0),
        MockType::I32,
    );
    let v1 = SsaVarId::from_index(1);
    ssa.create_variable(
        VariableOrigin::Local(1),
        0,
        DefSite::instruction(2, 0),
        MockType::I32,
    );

    let mut b0 = SsaBlock::new(0);
    b0.add_instruction(SsaInstruction::synthetic(SsaOp::Const {
        dest: v0,
        value: ConstValue::I32(1),
    }));
    b0.add_instruction(SsaInstruction::synthetic(SsaOp::Branch {
        condition: v0,
        true_target: 1,
        false_target: 2,
    }));
    ssa.add_block(b0);

    let mut b1 = SsaBlock::new(1);
    b1.add_instruction(SsaInstruction::synthetic(SsaOp::Return { value: Some(v0) }));
    ssa.add_block(b1);

    let mut b2 = SsaBlock::new(2);
    b2.add_instruction(SsaInstruction::synthetic(SsaOp::Const {
        dest: v1,
        value: ConstValue::I32(2),
    }));
    b2.add_instruction(SsaInstruction::synthetic(SsaOp::Return { value: Some(v1) }));
    ssa.add_block(b2);
    ssa.recompute_uses();

    let mut log: EventLog<MockTarget> = EventLog::new();
    let method = 0u32;
    let changed = run_mock_pass_boundary(&mut ssa, "reachable-block DCE", |ssa| {
        run(ssa, &method, &mut log, 20)
    });
    // v1 is used, both blocks reachable — no dead code
    assert!(!changed, "reachable live blocks should not be removed");
}

#[test]
fn run_iteration_returns_zero_on_no_work() {
    let mut ssa: SsaFunction<MockTarget> = SsaFunction::new(0, 0);
    let mut b0 = SsaBlock::new(0);
    b0.add_instruction(SsaInstruction::synthetic(SsaOp::Return { value: None }));
    ssa.add_block(b0);
    ssa.recompute_uses();

    let mut log: EventLog<MockTarget> = EventLog::new();
    assert_mock_valid_full(&ssa, "DCE iteration no-work before");
    let count = run_iteration(&mut ssa, &0u32, &mut log);
    assert_mock_valid_full(&ssa, "DCE iteration no-work after");
    assert_eq!(count, 0);
}

#[test]
fn compact_variables_after_dce() {
    let mut ssa: SsaFunction<MockTarget> = SsaFunction::new(0, 2);
    let v0 = SsaVarId::from_index(0);
    ssa.create_variable(
        VariableOrigin::Local(0),
        0,
        DefSite::instruction(0, 0),
        MockType::I32,
    );
    let v1 = SsaVarId::from_index(1);
    ssa.create_variable(
        VariableOrigin::Local(1),
        0,
        DefSite::instruction(0, 1),
        MockType::I32,
    );

    let mut b0 = SsaBlock::new(0);
    b0.add_instruction(SsaInstruction::synthetic(SsaOp::Const {
        dest: v0,
        value: ConstValue::I32(5),
    }));
    b0.add_instruction(SsaInstruction::synthetic(SsaOp::Const {
        dest: v1,
        value: ConstValue::I32(99),
    }));
    b0.add_instruction(SsaInstruction::synthetic(SsaOp::Return { value: Some(v0) }));
    ssa.add_block(b0);
    ssa.recompute_uses();

    let mut log: EventLog<MockTarget> = EventLog::new();
    let method = 0u32;
    let changed = run_mock_pass_boundary(&mut ssa, "variable compaction DCE", |ssa| {
        run(ssa, &method, &mut log, 20)
    });
    assert!(changed);
    // v1 should be gone after compaction
    assert!(log.has(EventKind::InstructionRemoved));
}
