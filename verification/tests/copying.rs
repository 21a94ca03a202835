//! Copy propagation.
use analyssa::analysis::soundness::VerifyLevel;
use analyssa::events::{EventKind, EventLog};
use analyssa::ir::block::{SsaBlock, SsaInstruction};
use analyssa::ir::function::SsaFunction;
use analyssa::ir::ops::SsaOp;
use analyssa::ir::value::ConstValue;
use analyssa::ir::variable::{DefSite, SsaVarId, VariableOrigin};
use analyssa::passes::copying::{NoHook, protect_same_block_ordering, run, run_iteration};
use std::collections::BTreeMap;
use analyssa::testing::{MockTarget, MockType, mock_terminator_at};

fn assert_mock_valid_full(ssa: &SsaFunction<MockTarget>, label: &str) {
    assert!(ssa.verify_at(VerifyLevel::Full), "{label}: the function is not well-formed");
}

fn run_mock_pass_boundary<F>(ssa: &mut SsaFunction<MockTarget>, label: &str, run: F) -> bool
where
    F: FnOnce(&mut SsaFunction<MockTarget>) -> bool,
{
    assert_mock_valid_full(ssa, &format!("{label} before"));
    let changed = run(ssa);
    ssa.recompute_uses();
    assert_mock_valid_full(ssa, &format!("{label} after"));
    changed
}

fn instr(op: SsaOp<MockTarget>) -> SsaInstruction<MockTarget> {
    SsaInstruction::synthetic(op)
}

fn local_at(
    ssa: &mut SsaFunction<MockTarget>,
    idx: u16,
    block: usize,
    instr: usize,
) -> SsaVarId {
    ssa.create_variable(
        VariableOrigin::Local(idx),
        0,
        DefSite::instruction(block, instr),
        MockType::I32,
    )
}

#[test]
fn simple_copy_eliminated() {
    let mut ssa: SsaFunction<MockTarget> = SsaFunction::new(0, 2);
    let src = local_at(&mut ssa, 0, 0, 0);
    let dst = local_at(&mut ssa, 1, 0, 1);
    let mut block = SsaBlock::new(0);
    block.add_instruction(instr(SsaOp::Const {
        dest: src,
        value: ConstValue::I32(42),
    }));
    block.add_instruction(instr(SsaOp::Copy { dest: dst, src }));
    block.add_instruction(instr(SsaOp::Return { value: Some(dst) }));
    ssa.add_block(block);
    ssa.recompute_uses();

    let mut log: EventLog<MockTarget> = EventLog::new();
    let method = 0u32;
    let changed = run_mock_pass_boundary(&mut ssa, "simple copy propagation", |ssa| {
        run(ssa, &method, &mut log, 10)
    });
    assert!(changed, "simple copy should be eliminated");
    assert!(log.has(EventKind::CopyPropagated));
}

#[test]
fn three_element_chain_collapsed() {
    let mut ssa: SsaFunction<MockTarget> = SsaFunction::new(0, 3);
    let a = local_at(&mut ssa, 0, 0, 0);
    let b = local_at(&mut ssa, 1, 0, 1);
    let c = local_at(&mut ssa, 2, 0, 2);
    let mut block = SsaBlock::new(0);
    block.add_instruction(instr(SsaOp::Const {
        dest: a,
        value: ConstValue::I32(10),
    }));
    block.add_instruction(instr(SsaOp::Copy { dest: b, src: a }));
    block.add_instruction(instr(SsaOp::Copy { dest: c, src: b }));
    block.add_instruction(instr(SsaOp::Return { value: Some(c) }));
    ssa.add_block(block);
    ssa.recompute_uses();

    let mut log: EventLog<MockTarget> = EventLog::new();
    let method = 0u32;
    let changed = run_mock_pass_boundary(&mut ssa, "copy chain propagation", |ssa| {
        run(ssa, &method, &mut log, 10)
    });
    assert!(changed, "three-element chain should be collapsed");
}

#[test]
fn no_copies_nothing_changed() {
    let mut ssa: SsaFunction<MockTarget> = SsaFunction::new(0, 1);
    let v0 = local_at(&mut ssa, 0, 0, 0);
    let mut block = SsaBlock::new(0);
    block.add_instruction(instr(SsaOp::Const {
        dest: v0,
        value: ConstValue::I32(7),
    }));
    block.add_instruction(instr(SsaOp::Return { value: Some(v0) }));
    ssa.add_block(block);
    ssa.recompute_uses();

    let mut log: EventLog<MockTarget> = EventLog::new();
    let method = 0u32;
    let changed = run_mock_pass_boundary(&mut ssa, "no-copy propagation", |ssa| {
        run(ssa, &method, &mut log, 10)
    });
    assert!(!changed, "no copies should mean no changes");
}

#[test]
fn copying_empty_function_no_changes() {
    let mut ssa: SsaFunction<MockTarget> = SsaFunction::new(0, 0);
    let mut log: EventLog<MockTarget> = EventLog::new();
    let method = 0u32;
    let changed = run_mock_pass_boundary(&mut ssa, "empty copy propagation", |ssa| {
        run(ssa, &method, &mut log, 10)
    });
    assert!(!changed);
}

#[test]
fn copy_with_zero_iterations_no_change() {
    let mut ssa: SsaFunction<MockTarget> = SsaFunction::new(0, 2);
    let src = local_at(&mut ssa, 0, 0, 0);
    let dst = local_at(&mut ssa, 1, 0, 1);
    let mut block = SsaBlock::new(0);
    block.add_instruction(instr(SsaOp::Const {
        dest: src,
        value: ConstValue::I32(99),
    }));
    block.add_instruction(instr(SsaOp::Copy { dest: dst, src }));
    block.add_instruction(instr(SsaOp::Return { value: Some(dst) }));
    ssa.add_block(block);
    ssa.recompute_uses();

    let mut log: EventLog<MockTarget> = EventLog::new();
    let method = 0u32;
    let changed = run_mock_pass_boundary(&mut ssa, "zero-iteration copy propagation", |ssa| {
        run(ssa, &method, &mut log, 0)
    });
    assert!(!changed, "zero iterations should make no changes");
}

#[test]
fn copy_propagation_uses_existing_value() {
    let mut ssa: SsaFunction<MockTarget> = SsaFunction::new(0, 3);
    let a = local_at(&mut ssa, 0, 0, 0);
    let b = local_at(&mut ssa, 1, 0, 1);
    let c = local_at(&mut ssa, 2, 0, 2);
    let mut b0 = SsaBlock::new(0);
    b0.add_instruction(instr(SsaOp::Const {
        dest: a,
        value: ConstValue::I32(5),
    }));
    b0.add_instruction(instr(SsaOp::Copy { dest: b, src: a }));
    b0.add_instruction(instr(SsaOp::Copy { dest: c, src: a }));
    b0.add_instruction(instr(SsaOp::Return { value: Some(c) }));
    ssa.add_block(b0);
    ssa.recompute_uses();

    let mut log: EventLog<MockTarget> = EventLog::new();
    let method = 0u32;
    let changed = run_mock_pass_boundary(&mut ssa, "existing-value copy propagation", |ssa| {
        run(ssa, &method, &mut log, 10)
    });
    assert!(changed, "copy propagation should rewrite existing values");
    // The return should reference v0 (a) or v2 (c) — propagation happens
    let ret = mock_terminator_at(&ssa, 0);
    assert!(matches!(ret, SsaOp::Return { .. }));
}

#[test]
fn run_iteration_returns_count() {
    let mut ssa: SsaFunction<MockTarget> = SsaFunction::new(0, 2);
    let src = local_at(&mut ssa, 0, 0, 0);
    let dst = local_at(&mut ssa, 1, 0, 1);
    let mut block = SsaBlock::new(0);
    block.add_instruction(instr(SsaOp::Const {
        dest: src,
        value: ConstValue::I32(5),
    }));
    block.add_instruction(instr(SsaOp::Copy { dest: dst, src }));
    block.add_instruction(instr(SsaOp::Return { value: Some(dst) }));
    ssa.add_block(block);
    ssa.recompute_uses();

    let mut log: EventLog<MockTarget> = EventLog::new();
    assert_mock_valid_full(&ssa, "copy propagation iteration before");
    let count = run_iteration(&mut ssa, &0u32, &mut log, &mut NoHook);
    assert_mock_valid_full(&ssa, "copy propagation iteration after");
    assert!(count > 0, "should have replaced at least one use");
}

#[test]
fn multiple_copies_in_different_blocks() {
    let mut ssa: SsaFunction<MockTarget> = SsaFunction::new(0, 4);
    let a = local_at(&mut ssa, 0, 0, 0);
    let b = local_at(&mut ssa, 1, 0, 1);
    let c = local_at(&mut ssa, 2, 1, 0);
    let d = local_at(&mut ssa, 3, 2, 0);
    let mut b0 = SsaBlock::new(0);
    b0.add_instruction(instr(SsaOp::Const {
        dest: a,
        value: ConstValue::I32(1),
    }));
    b0.add_instruction(instr(SsaOp::Copy { dest: b, src: a }));
    b0.add_instruction(instr(SsaOp::Jump { target: 1 }));
    ssa.add_block(b0);
    let mut b1 = SsaBlock::new(1);
    b1.add_instruction(instr(SsaOp::Copy { dest: c, src: b }));
    b1.add_instruction(instr(SsaOp::Jump { target: 2 }));
    ssa.add_block(b1);
    let mut b2 = SsaBlock::new(2);
    b2.add_instruction(instr(SsaOp::Copy { dest: d, src: c }));
    b2.add_instruction(instr(SsaOp::Return { value: Some(d) }));
    ssa.add_block(b2);
    ssa.recompute_uses();

    let mut log: EventLog<MockTarget> = EventLog::new();
    let method = 0u32;
    let changed = run_mock_pass_boundary(&mut ssa, "multi-block copy propagation", |ssa| {
        run(ssa, &method, &mut log, 10)
    });
    assert!(changed, "chain across blocks should be collapsed");
}

#[test]
fn protect_same_block_ordering_removes_late_source_replacement() {
    let mut ssa: SsaFunction<MockTarget> = SsaFunction::new(0, 4);
    let dest = local_at(&mut ssa, 0, 0, 0);
    let use_before_src = local_at(&mut ssa, 1, 0, 1);
    let src = local_at(&mut ssa, 2, 0, 2);
    let one = local_at(&mut ssa, 3, 0, 3);

    let mut block = SsaBlock::new(0);
    block.add_instruction(instr(SsaOp::Const {
        dest,
        value: ConstValue::I32(10),
    }));
    block.add_instruction(instr(SsaOp::Add {
        dest: use_before_src,
        left: dest,
        right: dest,
        flags: None,
    }));
    block.add_instruction(instr(SsaOp::Const {
        dest: src,
        value: ConstValue::I32(20),
    }));
    block.add_instruction(instr(SsaOp::Const {
        dest: one,
        value: ConstValue::I32(1),
    }));
    block.add_instruction(instr(SsaOp::Return {
        value: Some(use_before_src),
    }));
    ssa.add_block(block);
    ssa.recompute_uses();
    assert_mock_valid_full(&ssa, "same-block ordering protection fixture");

    let mut copies = BTreeMap::from([(dest.index(), src.index())]);
    protect_same_block_ordering(&ssa, &mut copies);

    assert!(copies.is_empty());
}

#[test]
fn propagated_copies_do_not_leave_orphan_variables() {
    let mut ssa: SsaFunction<MockTarget> = SsaFunction::new(0, 4);
    let a = local_at(&mut ssa, 0, 0, 0);
    let b = local_at(&mut ssa, 1, 0, 1);
    let c = local_at(&mut ssa, 2, 0, 2);
    let out = local_at(&mut ssa, 3, 0, 3);
    let mut block = SsaBlock::new(0);
    block.add_instruction(instr(SsaOp::Const {
        dest: a,
        value: ConstValue::I32(10),
    }));
    block.add_instruction(instr(SsaOp::Copy { dest: b, src: a }));
    block.add_instruction(instr(SsaOp::Copy { dest: c, src: b }));
    block.add_instruction(instr(SsaOp::Copy { dest: out, src: c }));
    block.add_instruction(instr(SsaOp::Return { value: Some(out) }));
    ssa.add_block(block);
    ssa.recompute_uses();

    let mut log: EventLog<MockTarget> = EventLog::new();
    let method = 0u32;
    assert!(run_mock_pass_boundary(
        &mut ssa,
        "orphan-free copy propagation",
        |ssa| run(ssa, &method, &mut log, 10)
    ));
    assert!(!ssa
        .blocks()
        .iter()
        .flat_map(|block| block.instructions().iter())
        .any(|instr| matches!(instr.op(), SsaOp::Copy { .. })));
}
