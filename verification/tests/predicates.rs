//! Opaque predicates.
use analyssa::analysis::soundness::VerifyLevel;
use analyssa::events::{EventKind, EventLog};
use analyssa::ir::block::{SsaBlock, SsaInstruction};
use analyssa::ir::function::SsaFunction;
use analyssa::ir::ops::SsaOp;
use analyssa::ir::phi::{PhiNode, PhiOperand};
use analyssa::ir::value::ConstValue;
use analyssa::ir::variable::{DefSite, SsaVarId, VariableOrigin};
use analyssa::passes::predicates::{OpaquePredicatePass, PredicateResult, run};
use analyssa::pointer::PointerSize;
use analyssa::testing::{MockTarget, MockType};

fn assert_mock_valid_full(ssa: &SsaFunction<MockTarget>, label: &str) {
    assert!(ssa.verify_at(VerifyLevel::Full), "{label}: the function is not well-formed");
}

fn run_mock_pass_boundary<F>(ssa: &mut SsaFunction<MockTarget>, label: &str, run: F) -> bool
where
    F: FnOnce(&mut SsaFunction<MockTarget>) -> bool,
{
    assert_mock_valid_full(ssa, &format!("{label} before"));
    let changed = run(ssa);
    ssa.recompute_uses();
    assert_mock_valid_full(ssa, &format!("{label} after"));
    changed
}

/// Verifies predicate tri-state conversions and negation.
#[test]
fn predicate_result_negate_and_as_bool() {
    assert_eq!(PredicateResult::AlwaysTrue.as_bool(), Some(true));
    assert_eq!(PredicateResult::AlwaysFalse.as_bool(), Some(false));
    assert_eq!(PredicateResult::Unknown.as_bool(), None);

    assert_eq!(
        PredicateResult::AlwaysTrue.negate(),
        PredicateResult::AlwaysFalse
    );
    assert_eq!(
        PredicateResult::AlwaysFalse.negate(),
        PredicateResult::AlwaysTrue
    );
    assert_eq!(PredicateResult::Unknown.negate(), PredicateResult::Unknown);
}


fn instr(op: SsaOp<MockTarget>) -> SsaInstruction<MockTarget> {
    SsaInstruction::synthetic(op)
}

fn local_at(
    ssa: &mut SsaFunction<MockTarget>,
    idx: u16,
    block: usize,
    instr: usize,
) -> SsaVarId {
    ssa.create_variable(
        VariableOrigin::Local(idx),
        0,
        DefSite::instruction(block, instr),
        MockType::I32,
    )
}

fn run_predicates(
    ssa: &mut SsaFunction<MockTarget>,
    label: &str,
    method: &u32,
    log: &mut EventLog<MockTarget>,
) -> bool {
    run_mock_pass_boundary(ssa, label, |ssa| run(ssa, method, log, PointerSize::Bit64))
}

fn build_branch_with_opaque_predicate() -> SsaFunction<MockTarget> {
    let mut ssa = SsaFunction::new(0, 4);
    let v0 = local_at(&mut ssa, 0, 0, 0);
    let v1 = local_at(&mut ssa, 1, 0, 1);

    // Need B1 and B2 as branch targets
    let mut b1 = SsaBlock::new(1);
    b1.add_instruction(instr(SsaOp::Return { value: None }));
    ssa.add_block(b1);
    let mut b2 = SsaBlock::new(2);
    b2.add_instruction(instr(SsaOp::Return { value: None }));
    ssa.add_block(b2);

    let mut b0 = SsaBlock::new(0);
    b0.add_instruction(instr(SsaOp::Const {
        dest: v0,
        value: ConstValue::I32(42),
    }));
    b0.add_instruction(instr(SsaOp::Ceq {
        dest: v1,
        left: v0,
        right: v0,
    }));
    b0.add_instruction(instr(SsaOp::Branch {
        condition: v1,
        true_target: 1,
        false_target: 2,
    }));
    ssa.add_block(b0);

    ssa.recompute_uses();
    ssa
}

#[test]
fn opaque_predicate_self_equality_detected() {
    let mut ssa = build_branch_with_opaque_predicate();
    let mut log: EventLog<MockTarget> = EventLog::new();
    let method = 3u32;
    let changed = run_predicates(&mut ssa, "self-equality predicate", &method, &mut log);
    // The Ceq(v0, v0) should be detected as always true
    assert!(changed, "self-equality opaque predicate should be detected");
    assert!(log.has(EventKind::OpaquePredicateRemoved) || log.has(EventKind::BranchSimplified));
}

#[test]
fn xor_self_always_zero_in_predicate() {
    let mut ssa = SsaFunction::new(0, 4);
    let v0 = local_at(&mut ssa, 0, 0, 0);
    let v_xor = local_at(&mut ssa, 1, 0, 1);
    let v_zero = local_at(&mut ssa, 2, 0, 2);

    let mut b1 = SsaBlock::new(1);
    b1.add_instruction(instr(SsaOp::Return { value: None }));
    ssa.add_block(b1);
    let mut b2 = SsaBlock::new(2);
    b2.add_instruction(instr(SsaOp::Return { value: None }));
    ssa.add_block(b2);

    let mut b0 = SsaBlock::new(0);
    b0.add_instruction(instr(SsaOp::Const {
        dest: v0,
        value: ConstValue::I32(7),
    }));
    b0.add_instruction(instr(SsaOp::Xor {
        dest: v_xor,
        left: v0,
        right: v0,
        flags: None,
    }));
    b0.add_instruction(instr(SsaOp::Ceq {
        dest: v_zero,
        left: v_xor,
        right: v0,
    }));
    b0.add_instruction(instr(SsaOp::Branch {
        condition: v_zero,
        true_target: 1,
        false_target: 2,
    }));
    ssa.add_block(b0);
    ssa.recompute_uses();

    let mut log: EventLog<MockTarget> = EventLog::new();
    let method = 0u32;
    let changed = run_predicates(&mut ssa, "xor-self predicate", &method, &mut log);
    assert!(changed, "xor-self pattern should be detected");
}

#[test]
fn sub_self_always_zero_in_predicate() {
    let mut ssa = SsaFunction::new(0, 4);
    let v0 = local_at(&mut ssa, 0, 0, 0);
    let v_sub = local_at(&mut ssa, 1, 0, 1);
    let v_ceq = local_at(&mut ssa, 2, 0, 2);

    let mut b1 = SsaBlock::new(1);
    b1.add_instruction(instr(SsaOp::Return { value: None }));
    ssa.add_block(b1);
    let mut b2 = SsaBlock::new(2);
    b2.add_instruction(instr(SsaOp::Return { value: None }));
    ssa.add_block(b2);

    let mut b0 = SsaBlock::new(0);
    b0.add_instruction(instr(SsaOp::Const {
        dest: v0,
        value: ConstValue::I32(10),
    }));
    b0.add_instruction(instr(SsaOp::Sub {
        dest: v_sub,
        left: v0,
        right: v0,
        flags: None,
    }));
    b0.add_instruction(instr(SsaOp::Ceq {
        dest: v_ceq,
        left: v_sub,
        right: v0,
    }));
    b0.add_instruction(instr(SsaOp::Branch {
        condition: v_ceq,
        true_target: 1,
        false_target: 2,
    }));
    ssa.add_block(b0);
    ssa.recompute_uses();

    let mut log: EventLog<MockTarget> = EventLog::new();
    let method = 0u32;
    let changed = run_predicates(&mut ssa, "sub-self predicate", &method, &mut log);
    assert!(changed, "sub-self comparison should be detected");
}

#[test]
fn constant_comparison_true() {
    let mut ssa = SsaFunction::new(0, 3);
    let v0 = local_at(&mut ssa, 0, 0, 0);
    let v1 = local_at(&mut ssa, 1, 0, 1);
    let v_ceq = local_at(&mut ssa, 2, 0, 2);

    let mut b1 = SsaBlock::new(1);
    b1.add_instruction(instr(SsaOp::Return { value: None }));
    ssa.add_block(b1);
    let mut b2 = SsaBlock::new(2);
    b2.add_instruction(instr(SsaOp::Return { value: None }));
    ssa.add_block(b2);

    let mut b0 = SsaBlock::new(0);
    b0.add_instruction(instr(SsaOp::Const {
        dest: v0,
        value: ConstValue::I32(5),
    }));
    b0.add_instruction(instr(SsaOp::Const {
        dest: v1,
        value: ConstValue::I32(5),
    }));
    // 5 == 5 → always true
    b0.add_instruction(instr(SsaOp::Ceq {
        dest: v_ceq,
        left: v0,
        right: v1,
    }));
    b0.add_instruction(instr(SsaOp::Branch {
        condition: v_ceq,
        true_target: 1,
        false_target: 2,
    }));
    ssa.add_block(b0);
    ssa.recompute_uses();

    let mut log: EventLog<MockTarget> = EventLog::new();
    let method = 0u32;
    let changed = run_predicates(&mut ssa, "constant-true predicate", &method, &mut log);
    assert!(changed, "constant equality should be detected");
}

#[test]
fn constant_comparison_false() {
    let mut ssa = SsaFunction::new(0, 3);
    let v0 = local_at(&mut ssa, 0, 0, 0);
    let v1 = local_at(&mut ssa, 1, 0, 1);
    let v_ceq = local_at(&mut ssa, 2, 0, 2);

    let mut b1 = SsaBlock::new(1);
    b1.add_instruction(instr(SsaOp::Return { value: None }));
    ssa.add_block(b1);
    let mut b2 = SsaBlock::new(2);
    b2.add_instruction(instr(SsaOp::Return { value: None }));
    ssa.add_block(b2);

    let mut b0 = SsaBlock::new(0);
    b0.add_instruction(instr(SsaOp::Const {
        dest: v0,
        value: ConstValue::I32(3),
    }));
    b0.add_instruction(instr(SsaOp::Const {
        dest: v1,
        value: ConstValue::I32(7),
    }));
    // 3 == 7 → always false
    b0.add_instruction(instr(SsaOp::Ceq {
        dest: v_ceq,
        left: v0,
        right: v1,
    }));
    b0.add_instruction(instr(SsaOp::Branch {
        condition: v_ceq,
        true_target: 1,
        false_target: 2,
    }));
    ssa.add_block(b0);
    ssa.recompute_uses();

    let mut log: EventLog<MockTarget> = EventLog::new();
    let method = 0u32;
    let changed = run_predicates(&mut ssa, "constant-false predicate", &method, &mut log);
    assert!(changed, "constant inequality should be detected");
}

#[test]
fn clt_same_var_always_false() {
    let mut ssa = SsaFunction::new(0, 2);
    let v0 = local_at(&mut ssa, 0, 0, 0);
    let v_clt = local_at(&mut ssa, 1, 0, 1);

    let mut b1 = SsaBlock::new(1);
    b1.add_instruction(instr(SsaOp::Return { value: None }));
    ssa.add_block(b1);
    let mut b2 = SsaBlock::new(2);
    b2.add_instruction(instr(SsaOp::Return { value: None }));
    ssa.add_block(b2);

    let mut b0 = SsaBlock::new(0);
    b0.add_instruction(instr(SsaOp::Const {
        dest: v0,
        value: ConstValue::I32(5),
    }));
    b0.add_instruction(instr(SsaOp::Clt {
        dest: v_clt,
        left: v0,
        right: v0,
        unsigned: false,
    }));
    b0.add_instruction(instr(SsaOp::Branch {
        condition: v_clt,
        true_target: 1,
        false_target: 2,
    }));
    ssa.add_block(b0);
    ssa.recompute_uses();

    let mut log: EventLog<MockTarget> = EventLog::new();
    let method = 0u32;
    let changed = run_predicates(&mut ssa, "same-var less-than predicate", &method, &mut log);
    assert!(changed, "x < x should be always false");
}

#[test]
fn unsigned_less_than_zero_always_false() {
    let mut ssa = SsaFunction::new(0, 3);
    let v0 = local_at(&mut ssa, 0, 0, 0);
    let zero = local_at(&mut ssa, 1, 0, 1);
    let v_clt = local_at(&mut ssa, 2, 0, 2);

    let mut b1 = SsaBlock::new(1);
    b1.add_instruction(instr(SsaOp::Return { value: None }));
    ssa.add_block(b1);
    let mut b2 = SsaBlock::new(2);
    b2.add_instruction(instr(SsaOp::Return { value: None }));
    ssa.add_block(b2);

    let mut b0 = SsaBlock::new(0);
    b0.add_instruction(instr(SsaOp::Const {
        dest: v0,
        value: ConstValue::U32(10),
    }));
    b0.add_instruction(instr(SsaOp::Const {
        dest: zero,
        value: ConstValue::U32(0),
    }));
    // unsigned x < 0 is always false
    b0.add_instruction(instr(SsaOp::Clt {
        dest: v_clt,
        left: v0,
        right: zero,
        unsigned: true,
    }));
    b0.add_instruction(instr(SsaOp::Branch {
        condition: v_clt,
        true_target: 1,
        false_target: 2,
    }));
    ssa.add_block(b0);
    ssa.recompute_uses();

    let mut log: EventLog<MockTarget> = EventLog::new();
    let method = 0u32;
    let changed = run_predicates(&mut ssa, "unsigned-less-than-zero predicate", &method, &mut log);
    assert!(changed, "unsigned x < 0 should be always false");
}

#[test]
fn analyze_phi_constants_all_same() {
    let mut ssa = SsaFunction::new(0, 3);
    let v0 = local_at(&mut ssa, 0, 0, 0);
    let v1 = local_at(&mut ssa, 1, 1, 0);
    let phi_var =
        ssa.create_variable(VariableOrigin::Local(2), 0, DefSite::phi(2), MockType::I32);

    let mut b0 = SsaBlock::new(0);
    b0.add_instruction(instr(SsaOp::Const {
        dest: v0,
        value: ConstValue::I32(42),
    }));
    b0.add_instruction(instr(SsaOp::Jump { target: 2 }));
    ssa.add_block(b0);

    let mut b1 = SsaBlock::new(1);
    b1.add_instruction(instr(SsaOp::Const {
        dest: v1,
        value: ConstValue::I32(42),
    }));
    b1.add_instruction(instr(SsaOp::Jump { target: 2 }));
    ssa.add_block(b1);

    let mut b2 = SsaBlock::new(2);
    let mut phi = PhiNode::new(phi_var, VariableOrigin::Local(2));
    phi.add_operand(PhiOperand::new(v0, 0));
    phi.add_operand(PhiOperand::new(v1, 1));
    b2.add_phi(phi);
    b2.add_instruction(instr(SsaOp::Return {
        value: Some(phi_var),
    }));
    ssa.add_block(b2);
    ssa.recompute_uses();

    let constants = OpaquePredicatePass::<MockTarget>::analyze_phi_constants(&ssa);
    // Both operands are constant I32(42) — phi should be resolved
    assert!(
        constants.contains_key(&phi_var.index()),
        "phi with same constants should be resolved"
    );
}

#[test]
fn branch_always_true_opaque_predicate() {
    let mut ssa = SsaFunction::new(0, 2);
    let v0 = local_at(&mut ssa, 0, 0, 0);

    let mut b1 = SsaBlock::new(1);
    b1.add_instruction(instr(SsaOp::Return { value: None }));
    ssa.add_block(b1);
    let mut b2 = SsaBlock::new(2);
    b2.add_instruction(instr(SsaOp::Return { value: None }));
    ssa.add_block(b2);

    let mut b0 = SsaBlock::new(0);
    b0.add_instruction(instr(SsaOp::Const {
        dest: v0,
        value: ConstValue::I32(1),
    }));
    // Branch on constant 1 — always true
    b0.add_instruction(instr(SsaOp::Branch {
        condition: v0,
        true_target: 1,
        false_target: 2,
    }));
    ssa.add_block(b0);
    ssa.recompute_uses();

    let mut log: EventLog<MockTarget> = EventLog::new();
    let method = 0u32;
    let changed = run_predicates(&mut ssa, "constant-branch predicate", &method, &mut log);
    // The branch on constant 1 should be simplified
    assert!(changed, "constant branch should be simplified");
}

#[test]
fn empty_function_noop() {
    let mut ssa: SsaFunction<MockTarget> = SsaFunction::new(0, 0);
    let mut log: EventLog<MockTarget> = EventLog::new();
    let method = 0u32;
    let changed = run_predicates(&mut ssa, "empty predicates", &method, &mut log);
    assert!(!changed);
}
