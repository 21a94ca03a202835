//! Algebraic simplification.
use analyssa::events::{EventKind, EventLog};
use analyssa::ir::block::{SsaBlock, SsaInstruction};
use analyssa::ir::function::SsaFunction;
use analyssa::ir::ops::SsaOp;
use analyssa::ir::value::ConstValue;
use analyssa::ir::variable::{DefSite, SsaVarId, VariableOrigin};
use analyssa::passes::algebraic::run;
use analyssa::passes::AlgebraicSimplificationPass;
use analyssa::scheduling::{ModificationScope, PassProfile, SsaPass};
use analyssa::testing::{mock_op_at, MockTarget, MockType};

/// `x`, the constant `n`, and an operation on them.
fn simplified(
    n: i32,
    op: fn(SsaVarId, SsaVarId, SsaVarId) -> SsaOp<MockTarget>,
) -> (Option<SsaOp<MockTarget>>, Vec<String>) {
    let mut ssa: SsaFunction<MockTarget> = SsaFunction::new(1, 3);
    let v: Vec<SsaVarId> = (0..3u16)
        .map(|i| {
            ssa.create_variable(
                VariableOrigin::Local(i),
                0,
                DefSite::instruction(0, i as usize),
                MockType::I32,
            )
        })
        .collect();
    let mut block = SsaBlock::new(0);
    for op in [
        SsaOp::LoadArg { dest: v[0], arg_index: 0 },
        SsaOp::Const { dest: v[1], value: ConstValue::I32(n) },
        op(v[2], v[0], v[1]),
        SsaOp::Return { value: Some(v[2]) },
    ] {
        block.add_instruction(SsaInstruction::synthetic(op));
    }
    ssa.add_block(block);
    ssa.recompute_uses();
    let mut log: EventLog<MockTarget> = EventLog::new();
    let changed = run(&mut ssa, &1u32, &mut log);
    assert_eq!(changed, log.has(EventKind::ConstantFolded));
    let messages = log.events.iter().map(|event| event.message.clone()).collect();
    (if changed { Some(mock_op_at(&ssa, 0, 2).duplicate()) } else { None }, messages)
}

fn copies(op: &Option<SsaOp<MockTarget>>, index: usize) -> bool {
    matches!(op, Some(SsaOp::Copy { src, .. }) if src.0 == index)
}

fn is_number(op: &Option<SsaOp<MockTarget>>, n: i32) -> bool {
    matches!(op, Some(SsaOp::Const { value: ConstValue::I32(m), .. }) if *m == n)
}

#[test]
fn a_value_xor_itself_is_zero() {
    let (op, messages) =
        simplified(3, |dest, x, _| SsaOp::Xor { dest, left: x, right: x, flags: None });
    assert!(is_number(&op, 0));
    assert_eq!(messages, vec!["simplified to 0".to_string()]);
}

#[test]
fn adding_zero_keeps_a_value() {
    let (op, messages) =
        simplified(0, |dest, x, c| SsaOp::Add { dest, left: x, right: c, flags: None });
    assert!(copies(&op, 0));
    assert_eq!(messages, vec!["simplified to v0".to_string()]);
    let (op, _) = simplified(0, |dest, x, c| SsaOp::Add { dest, left: c, right: x, flags: None });
    assert!(copies(&op, 0));
    let (op, _) = simplified(4, |dest, x, c| SsaOp::Add { dest, left: x, right: c, flags: None });
    assert!(op.is_none());
}

#[test]
fn multiplying_by_one_keeps_a_value() {
    let (op, _) = simplified(1, |dest, x, c| SsaOp::Mul { dest, left: x, right: c, flags: None });
    assert!(copies(&op, 0));
    let (op, _) = simplified(1, |dest, x, c| SsaOp::Mul { dest, left: c, right: x, flags: None });
    assert!(copies(&op, 0));
    let (op, _) = simplified(0, |dest, x, c| SsaOp::Mul { dest, left: x, right: c, flags: None });
    assert!(copies(&op, 1));
}

#[test]
fn a_value_equals_itself() {
    let (op, _) = simplified(3, |dest, x, _| SsaOp::Ceq { dest, left: x, right: x });
    assert!(is_number(&op, 1));
    let (op, _) =
        simplified(3, |dest, x, _| SsaOp::Clt { dest, left: x, right: x, unsigned: false });
    assert!(is_number(&op, 0));
    let (op, _) =
        simplified(3, |dest, x, _| SsaOp::Cgt { dest, left: x, right: x, unsigned: true });
    assert!(is_number(&op, 0));
    let (op, _) = simplified(3, |dest, x, c| SsaOp::Ceq { dest, left: x, right: c });
    assert!(op.is_none());
}

#[test]
fn other_identities() {
    let (op, _) = simplified(9, |dest, x, _| SsaOp::Sub { dest, left: x, right: x, flags: None });
    assert!(is_number(&op, 0));
    let (op, _) = simplified(0, |dest, x, c| SsaOp::Sub { dest, left: x, right: c, flags: None });
    assert!(copies(&op, 0));
    let (op, _) = simplified(0, |dest, x, c| SsaOp::Sub { dest, left: c, right: x, flags: None });
    assert!(op.is_none());
    let (op, _) = simplified(-1, |dest, x, c| SsaOp::And { dest, left: x, right: c, flags: None });
    assert!(copies(&op, 0));
    let (op, _) = simplified(-1, |dest, x, c| SsaOp::Or { dest, left: x, right: c, flags: None });
    assert!(copies(&op, 1));
    let (op, _) =
        simplified(0, |dest, x, c| SsaOp::Shl { dest, value: x, amount: c, flags: None });
    assert!(copies(&op, 0));
    let (op, _) = simplified(1, |dest, x, c| SsaOp::Rem {
        dest,
        left: x,
        right: c,
        unsigned: false,
        flags: None,
    });
    assert!(is_number(&op, 0));
}

#[test]
fn what_sets_flags_stays() {
    let (op, _) = simplified(3, |dest, x, c| SsaOp::Xor {
        dest,
        left: x,
        right: x,
        flags: Some(c),
    });
    assert!(op.is_none());
}

#[test]
fn the_pass_changes_instructions_only() {
    let profile: PassProfile<MockTarget> = AlgebraicSimplificationPass::new().profile();
    assert_eq!(profile.name, "algebraic-simplification");
    assert_eq!(profile.scope, ModificationScope::InstructionsOnly);
    assert_eq!(profile.fallback_layer, 1);
}
