//! Reassociation.
use analyssa::analysis::soundness::VerifyLevel;
use analyssa::events::{EventKind, EventLog};
use analyssa::ir::block::{SsaBlock, SsaInstruction};
use analyssa::ir::function::SsaFunction;
use analyssa::ir::ops::SsaOp;
use analyssa::ir::value::ConstValue;
use analyssa::ir::variable::{DefSite, SsaVarId, VariableOrigin};
use analyssa::passes::reassociate::{OpKind, run};
use analyssa::pointer::PointerSize;
use analyssa::testing::{MockTarget, MockType};

fn assert_mock_valid_full(ssa: &SsaFunction<MockTarget>, label: &str) {
    assert!(ssa.verify_at(VerifyLevel::Full), "{label}: the function is not well-formed");
}

fn run_mock_pass_boundary<F>(ssa: &mut SsaFunction<MockTarget>, label: &str, run: F) -> bool
where
    F: FnOnce(&mut SsaFunction<MockTarget>) -> bool,
{
    assert_mock_valid_full(ssa, &format!("{label} before"));
    let changed = run(ssa);
    ssa.recompute_uses();
    assert_mock_valid_full(ssa, &format!("{label} after"));
    changed
}

fn add(
    c1: ConstValue,
    c2: ConstValue,
) -> Option<ConstValue> {
    OpKind::Add.combine(&c1, &c2, PointerSize::Bit64)
}

#[test]
fn op_kind_combine_add() {
    assert_eq!(
        add(ConstValue::I32(5), ConstValue::I32(3)),
        Some(ConstValue::I32(8))
    );
}

#[test]
fn op_kind_combine_xor() {
    let r = OpKind::Xor.combine(
        &ConstValue::I32(0xF0),
        &ConstValue::I32(0x0F),
        PointerSize::Bit64,
    );
    assert_eq!(r, Some(ConstValue::I32(0xFF)));
}

#[test]
fn op_kind_combine_mul() {
    let r = OpKind::Mul.combine(
        &ConstValue::I32(7),
        &ConstValue::I32(11),
        PointerSize::Bit64,
    );
    assert_eq!(r, Some(ConstValue::I32(77)));
}

#[test]
fn op_kind_combine_and() {
    let r = OpKind::And.combine(
        &ConstValue::I32(0xF0),
        &ConstValue::I32(0x33),
        PointerSize::Bit64,
    );
    assert_eq!(r, Some(ConstValue::I32(0x30)));
}

#[test]
fn op_kind_combine_or() {
    let r = OpKind::Or.combine(
        &ConstValue::I32(0xF0),
        &ConstValue::I32(0x0F),
        PointerSize::Bit64,
    );
    assert_eq!(r, Some(ConstValue::I32(0xFF)));
}

/// Sub uses Add internally for combining (`(x - c1) - c2` → `x - (c1 + c2)`).
#[test]
fn op_kind_combine_sub() {
    let r = OpKind::Sub.combine(
        &ConstValue::I32(5),
        &ConstValue::I32(3),
        PointerSize::Bit64,
    );
    assert_eq!(r, Some(ConstValue::I32(8)));
}

/// Shl uses Add for shift-amount combining (`(x << c1) << c2` → `x << (c1 + c2)`).
#[test]
fn op_kind_combine_shl() {
    let r = OpKind::Shl.combine(
        &ConstValue::I32(2),
        &ConstValue::I32(3),
        PointerSize::Bit64,
    );
    assert_eq!(r, Some(ConstValue::I32(5)));
}

#[test]
fn op_kind_combine_shr() {
    let r = OpKind::Shr { unsigned: false }.combine(
        &ConstValue::I32(2),
        &ConstValue::I32(3),
        PointerSize::Bit64,
    );
    assert_eq!(r, Some(ConstValue::I32(5)));
}

#[test]
fn op_kind_combine_shr_unsigned() {
    let r = OpKind::Shr { unsigned: true }.combine(
        &ConstValue::I32(1),
        &ConstValue::I32(2),
        PointerSize::Bit64,
    );
    assert_eq!(r, Some(ConstValue::I32(3)));
}

#[test]
fn op_kind_is_commutative() {
    assert!(OpKind::Add.is_commutative());
    assert!(OpKind::Mul.is_commutative());
    assert!(OpKind::And.is_commutative());
    assert!(OpKind::Or.is_commutative());
    assert!(OpKind::Xor.is_commutative());
    assert!(!OpKind::Sub.is_commutative());
    assert!(!OpKind::Shl.is_commutative());
    assert!(!OpKind::Shr { unsigned: false }.is_commutative());
    assert!(!OpKind::Shr { unsigned: true }.is_commutative());
}

#[test]
fn op_kind_combine_name_associative() {
    // Associative ops report their own name as combine_name.
    assert_eq!(OpKind::Add.combine_name(), "add");
    assert_eq!(OpKind::Mul.combine_name(), "mul");
    assert_eq!(OpKind::And.combine_name(), "and");
    assert_eq!(OpKind::Or.combine_name(), "or");
    assert_eq!(OpKind::Xor.combine_name(), "xor");
}

#[test]
fn op_kind_combine_name_non_associative() {
    // Non-associative ops fall back to add for the constant fold.
    assert_eq!(OpKind::Sub.combine_name(), "add");
    assert_eq!(OpKind::Shl.combine_name(), "add");
    assert_eq!(OpKind::Shr { unsigned: false }.combine_name(), "add");
    assert_eq!(OpKind::Shr { unsigned: true }.combine_name(), "add");
}

fn instr(op: SsaOp<MockTarget>) -> SsaInstruction<MockTarget> {
    SsaInstruction::synthetic(op)
}

fn local_at(
    ssa: &mut SsaFunction<MockTarget>,
    idx: u16,
    block: usize,
    instr: usize,
) -> SsaVarId {
    ssa.create_variable(
        VariableOrigin::Local(idx),
        0,
        DefSite::instruction(block, instr),
        MockType::I32,
    )
}

fn run_reassociate(
    ssa: &mut SsaFunction<MockTarget>,
    label: &str,
    log: &mut EventLog<MockTarget>,
) -> bool {
    run_mock_pass_boundary(ssa, label, |ssa| run(ssa, &0u32, log, PointerSize::Bit64))
}

#[test]
fn reassociate_add_combines_constants() {
    let mut ssa: SsaFunction<MockTarget> = SsaFunction::new(0, 0);
    let x = local_at(&mut ssa, 0, 0, 0);
    let c1 = local_at(&mut ssa, 1, 0, 1);
    let c2 = local_at(&mut ssa, 2, 0, 2);
    let inner = local_at(&mut ssa, 3, 0, 3);
    let outer = local_at(&mut ssa, 4, 0, 4);

    let mut block = SsaBlock::new(0);
    block.add_instruction(instr(SsaOp::Const {
        dest: x,
        value: ConstValue::I32(5),
    }));
    block.add_instruction(instr(SsaOp::Const {
        dest: c1,
        value: ConstValue::I32(3),
    }));
    block.add_instruction(instr(SsaOp::Const {
        dest: c2,
        value: ConstValue::I32(7),
    }));
    // (x + 3) + 7 → x + (3 + 7) = x + 10
    block.add_instruction(instr(SsaOp::Add {
        dest: inner,
        left: x,
        right: c1,
        flags: None,
    }));
    block.add_instruction(instr(SsaOp::Add {
        dest: outer,
        left: inner,
        right: c2,
        flags: None,
    }));
    block.add_instruction(instr(SsaOp::Return { value: Some(outer) }));
    ssa.add_block(block);
    ssa.recompute_uses();

    let mut log: EventLog<MockTarget> = EventLog::new();
    let changed = run_reassociate(&mut ssa, "add reassociation", &mut log);
    assert!(changed, "constant add reassociation should fire");
    assert!(log.has(EventKind::ConstantFolded));
}

#[test]
fn reassociate_mul_combines_constants() {
    let mut ssa: SsaFunction<MockTarget> = SsaFunction::new(0, 0);
    let x = local_at(&mut ssa, 0, 0, 0);
    let c1 = local_at(&mut ssa, 1, 0, 1);
    let c2 = local_at(&mut ssa, 2, 0, 2);
    let inner = local_at(&mut ssa, 3, 0, 3);
    let outer = local_at(&mut ssa, 4, 0, 4);

    let mut block = SsaBlock::new(0);
    block.add_instruction(instr(SsaOp::Const {
        dest: x,
        value: ConstValue::I32(2),
    }));
    block.add_instruction(instr(SsaOp::Const {
        dest: c1,
        value: ConstValue::I32(3),
    }));
    block.add_instruction(instr(SsaOp::Const {
        dest: c2,
        value: ConstValue::I32(5),
    }));
    // (x * 3) * 5 → x * (3 * 5) = x * 15
    block.add_instruction(instr(SsaOp::Mul {
        dest: inner,
        left: x,
        right: c1,
        flags: None,
    }));
    block.add_instruction(instr(SsaOp::Mul {
        dest: outer,
        left: inner,
        right: c2,
        flags: None,
    }));
    block.add_instruction(instr(SsaOp::Return { value: Some(outer) }));
    ssa.add_block(block);
    ssa.recompute_uses();

    let mut log: EventLog<MockTarget> = EventLog::new();
    let changed = run_reassociate(&mut ssa, "mul reassociation", &mut log);
    assert!(changed, "constant mul reassociation should fire");
}

#[test]
fn reassociate_and_combines_constants() {
    let mut ssa: SsaFunction<MockTarget> = SsaFunction::new(0, 0);
    let x = local_at(&mut ssa, 0, 0, 0);
    let c1 = local_at(&mut ssa, 1, 0, 1);
    let c2 = local_at(&mut ssa, 2, 0, 2);
    let inner = local_at(&mut ssa, 3, 0, 3);
    let outer = local_at(&mut ssa, 4, 0, 4);

    let mut block = SsaBlock::new(0);
    block.add_instruction(instr(SsaOp::Const {
        dest: x,
        value: ConstValue::I32(0xFF),
    }));
    block.add_instruction(instr(SsaOp::Const {
        dest: c1,
        value: ConstValue::I32(0xF0),
    }));
    block.add_instruction(instr(SsaOp::Const {
        dest: c2,
        value: ConstValue::I32(0x0F),
    }));
    // (x & 0xF0) & 0x0F → x & (0xF0 & 0x0F) = x & 0
    block.add_instruction(instr(SsaOp::And {
        dest: inner,
        left: x,
        right: c1,
        flags: None,
    }));
    block.add_instruction(instr(SsaOp::And {
        dest: outer,
        left: inner,
        right: c2,
        flags: None,
    }));
    block.add_instruction(instr(SsaOp::Return { value: Some(outer) }));
    ssa.add_block(block);
    ssa.recompute_uses();

    let mut log: EventLog<MockTarget> = EventLog::new();
    let changed = run_reassociate(&mut ssa, "and reassociation", &mut log);
    assert!(changed, "constant and reassociation should fire");
}

#[test]
fn reassociate_or_combines_constants() {
    let mut ssa: SsaFunction<MockTarget> = SsaFunction::new(0, 0);
    let x = local_at(&mut ssa, 0, 0, 0);
    let c1 = local_at(&mut ssa, 1, 0, 1);
    let c2 = local_at(&mut ssa, 2, 0, 2);
    let inner = local_at(&mut ssa, 3, 0, 3);
    let outer = local_at(&mut ssa, 4, 0, 4);

    let mut block = SsaBlock::new(0);
    block.add_instruction(instr(SsaOp::Const {
        dest: x,
        value: ConstValue::I32(0x00),
    }));
    block.add_instruction(instr(SsaOp::Const {
        dest: c1,
        value: ConstValue::I32(0xF0),
    }));
    block.add_instruction(instr(SsaOp::Const {
        dest: c2,
        value: ConstValue::I32(0x0F),
    }));
    // (x | 0xF0) | 0x0F → x | (0xF0 | 0x0F) = x | 0xFF
    block.add_instruction(instr(SsaOp::Or {
        dest: inner,
        left: x,
        right: c1,
        flags: None,
    }));
    block.add_instruction(instr(SsaOp::Or {
        dest: outer,
        left: inner,
        right: c2,
        flags: None,
    }));
    block.add_instruction(instr(SsaOp::Return { value: Some(outer) }));
    ssa.add_block(block);
    ssa.recompute_uses();

    let mut log: EventLog<MockTarget> = EventLog::new();
    let changed = run_reassociate(&mut ssa, "or reassociation", &mut log);
    assert!(changed, "constant or reassociation should fire");
}

#[test]
fn no_candidates_no_changes() {
    let mut ssa: SsaFunction<MockTarget> = SsaFunction::new(0, 0);
    let x = local_at(&mut ssa, 0, 0, 0);
    let y = local_at(&mut ssa, 1, 0, 1);
    let z = local_at(&mut ssa, 2, 0, 2);

    let mut block = SsaBlock::new(0);
    block.add_instruction(instr(SsaOp::Const {
        dest: x,
        value: ConstValue::I32(1),
    }));
    block.add_instruction(instr(SsaOp::Const {
        dest: y,
        value: ConstValue::I32(2),
    }));
    // No nested expression with constants
    block.add_instruction(instr(SsaOp::Add {
        dest: z,
        left: x,
        right: y,
        flags: None,
    }));
    block.add_instruction(instr(SsaOp::Return { value: Some(z) }));
    ssa.add_block(block);
    ssa.recompute_uses();

    let mut log: EventLog<MockTarget> = EventLog::new();
    let changed = run_reassociate(&mut ssa, "no-candidate reassociation", &mut log);
    assert!(
        !changed,
        "no nested constant pattern should not trigger reassociation"
    );
}

#[test]
fn reassociate_commutative_constant_on_left() {
    let mut ssa: SsaFunction<MockTarget> = SsaFunction::new(0, 0);
    let x = local_at(&mut ssa, 0, 0, 0);
    let c1 = local_at(&mut ssa, 1, 0, 1);
    let c2 = local_at(&mut ssa, 2, 0, 2);
    let inner = local_at(&mut ssa, 3, 0, 3);
    let outer = local_at(&mut ssa, 4, 0, 4);

    let mut block = SsaBlock::new(0);
    block.add_instruction(instr(SsaOp::Const {
        dest: x,
        value: ConstValue::I32(5),
    }));
    block.add_instruction(instr(SsaOp::Const {
        dest: c1,
        value: ConstValue::I32(3),
    }));
    block.add_instruction(instr(SsaOp::Const {
        dest: c2,
        value: ConstValue::I32(7),
    }));
    // (3 + x) + 7 = x + (3 + 7) = x + 10
    block.add_instruction(instr(SsaOp::Add {
        dest: inner,
        left: c1,
        right: x,
        flags: None,
    }));
    block.add_instruction(instr(SsaOp::Add {
        dest: outer,
        left: inner,
        right: c2,
        flags: None,
    }));
    block.add_instruction(instr(SsaOp::Return { value: Some(outer) }));
    ssa.add_block(block);
    ssa.recompute_uses();

    let mut log: EventLog<MockTarget> = EventLog::new();
    let changed = run_reassociate(&mut ssa, "commutative-left reassociation", &mut log);
    assert!(
        changed,
        "commutative reassociation with constant on left should fire"
    );
}

#[test]
fn reassociate_shift_combines_amounts() {
    let mut ssa: SsaFunction<MockTarget> = SsaFunction::new(0, 0);
    let x = local_at(&mut ssa, 0, 0, 0);
    let c1 = local_at(&mut ssa, 1, 0, 1);
    let c2 = local_at(&mut ssa, 2, 0, 2);
    let inner = local_at(&mut ssa, 3, 0, 3);
    let outer = local_at(&mut ssa, 4, 0, 4);

    let mut block = SsaBlock::new(0);
    block.add_instruction(instr(SsaOp::Const {
        dest: x,
        value: ConstValue::I32(1),
    }));
    block.add_instruction(instr(SsaOp::Const {
        dest: c1,
        value: ConstValue::I32(2),
    }));
    block.add_instruction(instr(SsaOp::Const {
        dest: c2,
        value: ConstValue::I32(3),
    }));
    // (x << 2) << 3 → x << (2 + 3) = x << 5
    block.add_instruction(instr(SsaOp::Shl {
        dest: inner,
        value: x,
        amount: c1,
        flags: None,
    }));
    block.add_instruction(instr(SsaOp::Shl {
        dest: outer,
        value: inner,
        amount: c2,
        flags: None,
    }));
    block.add_instruction(instr(SsaOp::Return { value: Some(outer) }));
    ssa.add_block(block);
    ssa.recompute_uses();

    let mut log: EventLog<MockTarget> = EventLog::new();
    let changed = run_reassociate(&mut ssa, "shift reassociation", &mut log);
    assert!(changed, "shift reassociation should fire");
}

#[test]
fn reassociate_sub_combines_constants() {
    let mut ssa: SsaFunction<MockTarget> = SsaFunction::new(0, 0);
    let x = local_at(&mut ssa, 0, 0, 0);
    let c1 = local_at(&mut ssa, 1, 0, 1);
    let c2 = local_at(&mut ssa, 2, 0, 2);
    let inner = local_at(&mut ssa, 3, 0, 3);
    let outer = local_at(&mut ssa, 4, 0, 4);

    let mut block = SsaBlock::new(0);
    block.add_instruction(instr(SsaOp::Const {
        dest: x,
        value: ConstValue::I32(10),
    }));
    block.add_instruction(instr(SsaOp::Const {
        dest: c1,
        value: ConstValue::I32(3),
    }));
    block.add_instruction(instr(SsaOp::Const {
        dest: c2,
        value: ConstValue::I32(2),
    }));
    // (x - 3) - 2 → x - (3 + 2) = x - 5
    block.add_instruction(instr(SsaOp::Sub {
        dest: inner,
        left: x,
        right: c1,
        flags: None,
    }));
    block.add_instruction(instr(SsaOp::Sub {
        dest: outer,
        left: inner,
        right: c2,
        flags: None,
    }));
    block.add_instruction(instr(SsaOp::Return { value: Some(outer) }));
    ssa.add_block(block);
    ssa.recompute_uses();

    let mut log: EventLog<MockTarget> = EventLog::new();
    let changed = run_reassociate(&mut ssa, "sub reassociation", &mut log);
    assert!(changed, "sub reassociation should fire");
}

#[test]
fn reassociate_empty_function() {
    let mut ssa: SsaFunction<MockTarget> = SsaFunction::new(0, 0);
    let mut log: EventLog<MockTarget> = EventLog::new();
    let changed = run_reassociate(&mut ssa, "empty reassociation", &mut log);
    assert!(!changed);
}
