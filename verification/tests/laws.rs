//! What holds of the library as a whole, on sample values.
use analyssa::analysis::closure::find_reached;
use analyssa::analysis::liveness::compute_live_variables;
use analyssa::analysis::loops::{analyze_loops, compute_dominators};
use analyssa::analysis::range::ValueRange;
use analyssa::events::{EventKind, EventLog};
use analyssa::ir::block::{SsaBlock, SsaInstruction};
use analyssa::ir::function::SsaFunction;
use analyssa::ir::ops::{AtomicAccessWidth, AtomicOrdering, FenceKind, SsaOp};
use analyssa::ir::phi::{PhiNode, PhiOperand};
use analyssa::ir::value::ConstValue;
use analyssa::ir::variable::{DefSite, SsaVarId, VariableOrigin};
use analyssa::passes::gvn::ValueKey;
use analyssa::passes::predicates::PredicateResult;
use analyssa::passes::utils::{is_power_of_two, resolve_chain};
use analyssa::passes::{
    blockmerge, copying, deadcode, gvn, licm, loopcanon, predicates, ranges, reassociate, strength,
};
use analyssa::pointer::PointerSize;
use analyssa::target::{
    Endianness, Target, VectorLaneKind, VectorMaskShape, VectorShape, VectorShuffleLane,
    VectorShuffleMask,
};
use analyssa::testing::{
    const_i32_return, create_i32_local, diamond_phi_fixture, loop_counter_fixture,
    memory_effect_fixture, mock_i64, mock_mask4, mock_op_at, mock_op_count, mock_ptr, mock_ref,
    mock_terminator_at, mock_v4i32, scalar_rewrite_fixture, MockTarget, MockType, MockWorld,
};
use std::collections::BTreeMap;

const SIZES: [PointerSize; 5] = [
    PointerSize::Bit8,
    PointerSize::Bit16,
    PointerSize::Bit32,
    PointerSize::Bit64,
    PointerSize::Bit128,
];

fn local(ssa: &mut SsaFunction<MockTarget>, index: u16, block: usize, instr: usize) -> SsaVarId {
    ssa.create_variable(
        VariableOrigin::Local(index),
        0,
        DefSite::instruction(block, instr),
        MockType::I32,
    )
}

fn push(block: &mut SsaBlock<MockTarget>, op: SsaOp<MockTarget>) {
    block.add_instruction(SsaInstruction::synthetic(op));
}

/// A loop of two blocks with two ways in and two ways back.
fn tangled_loop() -> SsaFunction<MockTarget> {
    let mut ssa = SsaFunction::new(0, 1);
    let cond = local(&mut ssa, 0, 0, 0);
    let mut b0 = SsaBlock::new(0);
    push(&mut b0, SsaOp::Const { dest: cond, value: ConstValue::I32(1) });
    push(&mut b0, SsaOp::Branch { condition: cond, true_target: 1, false_target: 2 });
    ssa.add_block(b0);
    let mut b1 = SsaBlock::new(1);
    push(&mut b1, SsaOp::Jump { target: 3 });
    ssa.add_block(b1);
    let mut b2 = SsaBlock::new(2);
    push(&mut b2, SsaOp::Jump { target: 3 });
    ssa.add_block(b2);
    let mut b3 = SsaBlock::new(3);
    push(&mut b3, SsaOp::Branch { condition: cond, true_target: 4, false_target: 5 });
    ssa.add_block(b3);
    let mut b4 = SsaBlock::new(4);
    push(&mut b4, SsaOp::Branch { condition: cond, true_target: 3, false_target: 6 });
    ssa.add_block(b4);
    let mut b5 = SsaBlock::new(5);
    push(&mut b5, SsaOp::Return { value: None });
    ssa.add_block(b5);
    let mut b6 = SsaBlock::new(6);
    push(&mut b6, SsaOp::Jump { target: 3 });
    ssa.add_block(b6);
    ssa.recompute_uses();
    ssa
}

#[test]
fn masking_twice_is_masking_once() {
    for size in SIZES {
        for value in [0, 1, -1, 127, 128, 255, 256, 0x8000, 0xFFFF_FFFF, i64::MIN, i64::MAX] {
            let once = size.mask_signed(value);
            assert_eq!(size.mask_signed(once), once);
            let once = size.mask_unsigned(value as u64);
            assert_eq!(size.mask_unsigned(once), once);
        }
    }
    assert_eq!(PointerSize::Bit8.mask_signed(0x180), -128);
    assert_eq!(PointerSize::Bit16.mask_unsigned_128(0x1_2345), 0x2345);
}

#[test]
fn reading_inverts_laying_out() {
    for order in [Endianness::Little, Endianness::Big] {
        let bytes = [1u8, 2, 3, 4];
        assert_eq!(order.bytes_of_u32(order.read_u32(&bytes)), bytes);
        assert_eq!(order.read_ptr_sized(&[9, 8], PointerSize::Bit16) > 0, true);
        assert_eq!(order.to_native_u16(order.from_native_u16(0x1234)), 0x1234);
    }
    let mut big = Endianness::Big.bytes_of_u64(0x0102_0304_0506_0708).to_vec();
    big.reverse();
    assert_eq!(big, Endianness::Little.bytes_of_u64(0x0102_0304_0506_0708));
    // One of the two orders is that of the machine, and the other swaps.
    assert_ne!(
        Endianness::Little.to_native_u16(0x0102),
        Endianness::Big.to_native_u16(0x0102)
    );
}

#[test]
fn shapes_are_checked() {
    assert!(VectorShape::new(4, VectorLaneKind::Integer, 32, 128).is_some());
    assert!(VectorShape::new(4, VectorLaneKind::Integer, 32, 64).is_none());
    assert!(VectorShape::new(0, VectorLaneKind::Integer, 32, 0).is_none());
    assert!(VectorMaskShape::new(4, 0).is_none());
    let mask = VectorShuffleMask::new(vec![
        VectorShuffleLane::Zero,
        VectorShuffleLane::Left(3),
        VectorShuffleLane::Right(0),
    ]);
    assert!(mask.is_valid_for(4, Some(1)));
    assert!(!mask.is_valid_for(3, Some(1)));
    assert!(!mask.is_valid_for(4, None));
}

#[test]
fn mock_types_and_shapes_agree() {
    for t in [MockType::V4I32, MockType::V2F64] {
        let shape = MockTarget::vector_shape(&t).expect("a vector type has a shape");
        assert_eq!(MockTarget::vector_type(shape), Some(t));
    }
    let lanes = MockTarget::vector_shape(&MockType::V4I32).expect("a vector type has a shape");
    assert_eq!(MockTarget::vector_lane_type(lanes), Some(MockType::I32));
    let shape =
        MockTarget::scalable_vector_shape(&MockType::NxV4I32).expect("a vector type has a shape");
    assert_eq!(MockTarget::scalable_vector_type(shape), Some(MockType::NxV4I32));
    assert_eq!(MockTarget::scalable_vector_lane_type(shape), Some(MockType::I32));
    let mask = MockTarget::vector_mask_shape(&MockType::Mask4).expect("a mask has a shape");
    assert_eq!(MockTarget::vector_mask_type(mask), Some(MockType::Mask4));
    let mask =
        MockTarget::scalable_vector_mask_shape(&MockType::NxMask4).expect("a mask has a shape");
    assert_eq!(MockTarget::scalable_vector_mask_type(mask), Some(MockType::NxMask4));
    assert!(MockTarget::is_vector(&MockType::V2F64));
    assert!(!MockTarget::is_vector(&MockType::I32));
    assert_eq!(MockType::NxV4I32.name(), "nxv4i32");
    assert_eq!(MockType::Unknown.name(), "unknown");
}

#[test]
fn mock_definitions_have_their_types() {
    assert_eq!(mock_i64().var_type, MockType::I64);
    assert_eq!(mock_ptr().var_type, MockType::Ptr);
    assert_eq!(mock_ref().var_type, MockType::Ref);
    assert_eq!(mock_v4i32().var_type, MockType::V4I32);
    assert_eq!(mock_mask4().var_type, MockType::Mask4);
    assert_eq!(mock_mask4().origin, VariableOrigin::Temp);
}

#[test]
fn fixtures_are_well_formed() {
    for ssa in [
        const_i32_return(3),
        scalar_rewrite_fixture(),
        diamond_phi_fixture(),
        loop_counter_fixture(),
        memory_effect_fixture(),
        tangled_loop(),
    ] {
        assert!(ssa.verify());
    }
    let ssa = scalar_rewrite_fixture();
    assert_eq!(ssa.block_count(), 3);
    assert_eq!(ssa.variable_count(), 13);
    assert_eq!(mock_op_count(&ssa, |op| matches!(op, SsaOp::Const { .. })), 7);
    assert!(matches!(
        mock_op_at(&ssa, 0, 9),
        SsaOp::Copy { dest: SsaVarId(9), src: SsaVarId(8) }
    ));
    assert!(matches!(mock_terminator_at(&ssa, 0), SsaOp::Branch { .. }));
    let ssa = diamond_phi_fixture();
    let phis = ssa.block(3).expect("the merge block").phi_nodes();
    assert_eq!(phis.len(), 1);
    assert_eq!(phis[0].operands().len(), 2);
    let mut ssa = const_i32_return(3);
    assert_eq!(create_i32_local(&mut ssa, 0, 7), SsaVarId(1));
    assert_eq!(ssa.variables()[1].origin(), VariableOrigin::Local(7));
}

#[test]
fn reachability_is_the_least_closed_set() {
    let edges = vec![(0, 1), (1, 2), (3, 4), (2, 1)];
    assert_eq!(find_reached(5, &vec![0], &edges), vec![true, true, true, false, false]);
    assert_eq!(find_reached(5, &vec![3], &edges), vec![false, false, false, true, true]);
    assert_eq!(find_reached(3, &vec![], &vec![]), vec![false, false, false]);
}

#[test]
fn the_entry_dominates_and_loops_are_found() {
    let ssa = loop_counter_fixture();
    let dominators = compute_dominators(&ssa);
    for b in 0..3 {
        assert!(dominators.check(&ssa, 0, b));
        assert!(dominators.check(&ssa, b, b));
    }
    assert!(!dominators.check(&ssa, 2, 1));
    let loops = analyze_loops(&ssa);
    assert_eq!(loops.len(), 1);
    assert_eq!(loops[0].header, 1);
}

#[test]
fn what_is_returned_is_live() {
    let ssa = scalar_rewrite_fixture();
    let live = compute_live_variables(&ssa, &ssa.find_reachable_blocks());
    assert!(live[9]);
    assert!(live[8]);
    assert!(live[11]);
    assert!(!live[10]);
    assert!(!live[4]);
}

#[test]
fn repairing_twice_is_repairing_once() {
    let mut ssa = const_i32_return(3);
    ssa.set_op(0, 0, SsaOp::Nop);
    ssa.repair_ssa();
    assert_eq!(ssa.block(0).map(|b| b.instructions().len()), Some(1));
    ssa.repair_ssa();
    assert_eq!(ssa.block(0).map(|b| b.instructions().len()), Some(1));
}

#[test]
fn a_refused_batch_leaves_nothing_behind() {
    let mut ssa = const_i32_return(3);
    let before = ssa.duplicate();
    ssa.set_op(0, 0, SsaOp::Jump { target: 99 });
    assert!(!ssa.commit(before));
    assert!(matches!(mock_op_at(&ssa, 0, 0), SsaOp::Const { .. }));
    let before = ssa.duplicate();
    ssa.set_op(0, 0, SsaOp::Const { dest: SsaVarId(0), value: ConstValue::I32(4) });
    assert!(ssa.commit(before));
    assert!(matches!(
        mock_op_at(&ssa, 0, 0),
        SsaOp::Const { value: ConstValue::I32(4), .. }
    ));
}

#[test]
fn chains_end_where_nothing_follows() {
    let map = BTreeMap::from([(1, 2), (2, 3), (7, 7)]);
    let end = resolve_chain(&map, 1);
    assert_eq!(end, 3);
    assert!(!map.contains_key(&end));
    assert_eq!(resolve_chain(&map, 7), 7);
}

#[test]
fn powers_of_two_are_recognized() {
    assert_eq!(is_power_of_two(1), Some(0));
    assert_eq!(is_power_of_two(8), Some(3));
    assert_eq!(is_power_of_two(1 << 62), Some(62));
    assert_eq!(is_power_of_two(0), None);
    assert_eq!(is_power_of_two(6), None);
    assert_eq!(is_power_of_two(-8), None);
    assert_eq!(is_power_of_two(i64::MIN), None);
}

#[test]
fn ranges_hold_what_is_computed() {
    let a = ValueRange::bounded(-3, 5);
    let b = ValueRange::bounded(10, 20);
    assert_eq!(a.add(&b), ValueRange::bounded(7, 25));
    assert_eq!(a.sub(&b), ValueRange::bounded(-23, -5));
    assert_eq!(a.mul(&b), ValueRange::bounded(-60, 100));
    assert_eq!(a.join(&b), ValueRange::bounded(-3, 20));
    assert_eq!(ValueRange::constant(4).as_constant(), Some(4));
    assert!(ValueRange::top().join(&a).is_top());
    assert_eq!(ValueRange::bottom().join(&a), a);
}

#[test]
fn keys_tell_computations_apart() {
    let (x, y, d) = (SsaVarId(3), SsaVarId(5), SsaVarId(9));
    let key = |op: SsaOp<MockTarget>| ValueKey::from_op(&op).map(|(key, _)| key);
    let left = key(SsaOp::Mul { dest: d, left: x, right: y, flags: None });
    let right = key(SsaOp::Mul { dest: d, left: y, right: x, flags: None });
    assert_eq!(left, right);
    let signed = key(SsaOp::Div { dest: d, left: x, right: y, unsigned: false, flags: None });
    let unsigned = key(SsaOp::Div { dest: d, left: x, right: y, unsigned: true, flags: None });
    assert_ne!(signed, unsigned);
    assert_eq!(key(SsaOp::Pop { value: x }), None);
}

#[test]
fn negation_takes_itself_back() {
    for result in [
        PredicateResult::AlwaysTrue,
        PredicateResult::AlwaysFalse,
        PredicateResult::Unknown,
    ] {
        assert_eq!(result.negate().negate(), result);
    }
}

#[test]
fn an_even_product_is_an_opaque_predicate() {
    // x * (x + 1) % 2 == 0
    let mut ssa = SsaFunction::new(1, 8);
    let x = ssa.create_variable(
        VariableOrigin::Argument(0),
        0,
        DefSite::instruction(0, 0),
        MockType::I32,
    );
    let one = local(&mut ssa, 0, 0, 1);
    let next = local(&mut ssa, 1, 0, 2);
    let product = local(&mut ssa, 2, 0, 3);
    let two = local(&mut ssa, 3, 0, 4);
    let rest = local(&mut ssa, 4, 0, 5);
    let zero = local(&mut ssa, 5, 0, 6);
    let even = local(&mut ssa, 6, 0, 7);
    let mut b0 = SsaBlock::new(0);
    push(&mut b0, SsaOp::LoadArg { dest: x, arg_index: 0 });
    push(&mut b0, SsaOp::Const { dest: one, value: ConstValue::I32(1) });
    push(&mut b0, SsaOp::Add { dest: next, left: x, right: one, flags: None });
    push(&mut b0, SsaOp::Mul { dest: product, left: x, right: next, flags: None });
    push(&mut b0, SsaOp::Const { dest: two, value: ConstValue::I32(2) });
    push(
        &mut b0,
        SsaOp::Rem { dest: rest, left: product, right: two, unsigned: false, flags: None },
    );
    push(&mut b0, SsaOp::Const { dest: zero, value: ConstValue::I32(0) });
    push(&mut b0, SsaOp::Ceq { dest: even, left: rest, right: zero });
    push(&mut b0, SsaOp::Branch { condition: even, true_target: 1, false_target: 2 });
    ssa.add_block(b0);
    for id in 1..3 {
        let mut block = SsaBlock::new(id);
        push(&mut block, SsaOp::Return { value: None });
        ssa.add_block(block);
    }
    ssa.recompute_uses();
    let mut log = EventLog::new();
    assert!(predicates::run(&mut ssa, &1, &mut log, PointerSize::Bit32));
    assert!(matches!(mock_terminator_at(&ssa, 0), SsaOp::Jump { target: 1 }));
    assert!(log.has(EventKind::OpaquePredicateRemoved));
    assert_eq!(log.events[0].message, "removed opaque predicate (always true)");
}

#[test]
fn a_difference_tested_for_zero_becomes_a_comparison() {
    let mut ssa = SsaFunction::new(2, 3);
    let x = local(&mut ssa, 0, 0, 0);
    let y = local(&mut ssa, 1, 0, 1);
    let d = local(&mut ssa, 2, 0, 2);
    let zero = local(&mut ssa, 3, 0, 3);
    let same = local(&mut ssa, 4, 0, 4);
    let mut b0 = SsaBlock::new(0);
    push(&mut b0, SsaOp::LoadArg { dest: x, arg_index: 0 });
    push(&mut b0, SsaOp::LoadArg { dest: y, arg_index: 1 });
    push(&mut b0, SsaOp::Sub { dest: d, left: x, right: y, flags: None });
    push(&mut b0, SsaOp::Const { dest: zero, value: ConstValue::I32(0) });
    push(&mut b0, SsaOp::Ceq { dest: same, left: d, right: zero });
    push(&mut b0, SsaOp::Return { value: Some(same) });
    ssa.add_block(b0);
    ssa.recompute_uses();
    let mut log = EventLog::new();
    assert!(predicates::run(&mut ssa, &1, &mut log, PointerSize::Bit64));
    match mock_op_at(&ssa, 0, 4) {
        SsaOp::Ceq { left, right, .. } => assert_eq!((*left, *right), (x, y)),
        _ => panic!("the comparison is still one"),
    }
    assert_eq!(log.events[0].message, "(x - y) == 0 simplified to x == y");
}

#[test]
fn canonicalization_settles_in_one_run() {
    let mut ssa = tangled_loop();
    let mut log = EventLog::new();
    assert!(loopcanon::run(&mut ssa, &1, &mut log));
    assert!(ssa.verify());
    assert!(!loopcanon::run(&mut ssa, &1, &mut log));
}

#[test]
fn dead_code_elimination_settles() {
    let mut ssa = scalar_rewrite_fixture();
    let mut log = EventLog::new();
    assert!(deadcode::run(&mut ssa, &1, &mut log, 50));
    assert!(!deadcode::run(&mut ssa, &1, &mut log, 50));
    assert_eq!(
        mock_op_count(&ssa, |op| matches!(
            op,
            SsaOp::Const { value: ConstValue::I32(99), .. }
        )),
        0
    );
}

#[test]
fn what_is_still_read_keeps_its_definition() {
    let mut ssa = SsaFunction::new(0, 4);
    let x = local(&mut ssa, 0, 0, 0);
    let y = local(&mut ssa, 1, 0, 1);
    let sum = local(&mut ssa, 2, 0, 2);
    let product = local(&mut ssa, 3, 0, 3);
    let mut b0 = SsaBlock::new(0);
    push(&mut b0, SsaOp::Const { dest: x, value: ConstValue::I32(3) });
    push(&mut b0, SsaOp::Const { dest: y, value: ConstValue::I32(4) });
    push(&mut b0, SsaOp::Add { dest: sum, left: x, right: y, flags: None });
    push(&mut b0, SsaOp::Mul { dest: product, left: x, right: y, flags: None });
    push(&mut b0, SsaOp::Return { value: Some(sum) });
    ssa.add_block(b0);
    ssa.recompute_uses();
    let mut log = EventLog::new();
    assert!(deadcode::run(&mut ssa, &1, &mut log, 50));
    assert_eq!(mock_op_count(&ssa, |op| matches!(op, SsaOp::Const { .. })), 2);
    assert_eq!(mock_op_count(&ssa, |op| matches!(op, SsaOp::Add { .. })), 1);
    assert_eq!(mock_op_count(&ssa, |op| matches!(op, SsaOp::Mul { .. })), 0);
    assert!(matches!(mock_terminator_at(&ssa, 0), SsaOp::Return { value: Some(v) } if *v == sum));
}

#[test]
fn effects_on_memory_are_kept() {
    let mut ssa = memory_effect_fixture();
    assert_eq!(ssa.variables()[0].var_type, MockType::Ref);
    assert_eq!(ssa.variables()[1].var_type, MockType::Ptr);
    assert_eq!(ssa.variables()[4].var_type, MockType::I32);
    let mut log = EventLog::new();
    assert!(!deadcode::run(&mut ssa, &1, &mut log, 50));
    assert!(matches!(
        mock_op_at(&ssa, 0, 1),
        SsaOp::Const { dest: SsaVarId(1), value: ConstValue::NativeUInt(0x1000) }
    ));
    assert!(matches!(
        mock_op_at(&ssa, 0, 3),
        SsaOp::StoreField { object: SsaVarId(0), field: 1, value: SsaVarId(2) }
    ));
    assert!(matches!(
        mock_op_at(&ssa, 0, 5),
        SsaOp::StoreIndirect { addr: SsaVarId(1), value: SsaVarId(3), value_type: MockType::I32 }
    ));
    assert!(matches!(
        mock_op_at(&ssa, 0, 6),
        SsaOp::AtomicExchange {
            dest: SsaVarId(4),
            addr: SsaVarId(1),
            value: SsaVarId(2),
            ordering: AtomicOrdering::AcqRel,
            width: AtomicAccessWidth::Bits32,
            volatile: true,
        }
    ));
    assert!(matches!(mock_op_at(&ssa, 0, 7), SsaOp::Fence { kind: FenceKind::Acquire }));
}

#[test]
fn marking_dead_methods_twice_marks_nothing_new() {
    let mut world = MockWorld::new(vec![1, 2, 3], vec![1], vec![(1, 2)]);
    let mut log: EventLog<MockTarget> = EventLog::new();
    assert!(deadcode::run_global(&mut world, &mut log));
    assert!(!deadcode::run_global(&mut world, &mut log));
    assert_eq!(world.dead_set(), vec![3]);
    assert_eq!(log.len(), 1);
    assert_eq!(log.events[0].message, "method has no live callers");
}

#[test]
fn passes_keep_functions_well_formed() {
    for index in 0..4 {
        let mut ssa = match index {
            0 => scalar_rewrite_fixture(),
            1 => diamond_phi_fixture(),
            2 => loop_counter_fixture(),
            _ => tangled_loop(),
        };
        let mut log = EventLog::new();
        gvn::run(&mut ssa, &1, &mut log);
        assert!(ssa.verify());
        copying::run(&mut ssa, &1, &mut log, 10);
        assert!(ssa.verify());
        licm::run(&mut ssa, &1, &mut log);
        assert!(ssa.verify());
        blockmerge::run(&mut ssa, &1, &mut log, 10);
        assert!(ssa.verify());
        ranges::run(&mut ssa, &1, &mut log, 20);
        assert!(ssa.verify());
        reassociate::run(&mut ssa, &1, &mut log, PointerSize::Bit64);
        assert!(ssa.verify());
        strength::run(&mut ssa, &1, &mut log, &|_| false);
        assert!(ssa.verify());
    }
}

#[test]
fn a_phi_that_reads_a_constant_is_replaced() {
    let mut ssa = SsaFunction::new(0, 3);
    let a = local(&mut ssa, 0, 0, 0);
    let merged =
        ssa.create_variable(VariableOrigin::Local(1), 0, DefSite::phi(1), MockType::I32);
    let mut b0 = SsaBlock::new(0);
    push(&mut b0, SsaOp::Const { dest: a, value: ConstValue::I32(5) });
    push(&mut b0, SsaOp::Jump { target: 1 });
    ssa.add_block(b0);
    let mut b1 = SsaBlock::new(1);
    let mut phi = PhiNode::new(merged, VariableOrigin::Local(1));
    phi.add_operand(PhiOperand::new(a, 0));
    b1.add_phi(phi);
    push(&mut b1, SsaOp::Return { value: Some(merged) });
    ssa.add_block(b1);
    ssa.recompute_uses();
    let mut log = EventLog::new();
    assert!(deadcode::run(&mut ssa, &1, &mut log, 10));
    assert!(ssa.block(1).expect("the merge block").phi_nodes().is_empty());
    assert!(ssa.verify());
}
