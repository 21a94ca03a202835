//! Small programs, each with what is to become of it.
use analyssa::analysis::soundness::VerifyLevel;
use analyssa::events::EventLog;
use analyssa::ir::block::{SsaBlock, SsaInstruction};
use analyssa::ir::function::SsaFunction;
use analyssa::ir::ops::SsaOp;
use analyssa::ir::phi::{PhiNode, PhiOperand};
use analyssa::ir::value::ConstValue;
use analyssa::ir::variable::{DefSite, SsaVarId, VariableOrigin};
use analyssa::passes::predicates::{DefinitionCache, OpaquePredicatePass, PredicateResult};
use analyssa::passes::{gvn, loopcanon, predicates, ranges, strength};
use analyssa::pointer::PointerSize;
use analyssa::target::endian::order_of;
use analyssa::target::{Endianness, VectorLaneKind, VectorShape};
use analyssa::testing::{
    diamond_phi_fixture, loop_counter_fixture, mock_op_at, mock_op_count, mock_terminator_at, MockTarget,
    MockType,
};

fn local(ssa: &mut SsaFunction<MockTarget>, instr: usize) -> SsaVarId {
    ssa.create_variable(
        VariableOrigin::Local(instr as u16),
        0,
        DefSite::instruction(0, instr),
        MockType::I32,
    )
}

/// A function of one block; the operations are made from its variables.
fn one_block(
    n: usize,
    ops: fn(&[SsaVarId]) -> Vec<SsaOp<MockTarget>>,
) -> (SsaFunction<MockTarget>, Vec<SsaVarId>) {
    let mut ssa = SsaFunction::new(1, n);
    let vars: Vec<SsaVarId> = (0..n).map(|i| local(&mut ssa, i)).collect();
    let mut block = SsaBlock::new(0);
    for op in ops(&vars) {
        block.add_instruction(SsaInstruction::synthetic(op));
    }
    ssa.add_block(block);
    ssa.recompute_uses();
    (ssa, vars)
}

fn constant(dest: SsaVarId, n: i32) -> SsaOp<MockTarget> {
    SsaOp::Const { dest, value: ConstValue::I32(n) }
}

#[test]
fn lanes_fill_a_vector_exactly() {
    assert!(VectorShape::new(65536, VectorLaneKind::Integer, 65537, u32::MAX).is_none());
    let shape = VectorShape::new(4, VectorLaneKind::Integer, 32, 128).expect("a vector shape");
    assert!(shape.is_valid());
    assert!(VectorShape::new(4, VectorLaneKind::Integer, 32, 127).is_none());
    let forged = VectorShape {
        lane_count: 65536,
        lane_kind: VectorLaneKind::Integer,
        lane_bits: 65537,
        total_bits: u32::MAX,
    };
    assert!(!forged.is_valid());
}

#[test]
fn the_probe_tells_the_byte_order() {
    assert_eq!(order_of([1, 0]), Endianness::Little);
    assert_eq!(order_of([0, 1]), Endianness::Big);
}

#[test]
fn conversion_follows_the_machine() {
    let native = u32::from_ne_bytes([1, 2, 3, 4]);
    assert_eq!(Endianness::Little.to_native_u32(u32::from_le(native)), native);
    assert_eq!(Endianness::Big.to_native_u32(0x0102_0304).to_ne_bytes(), [1, 2, 3, 4].map(|b| b));
    for order in [Endianness::Little, Endianness::Big] {
        let bytes = order.from_native_u32(0x0102_0304).to_ne_bytes();
        assert_eq!(bytes, order.bytes_of_u32(0x0102_0304));
        assert_eq!(order.to_native_u32(order.from_native_u32(7)), 7);
        assert_eq!(order.from_native_u32(order.to_native_u32(7)), 7);
    }
    assert_eq!(
        Endianness::Big.to_native_u32(0x0102_0304),
        Endianness::Little.to_native_u32(0x0102_0304).swap_bytes()
    );
}

#[test]
fn reads_take_the_first_bytes() {
    let bytes = [1, 2, 3, 4, 5, 6, 7, 8, 9];
    assert_eq!(Endianness::Little.read_u16(&bytes), 0x0201);
    assert_eq!(Endianness::Big.read_u32(&bytes), 0x0102_0304);
    assert_eq!(Endianness::Big.read_u64(&bytes), 0x0102_0304_0506_0708);
}

#[test]
fn an_even_remainder_is_zero_on_either_side() {
    let (ssa, v) = one_block(8, |v| {
        vec![
            SsaOp::LoadArg { dest: v[0], arg_index: 0 },
            constant(v[1], 1),
            constant(v[2], 2),
            constant(v[3], 0),
            SsaOp::Add { dest: v[4], left: v[0], right: v[1], flags: None },
            SsaOp::Mul { dest: v[5], left: v[0], right: v[4], flags: None },
            SsaOp::Rem { dest: v[6], left: v[5], right: v[2], unsigned: false, flags: None },
            SsaOp::Ceq { dest: v[7], left: v[3], right: v[6] },
            SsaOp::Return { value: Some(v[7]) },
        ]
    });
    let cache = DefinitionCache::build(&ssa);
    let zero_first = OpaquePredicatePass::<MockTarget>::analyze_equality(v[3], v[6], &cache, 0);
    assert_eq!(zero_first, PredicateResult::AlwaysTrue);
    let zero_last = OpaquePredicatePass::<MockTarget>::analyze_equality(v[6], v[3], &cache, 0);
    assert_eq!(zero_last, PredicateResult::AlwaysTrue);
}

#[test]
fn a_number_times_the_one_before_it_is_even() {
    let (ssa, v) = one_block(9, |v| {
        vec![
            SsaOp::LoadArg { dest: v[0], arg_index: 0 },
            constant(v[1], 1),
            constant(v[2], 2),
            constant(v[3], 0),
            SsaOp::Sub { dest: v[4], left: v[0], right: v[1], flags: None },
            SsaOp::Mul { dest: v[5], left: v[0], right: v[4], flags: None },
            SsaOp::Mul { dest: v[6], left: v[4], right: v[0], flags: None },
            SsaOp::Rem { dest: v[7], left: v[5], right: v[2], unsigned: false, flags: None },
            SsaOp::Rem { dest: v[8], left: v[6], right: v[2], unsigned: true, flags: None },
            SsaOp::Return { value: Some(v[8]) },
        ]
    });
    let cache = DefinitionCache::build(&ssa);
    for r in [v[7], v[8]] {
        let known = OpaquePredicatePass::<MockTarget>::analyze_equality(r, v[3], &cache, 0);
        assert_eq!(known, PredicateResult::AlwaysTrue);
    }
}

#[test]
fn zero_remainders_and_checked_squares_are_known() {
    let (ssa, v) = one_block(6, |v| {
        vec![
            SsaOp::LoadArg { dest: v[0], arg_index: 0 },
            constant(v[1], 1),
            constant(v[2], 0),
            constant(v[3], -1),
            SsaOp::Rem { dest: v[4], left: v[0], right: v[1], unsigned: false, flags: None },
            SsaOp::MulOvf { dest: v[5], left: v[0], right: v[0], unsigned: false, flags: None },
            SsaOp::Return { value: Some(v[5]) },
        ]
    });
    let cache = DefinitionCache::build(&ssa);
    let zero = OpaquePredicatePass::<MockTarget>::analyze_equality(v[4], v[2], &cache, 0);
    assert_eq!(zero, PredicateResult::AlwaysTrue);
    let below = OpaquePredicatePass::<MockTarget>::analyze_less_than(v[5], v[2], false, &cache);
    assert_eq!(below, PredicateResult::AlwaysFalse);
    let above = OpaquePredicatePass::<MockTarget>::analyze_greater_than(v[5], v[3], false, &cache);
    assert_eq!(above, PredicateResult::AlwaysTrue);
}

#[test]
fn a_length_is_not_above_an_unsigned_negative() {
    let (ssa, v) = one_block(3, |v| {
        vec![
            SsaOp::LoadArg { dest: v[0], arg_index: 0 },
            SsaOp::ArrayLength { dest: v[1], array: v[0] },
            constant(v[2], -1),
            SsaOp::Return { value: Some(v[1]) },
        ]
    });
    let cache = DefinitionCache::build(&ssa);
    let unsigned = OpaquePredicatePass::<MockTarget>::analyze_less_than(v[1], v[2], true, &cache);
    assert_eq!(unsigned, PredicateResult::Unknown);
    let signed = OpaquePredicatePass::<MockTarget>::analyze_less_than(v[1], v[2], false, &cache);
    assert_eq!(signed, PredicateResult::AlwaysFalse);
}

#[test]
fn a_wide_remainder_keeps_its_whole_mask() {
    let (mut ssa, v) = one_block(3, |v| {
        vec![
            SsaOp::LoadArg { dest: v[0], arg_index: 0 },
            SsaOp::Const { dest: v[1], value: ConstValue::I64(1_099_511_627_776) },
            SsaOp::Rem { dest: v[2], left: v[0], right: v[1], unsigned: true, flags: None },
            SsaOp::Return { value: Some(v[2]) },
        ]
    });
    let mut log = EventLog::new();
    assert!(strength::run(&mut ssa, &0u32, &mut log, &|_| false));
    assert!(matches!(
        mock_op_at(&ssa, 0, 1),
        SsaOp::Const { value: ConstValue::I64(1_099_511_627_775), .. }
    ));
    assert!(matches!(
        mock_op_at(&ssa, 0, 2),
        SsaOp::And { left, right, .. } if *left == v[0] && *right == v[1]
    ));
}

#[test]
fn a_redundant_computation_that_nothing_reads_is_eliminated() {
    let (mut ssa, v) = one_block(4, |v| {
        vec![
            constant(v[0], 1),
            constant(v[1], 2),
            SsaOp::Add { dest: v[2], left: v[0], right: v[1], flags: None },
            SsaOp::Add { dest: v[3], left: v[0], right: v[1], flags: None },
            SsaOp::Return { value: Some(v[2]) },
        ]
    });
    let mut log = EventLog::new();
    assert!(gvn::run(&mut ssa, &0u32, &mut log));
    assert_eq!(log.len(), 1);
    assert_eq!(mock_op_count(&ssa, |op| matches!(op, SsaOp::Add { .. })), 1);
    assert!(matches!(mock_terminator_at(&ssa, 0), SsaOp::Return { value: Some(x) } if *x == v[2]));
    assert!(!gvn::run(&mut ssa, &0u32, &mut log));
}

#[test]
fn an_unsigned_comparison_is_not_settled_by_signed_ranges() {
    let (mut ssa, _) = one_block(3, |v| {
        vec![
            constant(v[0], -1),
            constant(v[1], 0),
            SsaOp::Clt { dest: v[2], left: v[0], right: v[1], unsigned: true },
            SsaOp::Return { value: Some(v[2]) },
        ]
    });
    let mut log = EventLog::new();
    assert!(!ranges::run(&mut ssa, &0u32, &mut log, 100));
    assert_eq!(mock_op_count(&ssa, |op| matches!(op, SsaOp::Clt { .. })), 1);
}

#[test]
fn a_conjunction_with_all_ones_is_not_zero() {
    let (ssa, v) = one_block(3, |v| {
        vec![
            SsaOp::LoadArg { dest: v[0], arg_index: 0 },
            constant(v[1], -1),
            SsaOp::And { dest: v[2], left: v[0], right: v[1], flags: None },
            SsaOp::Return { value: Some(v[2]) },
        ]
    });
    let found = ranges::analyze(&ssa, 100);
    assert!(found.get_range(v[2]).expect("a range").is_top());
}

#[test]
fn both_ways_of_an_unknown_branch_count() {
    let mut ssa = SsaFunction::new(1, 4);
    let x = local(&mut ssa, 0);
    let a = local(&mut ssa, 1);
    let b = local(&mut ssa, 2);
    let r = ssa.create_variable(VariableOrigin::Local(3), 0, DefSite::phi(3), MockType::I32);
    let bodies: Vec<Vec<SsaOp<MockTarget>>> = vec![
        vec![
            SsaOp::LoadArg { dest: x, arg_index: 0 },
            SsaOp::Jump { target: 4 },
        ],
        vec![constant(a, 1), SsaOp::Jump { target: 3 }],
        vec![constant(b, 9), SsaOp::Jump { target: 3 }],
        vec![SsaOp::Return { value: Some(r) }],
        vec![SsaOp::Branch { condition: x, true_target: 1, false_target: 2 }],
    ];
    for (id, ops) in bodies.into_iter().enumerate() {
        let mut block = SsaBlock::new(id);
        if id == 3 {
            let mut phi = PhiNode::new(r, VariableOrigin::Local(3));
            phi.add_operand(PhiOperand::new(a, 1));
            phi.add_operand(PhiOperand::new(b, 2));
            block.add_phi(phi);
        }
        for op in ops {
            block.add_instruction(SsaInstruction::synthetic(op));
        }
        ssa.add_block(block);
    }
    ssa.recompute_uses();
    let found = ranges::analyze(&ssa, 100).get_range(r).expect("a range");
    assert_eq!((found.min(), found.max()), (Some(1), Some(9)));
}

#[test]
fn each_header_phi_gets_its_own_merge() {
    let mut ssa = SsaFunction::new(0, 0);
    let temp = |ssa: &mut SsaFunction<MockTarget>, site: DefSite| {
        ssa.create_variable(VariableOrigin::Temp, 0, site, MockType::I32)
    };
    let c = temp(&mut ssa, DefSite::instruction(0, 0));
    let a1 = temp(&mut ssa, DefSite::instruction(1, 0));
    let b1 = temp(&mut ssa, DefSite::instruction(1, 1));
    let a2 = temp(&mut ssa, DefSite::instruction(2, 0));
    let b2 = temp(&mut ssa, DefSite::instruction(2, 1));
    let p = temp(&mut ssa, DefSite::phi(3));
    let q = temp(&mut ssa, DefSite::phi(3));
    let bodies: Vec<Vec<SsaOp<MockTarget>>> = vec![
        vec![
            constant(c, 1),
            SsaOp::Branch { condition: c, true_target: 1, false_target: 2 },
        ],
        vec![constant(a1, 1), constant(b1, 2), SsaOp::Jump { target: 3 }],
        vec![constant(a2, 3), constant(b2, 4), SsaOp::Jump { target: 3 }],
        vec![SsaOp::Branch { condition: p, true_target: 3, false_target: 4 }],
        vec![SsaOp::Return { value: Some(q) }],
    ];
    for (id, ops) in bodies.into_iter().enumerate() {
        let mut block = SsaBlock::new(id);
        if id == 3 {
            for (result, first, second) in [(p, a1, a2), (q, b1, b2)] {
                let mut phi = PhiNode::new(result, VariableOrigin::Temp);
                phi.add_operand(PhiOperand::new(first, 1));
                phi.add_operand(PhiOperand::new(second, 2));
                phi.add_operand(PhiOperand::new(result, 3));
                block.add_phi(phi);
            }
        }
        for op in ops {
            block.add_instruction(SsaInstruction::synthetic(op));
        }
        ssa.add_block(block);
    }
    ssa.recompute_uses();
    let mut log = EventLog::new();
    assert!(loopcanon::run(&mut ssa, &0u32, &mut log));
    let header = ssa.block(3).expect("the header").phi_nodes();
    let from_preheader: Vec<SsaVarId> = header
        .iter()
        .map(|phi| {
            let from: Vec<&PhiOperand> =
                phi.operands().iter().filter(|o| o.predecessor() == 5).collect();
            assert_eq!(from.len(), 1);
            from[0].value()
        })
        .collect();
    assert_ne!(from_preheader[0], from_preheader[1]);
    let merged = ssa.block(5).expect("the preheader").phi_nodes();
    assert_eq!(merged[0].result(), from_preheader[0]);
    assert_eq!(merged[0].operands()[0].value(), a1);
    assert_eq!(merged[1].result(), from_preheader[1]);
    assert_eq!(merged[1].operands()[0].value(), b1);
}

/// Compares the argument with `first` and, where that holds, with `second`, both as signed numbers.
fn nested_tests(
    outer: fn(SsaVarId, SsaVarId, SsaVarId) -> SsaOp<MockTarget>,
    first: i32,
    inner: fn(SsaVarId, SsaVarId, SsaVarId) -> SsaOp<MockTarget>,
    second: i32,
    on_true: bool,
) -> SsaFunction<MockTarget> {
    let mut ssa = SsaFunction::new(1, 5);
    let v: Vec<SsaVarId> = (0..5).map(|i| local(&mut ssa, i)).collect();
    let (taken, left) = if on_true { (1, 3) } else { (3, 1) };
    let blocks = vec![
        vec![
            SsaOp::LoadArg { dest: v[0], arg_index: 0 },
            constant(v[1], first),
            outer(v[2], v[0], v[1]),
            SsaOp::Branch { condition: v[2], true_target: taken, false_target: left },
        ],
        vec![
            constant(v[3], second),
            inner(v[4], v[0], v[3]),
            SsaOp::Branch { condition: v[4], true_target: 2, false_target: 3 },
        ],
        vec![SsaOp::Return { value: Some(v[0]) }],
        vec![SsaOp::Return { value: None }],
    ];
    for (id, ops) in blocks.into_iter().enumerate() {
        let mut block = SsaBlock::new(id);
        for op in ops {
            block.add_instruction(SsaInstruction::synthetic(op));
        }
        ssa.add_block(block);
    }
    ssa.recompute_uses();
    ssa
}

fn above(dest: SsaVarId, left: SsaVarId, right: SsaVarId) -> SsaOp<MockTarget> {
    SsaOp::Cgt { dest, left, right, unsigned: false }
}

fn below(dest: SsaVarId, left: SsaVarId, right: SsaVarId) -> SsaOp<MockTarget> {
    SsaOp::Clt { dest, left, right, unsigned: false }
}

fn equal(dest: SsaVarId, left: SsaVarId, right: SsaVarId) -> SsaOp<MockTarget> {
    SsaOp::Ceq { dest, left, right }
}

fn inner_target(mut ssa: SsaFunction<MockTarget>) -> Option<usize> {
    let mut log: EventLog<MockTarget> = EventLog::new();
    let changed = predicates::run(&mut ssa, &1u32, &mut log, PointerSize::Bit64);
    let target = match mock_terminator_at(&ssa, 1) {
        SsaOp::Jump { target } => Some(*target),
        _ => None,
    };
    assert_eq!(changed, target.is_some());
    assert_eq!(log.is_empty(), target.is_none());
    target
}

#[test]
fn an_outer_condition_decides_an_inner_one() {
    assert_eq!(inner_target(nested_tests(above, 5, below, 3, true)), Some(3));
    assert_eq!(inner_target(nested_tests(above, 5, above, 3, true)), Some(2));
    assert_eq!(inner_target(nested_tests(equal, 5, above, 3, true)), Some(2));
    assert_eq!(inner_target(nested_tests(above, 5, below, 6, false)), Some(2));
    assert_eq!(inner_target(nested_tests(above, 5, equal, 9, false)), Some(3));
}

#[test]
fn an_outer_condition_may_leave_an_inner_one_open() {
    assert_eq!(inner_target(nested_tests(above, 5, below, 9, true)), None);
    assert_eq!(inner_target(nested_tests(above, 5, above, 3, false)), None);
    assert_eq!(inner_target(nested_tests(equal, 5, above, 3, false)), None);
}

fn levels(ssa: &SsaFunction<MockTarget>) -> (bool, bool, bool) {
    (
        ssa.verify_at(VerifyLevel::Quick),
        ssa.verify_at(VerifyLevel::Standard),
        ssa.verify_at(VerifyLevel::Full),
    )
}

#[test]
fn verification_has_levels() {
    assert_eq!(levels(&diamond_phi_fixture()), (true, true, true));
    assert_eq!(levels(&loop_counter_fixture()), (true, true, true));
    let (foreign, _) = one_block(1, |_| {
        vec![SsaOp::Return { value: Some(SsaVarId::from_index(9)) }]
    });
    assert_eq!(levels(&foreign), (false, false, false));
    let (twice, _) = one_block(1, |v| {
        vec![constant(v[0], 1), constant(v[0], 2), SsaOp::Return { value: None }]
    });
    assert_eq!(levels(&twice), (true, false, false));
    let (open, _) = one_block(1, |v| vec![constant(v[0], 1)]);
    assert_eq!(levels(&open), (true, true, true));
    let (late, _) = one_block(2, |v| {
        vec![
            SsaOp::Copy { dest: v[1], src: v[0] },
            constant(v[0], 1),
            SsaOp::Return { value: Some(v[1]) },
        ]
    });
    assert_eq!(levels(&late), (true, true, false));
}

#[test]
fn phi_nodes_match_the_ways_in() {
    let mut short = diamond_phi_fixture();
    let join = short.blocks.iter().position(|b| !b.phis.is_empty()).expect("a join");
    short.blocks[join].phis[0].operands.pop();
    assert_eq!(levels(&short), (true, true, false));
    let mut stray = diamond_phi_fixture();
    stray.blocks[join].phis[0].operands[0].predecessor = join;
    assert_eq!(levels(&stray), (true, true, false));
}

#[test]
fn settled_ranges_hold_of_the_values() {
    let (ssa, v) = one_block(5, |v| {
        vec![
            SsaOp::LoadArg { dest: v[0], arg_index: 0 },
            constant(v[1], 7),
            SsaOp::And { dest: v[2], left: v[0], right: v[1], flags: None },
            SsaOp::Add { dest: v[3], left: v[2], right: v[1], flags: None },
            SsaOp::Clt { dest: v[4], left: v[3], right: v[1], unsigned: false },
            SsaOp::Return { value: Some(v[4]) },
        ]
    });
    let found = ranges::analyze(&ssa, 100);
    let bounds = |v: SsaVarId| {
        let range = found.get_range(v).expect("a range");
        (range.min(), range.max())
    };
    assert_eq!(bounds(v[2]), (Some(0), Some(7)));
    assert_eq!(bounds(v[3]), (Some(7), Some(14)));
    for argument in [0i64, 5, -1, i64::MAX] {
        let low = argument & 7;
        assert!((0..=7).contains(&low) && (7..=14).contains(&(low + 7)));
    }
}
