//! Branches that are decided go where they went, and what is folded computes the same.
use crate::analysis::evaluator;
use crate::analysis::knowledge;
use crate::analysis::meaning;
use crate::analysis::steps;
use crate::ir::function::SsaView;
use crate::ir::ops::{Op, OpView};
use crate::ir::phi::PhiView;
use crate::ir::value::ConstValue;
use crate::ir::variable::SsaVarId;
use crate::passes::correlation;
use crate::passes::predicates;
use crate::passes::ranges;
use crate::passes::ranges::RangeView;
use crate::pointer;
use crate::pointer::PointerSize;
use crate::target::Target;
use vstd::prelude::*;

verus! {

/// What is known of a branch on a variable holds of its value, for all values that the variables can
/// have.
pub proof fn known_branches_hold<T: Target>(
    ssa: SsaView<T>,
    v: SsaVarId,
    fuel: nat,
    env: spec_fn(SsaVarId) -> u64,
    args: spec_fn(usize) -> u64,
)
    requires
        ssa.admits(env, args),
        ssa.branch_on(v, fuel).truth() is Some,
    ensures
        ssa.branch_on(v, fuel).truth() == Some(env(v) != 0),
    decreases fuel,
{
    assert(ssa.allows(env, args, v));
    let op = ssa.def_op(v).unwrap();
    if ssa.predicate(op, 0).truth() is Some {
        predicates::known_predicates_hold(ssa, op, 0, env, args);
    } else {
        match op {
            Op::Copy { src, .. } => {
                known_branches_hold(ssa, src, (fuel - 1) as nat, env, args);
            },
            Op::Xor { left, right, .. }
            | Op::Sub { left, right, .. }
            | Op::And { left, right, .. }
            | Op::Mul { left, right, .. }
            | Op::Or { left, right, .. } => {
                predicates::lemma_number(ssa, env, args, left);
                predicates::lemma_number(ssa, env, args, right);
                let (a, b) = (env(left), env(right));
                let m = pointer::modulus(64);
                assert(a ^ a == 0 && a & 0 == 0 && 0 & b == 0 && a | u64::MAX == u64::MAX && u64::MAX
                    | b == u64::MAX) by (bit_vector);
                knowledge::lemma_signed_register(0);
                assert(meaning::register(-1) == u64::MAX) by {
                    vstd::arithmetic::div_mod::lemma_mod_add_multiples_vanish(-1, m);
                    vstd::arithmetic::div_mod::lemma_small_mod(u64::MAX as nat, m as nat);
                }
                assert(a * 0 == 0 && 0 * b == 0) by (nonlinear_arith);
                assert(meaning::register(a - a) == 0);
            },
            Op::Const { value, .. } => {
                if let Some(n) = value.number() {
                    if i64::MIN <= n <= i64::MAX {
                        knowledge::lemma_signed_register(n);
                    } else {
                        vstd::arithmetic::div_mod::lemma_small_mod(
                            n as nat,
                            pointer::modulus(64) as nat,
                        );
                    }
                }
            },
            _ => {},
        }
    }
}

/// Every instruction has assigned to its result what it computes.
pub open spec fn fits_instructions<T: Target>(
    ssa: SsaView<T>,
    env: spec_fn(SsaVarId) -> u64,
    args: spec_fn(usize) -> u64,
) -> bool {
    forall|b: int, i: int| #[trigger]
        ssa.has_instr(b, i) ==> fits_instruction(ssa.blocks[b].instrs[i], env, args)
}

/// The instruction has assigned to its result what it computes.
pub open spec fn fits_instruction<T: Target>(
    op: OpView<T>,
    env: spec_fn(SsaVarId) -> u64,
    args: spec_fn(usize) -> u64,
) -> bool {
    op.result() matches Some(dest) ==> (meaning::result(op, env, args) matches Some(x) ==> env(
        dest,
    ) == x)
}

/// What evaluation in order finds of each instruction stays within its type.
pub open spec fn evaluates_exactly<T: Target>(ssa: SsaView<T>, ptr_size: PointerSize) -> bool {
    forall|b: int, i: int| #[trigger]
        ssa.has_instr(b, i) ==> knowledge::is_exact(
            evaluator::after_ops(
                evaluator::after_blocks(
                    evaluator::blank(ssa.vars.len()),
                    ssa.blocks,
                    ptr_size,
                    b as nat,
                ),
                ssa.blocks[b].instrs,
                ptr_size,
                i as nat,
            ),
            ssa.blocks[b].instrs[i],
            ptr_size,
        )
}

proof fn lemma_block_known<T: Target>(
    ssa: SsaView<T>,
    ptr_size: PointerSize,
    env: spec_fn(SsaVarId) -> u64,
    args: spec_fn(usize) -> u64,
    b: int,
    n: nat,
)
    requires
        fits_instructions(ssa, env, args),
        evaluates_exactly(ssa, ptr_size),
        0 <= b < ssa.blocks.len(),
        n <= ssa.blocks[b].instrs.len(),
        knowledge::holds_known(
            env,
            evaluator::after_blocks(
                evaluator::blank(ssa.vars.len()),
                ssa.blocks,
                ptr_size,
                b as nat,
            ),
        ),
    ensures
        knowledge::holds_known(
            env,
            evaluator::after_ops(
                evaluator::after_blocks(
                    evaluator::blank(ssa.vars.len()),
                    ssa.blocks,
                    ptr_size,
                    b as nat,
                ),
                ssa.blocks[b].instrs,
                ptr_size,
                n,
            ),
        ),
    decreases n,
{
    if n > 0 {
        let m = (n - 1) as nat;
        lemma_block_known(ssa, ptr_size, env, args, b, m);
        let start = evaluator::after_blocks(
            evaluator::blank(ssa.vars.len()),
            ssa.blocks,
            ptr_size,
            b as nat,
        );
        let op = ssa.blocks[b].instrs[n - 1];
        let before = evaluator::after_ops(start, ssa.blocks[b].instrs, ptr_size, m);
        let next = evaluator::after_op(before, op, ptr_size);
        assert(ssa.has_instr(b, n - 1));
        assert(fits_instruction(op, env, args));
        assert forall|v: SsaVarId| #[trigger] knowledge::holds_known_of(env, next, v) by {
            assert(knowledge::holds_known_of(env, before, v));
            if op.result() == Some(v) && v.0 < before.len() {
                if let Some(c) = evaluator::value_of(before, op, ptr_size) {
                    if let Some(k) = c.number() {
                        knowledge::evaluated_constants_are_computed(
                            before,
                            op,
                            ptr_size,
                            k,
                            env,
                            args,
                        );
                    }
                }
            }
        }
    }
}

/// What evaluating the blocks in order finds is what the variables hold.
pub proof fn evaluated_blocks_are_held<T: Target>(
    ssa: SsaView<T>,
    ptr_size: PointerSize,
    env: spec_fn(SsaVarId) -> u64,
    args: spec_fn(usize) -> u64,
    n: nat,
)
    requires
        fits_instructions(ssa, env, args),
        evaluates_exactly(ssa, ptr_size),
        n <= ssa.blocks.len(),
    ensures
        knowledge::holds_known(
            env,
            evaluator::after_blocks(evaluator::blank(ssa.vars.len()), ssa.blocks, ptr_size, n),
        ),
    decreases n,
{
    if n == 0 {
        assert forall|v: SsaVarId| #[trigger]
            knowledge::holds_known_of(env, evaluator::blank(ssa.vars.len()), v) by {}
    } else {
        evaluated_blocks_are_held(ssa, ptr_size, env, args, (n - 1) as nat);
        lemma_block_known(ssa, ptr_size, env, args, n - 1, ssa.blocks[n - 1].instrs.len());
    }
}

/// A constant takes the place of a phi node only where it is what every operand that is defined is
/// defined as.
pub proof fn constant_phis_agree<T: Target>(ssa: SsaView<T>, phi: PhiView, i: int)
    requires
        ssa.phi_constant(phi) is Some,
        0 <= i < phi.operands.len(),
    ensures
        ({
            let c = ssa.phi_constant(phi).unwrap();
            match ssa.def_op(phi.operands[i].value) {
                Some(op) => op matches Op::Const { value, .. } && value == c,
                None => phi.operands[i].value == phi.operands[0].value,
            }
        }),
        exists|k: int|
            0 <= k < phi.operands.len() && ssa.def_op((#[trigger] phi.operands[k]).value) is Some,
{
    let c = ssa.phi_constant(phi).unwrap();
    assert(ssa.phi_agrees(phi, c));
    assert(ssa.operand_agrees(phi, phi.operands[i], c));
    let k = choose|k: int|
        0 <= k < phi.operands.len() && ssa.const_of((#[trigger] phi.operands[k]).value) == Some(c);
    assert(ssa.def_op(phi.operands[k].value) is Some);
}

proof fn lemma_phi_among<T: Target>(
    ssa: SsaView<T>,
    before: Map<usize, ConstValue>,
    phis: Seq<PhiView>,
    n: nat,
    r: usize,
)
    requires
        n <= phis.len(),
        ssa.phi_constants_among(before, phis, n).contains_key(r),
    ensures
        ({
            let c = ssa.phi_constants_among(before, phis, n)[r];
            (before.contains_key(r) && before[r] == c) || exists|p: int|
                0 <= p < n && (#[trigger] phis[p]).result.0 == r && ssa.phi_constant(phis[p])
                    == Some(c)
        }),
    decreases n,
{
    if n > 0 {
        let m = (n - 1) as nat;
        let c = ssa.phi_constants_among(before, phis, n)[r];
        match ssa.phi_constant(phis[n - 1]) {
            Some(d) => {
                if phis[n - 1].result.0 == r {
                    assert(ssa.phi_constant(phis[n - 1]) == Some(c));
                } else {
                    lemma_phi_among(ssa, before, phis, m, r);
                }
            },
            None => lemma_phi_among(ssa, before, phis, m, r),
        }
    }
}

/// A constant stands for a variable only where a phi node that assigns it has that constant.
pub proof fn constants_stand_for_phis<T: Target>(ssa: SsaView<T>, n: nat, r: usize) -> (at: (
    int,
    int,
))
    requires
        n <= ssa.blocks.len(),
        ssa.phi_constants(n).contains_key(r),
    ensures
        0 <= at.0 < n,
        0 <= at.1 < ssa.blocks[at.0].phis.len(),
        ssa.blocks[at.0].phis[at.1].result.0 == r,
        ssa.phi_constant(ssa.blocks[at.0].phis[at.1]) == Some(ssa.phi_constants(n)[r]),
    decreases n,
{
    let m = (n - 1) as nat;
    let phis = ssa.blocks[n - 1].phis;
    let before = ssa.phi_constants(m);
    let c = ssa.phi_constants(n)[r];
    lemma_phi_among(ssa, before, phis, phis.len(), r);
    if exists|p: int|
        0 <= p < phis.len() && (#[trigger] phis[p]).result.0 == r && ssa.phi_constant(phis[p])
            == Some(c) {
        let p = choose|p: int|
            0 <= p < phis.len() && (#[trigger] phis[p]).result.0 == r && ssa.phi_constant(phis[p])
                == Some(c);
        (n - 1, p)
    } else {
        constants_stand_for_phis(ssa, m, r)
    }
}

/// The values belong to a moment at which control is at the end of block `b`: instructions have
/// assigned what they compute, constants stand for the phi nodes that have them, and the branches
/// taken on the way had the truth values that led there.
pub open spec fn is_moment<T: Target>(
    ssa: SsaView<T>,
    b: usize,
    env: spec_fn(SsaVarId) -> u64,
    args: spec_fn(usize) -> u64,
) -> bool {
    &&& ssa.admits(env, args)
    &&& fits_instructions(ssa, env, args)
    &&& forall|r: usize| #[trigger]
        ssa.phi_constants(ssa.blocks.len()).contains_key(r) ==> holds_constant(
            ssa.phi_constants(ssa.blocks.len())[r],
            env(SsaVarId(r)),
        )
    &&& forall|d: usize|
        d < ssa.blocks.len() ==> ((#[trigger] ssa.taken(d, b)) matches Some(pair) ==> (env(pair.0)
            != 0) == pair.1)
}

/// A register holds a constant.
pub open spec fn holds_constant(c: ConstValue, x: u64) -> bool {
    match c.number() {
        Some(n) => x == meaning::register(n),
        None => x == 0,
    }
}

proof fn lemma_correlated<T: Target>(
    ssa: SsaView<T>,
    b: usize,
    v: SsaVarId,
    n: nat,
    env: spec_fn(SsaVarId) -> u64,
    args: spec_fn(usize) -> u64,
)
    requires
        n <= ssa.blocks.len() <= usize::MAX,
        is_moment(ssa, b, env, args),
        ssa.correlated(b, v, n) is Some,
    ensures
        ssa.correlated(b, v, n) == Some(env(v) != 0),
    decreases n,
{
    let m = (n - 1) as nat;
    if ssa.correlated(b, v, m) is Some {
        lemma_correlated(ssa, b, v, m, env, args);
    } else {
        let (outer, holds) = ssa.taken(m as usize, b).unwrap();
        assert((env(outer) != 0) == holds);
        correlation::correlated_conditions_hold(ssa, outer, v, env, args);
    }
}

proof fn lemma_truth(c: ConstValue, n: int)
    requires
        c.number() == Some(n),
    ensures
        meaning::register(n) == 0 <==> n == 0,
{
    if i64::MIN <= n <= i64::MAX {
        knowledge::lemma_signed_register(n);
    } else {
        vstd::arithmetic::div_mod::lemma_small_mod(n as nat, pointer::modulus(64) as nat);
    }
}

/// The constants that stand for a variable are null, or numbers that a signed register holds.
pub open spec fn has_plain_constants<T: Target>(
    ssa: SsaView<T>,
    ptr_size: PointerSize,
    v: SsaVarId,
) -> bool {
    let phis = ssa.phi_constants(ssa.blocks.len());
    &&& phis.contains_key(v.0) ==> phis[v.0] == ConstValue::Null || phis[v.0].signed() is Some
    &&& evaluator::known(
        evaluator::after_blocks(
            evaluator::blank(ssa.vars.len()),
            ssa.blocks,
            ptr_size,
            ssa.blocks.len(),
        ),
        v,
    ) != Some(ConstValue::Null)
}

/// A branch that is decided goes, at every moment at which control comes to it, where it was found
/// to go.
pub proof fn decided_branches_go_there<T: Target>(
    ssa: SsaView<T>,
    ptr_size: PointerSize,
    b: int,
    env: spec_fn(SsaVarId) -> u64,
    args: spec_fn(usize) -> u64,
)
    requires
        0 <= b < ssa.blocks.len() <= usize::MAX,
        is_moment(ssa, b as usize, env, args),
        evaluates_exactly(ssa, ptr_size),
        ssa.decided(ptr_size, b) is Some,
        ssa.blocks[b].terminator() matches Some(Op::Branch { condition, .. })
            ==> has_plain_constants(ssa, ptr_size, condition),
    ensures
        ssa.blocks[b].terminator() is Some,
        steps::next_block(ssa.blocks[b].terminator().unwrap(), env) == Some(
            ssa.decided(ptr_size, b).unwrap().0,
        ),
{
    match ssa.blocks[b].terminator() {
        Some(Op::Branch { condition: v, .. }) => {
            let phis = ssa.phi_constants(ssa.blocks.len());
            if phis.contains_key(v.0) {
                let c = phis[v.0];
                assert(holds_constant(c, env(SsaVarId(v.0))));
                assert(SsaVarId(v.0) == v);
                if let Some(n) = c.number() {
                    lemma_truth(c, n);
                }
            } else if ssa.branch(v).truth() is Some {
                known_branches_hold(ssa, v, ssa.vars.len(), env, args);
            } else {
                let known = evaluator::after_blocks(
                    evaluator::blank(ssa.vars.len()),
                    ssa.blocks,
                    ptr_size,
                    ssa.blocks.len(),
                );
                evaluated_blocks_are_held(ssa, ptr_size, env, args, ssa.blocks.len());
                assert(knowledge::holds_known_of(env, known, v));
                match evaluator::known(known, v) {
                    Some(c) => {
                        if let Some(n) = c.number() {
                            lemma_truth(c, n);
                        }
                    },
                    None => {
                        lemma_correlated(ssa, b as usize, v, ssa.blocks.len(), env, args);
                    },
                }
            }
        },
        _ => {},
    }
}

/// A function in which decided branches are jumps goes from every block where it went before.
pub proof fn deciding_keeps_the_way<T: Target>(
    ssa: SsaView<T>,
    ptr_size: PointerSize,
    b: int,
    env: spec_fn(SsaVarId) -> u64,
    args: spec_fn(usize) -> u64,
)
    requires
        0 <= b < ssa.blocks.len() <= usize::MAX,
        is_moment(ssa, b as usize, env, args),
        evaluates_exactly(ssa, ptr_size),
        ssa.blocks[b].terminator() matches Some(Op::Branch { condition, .. })
            ==> has_plain_constants(ssa, ptr_size, condition),
        ssa.blocks[b].terminator() is Some,
    ensures
        ({
            let next = ssa.with_branches_decided(ptr_size);
            &&& next.blocks.len() == ssa.blocks.len()
            &&& next.blocks[b].phis == ssa.blocks[b].phis
            &&& next.blocks[b].instrs.len() == ssa.blocks[b].instrs.len()
            &&& next.blocks[b].instrs.drop_last() == ssa.blocks[b].instrs.drop_last()
            &&& steps::next_block(next.blocks[b].instrs.last(), env) == steps::next_block(
                ssa.blocks[b].instrs.last(),
                env,
            )
        }),
{
    let next = ssa.with_branches_decided(ptr_size);
    assert(next.blocks[b] == ssa.decided_block(ptr_size, b));
    assert(next.blocks[b].instrs.drop_last() =~= ssa.blocks[b].instrs.drop_last());
    if ssa.decided(ptr_size, b) is Some {
        decided_branches_go_there(ssa, ptr_size, b, env, args);
    }
}

/// What takes the place of a comparison assigns the same variable and computes the same, except
/// where an ordered comparison of a difference with zero meets a difference that overflows.
pub proof fn rewritten_comparisons_compute_the_same<T: Target>(
    ssa: SsaView<T>,
    op: OpView<T>,
    env: spec_fn(SsaVarId) -> u64,
    args: spec_fn(usize) -> u64,
)
    requires
        ssa.admits(env, args),
        op matches Op::Clt { left, .. } ==> (ssa.def_op(left) matches Some(inner)
            ==> !predicates::overflows(inner, env)),
        op matches Op::Cgt { left, .. } ==> (ssa.def_op(left) matches Some(inner)
            ==> !predicates::overflows(inner, env)),
    ensures
        meaning::result(ssa.rewritten(op), env, args) == meaning::result(op, env, args),
        ssa.rewritten(op).result() == op.result(),
{
    knowledge::lemma_signed_register(0);
    vstd::arithmetic::div_mod::lemma_small_mod(1, pointer::modulus(64) as nat);
    if ssa.folded(op) is Some {
        predicates::known_predicates_hold(ssa, op, 0, env, args);
    } else if ssa.simplification(op) is Some {
        predicates::simpler_comparisons_compute_the_same(ssa, op, env, args);
    }
}

/// A branch that the range of its condition decides goes where it was found to go, where the range
/// holds the value of the condition.
pub proof fn ranges_decide_rightly<T: Target>(
    ssa: SsaView<T>,
    state: RangeView,
    b: int,
    env: spec_fn(SsaVarId) -> u64,
)
    requires
        ssa.range_decided(state.ranges, b) is Some,
        ssa.blocks[b].terminator() matches Some(Op::Branch { condition, .. }) && ranges::holds_in(
            state,
            env,
            condition,
        ),
    ensures
        steps::next_block(ssa.blocks[b].terminator().unwrap(), env) == Some(
            ssa.range_decided(state.ranges, b).unwrap().0,
        ),
{
    match ssa.blocks[b].terminator() {
        Some(Op::Branch { condition, .. }) => {
            assert(meaning::signed(env(condition)) == 0 <==> env(condition) == 0);
        },
        _ => {},
    }
}

/// What ranges put in place of an instruction computes the same and goes the same way, where they
/// hold the values of what it reads.
pub proof fn ranges_rewrite_rightly<T: Target>(
    ssa: SsaView<T>,
    state: RangeView,
    b: int,
    i: int,
    env: spec_fn(SsaVarId) -> u64,
    args: spec_fn(usize) -> u64,
)
    requires
        ssa.has_instr(b, i),
        forall|k: int|
            0 <= k < ssa.blocks[b].instrs[i].uses().len() ==> #[trigger] ranges::holds_in(
                state,
                env,
                ssa.blocks[b].instrs[i].uses()[k],
            ),
    ensures
        ({
            let old_op = ssa.blocks[b].instrs[i];
            let new_op = ssa.range_rewritten(state.ranges, b, i);
            &&& meaning::result(new_op, env, args) == meaning::result(old_op, env, args)
            &&& steps::next_block(new_op, env) == steps::next_block(old_op, env)
            &&& new_op.result() == old_op.result()
        }),
{
    let op = ssa.blocks[b].instrs[i];
    knowledge::lemma_signed_register(0);
    vstd::arithmetic::div_mod::lemma_small_mod(1, pointer::modulus(64) as nat);
    if ranges::settled(op, state.ranges) is Some {
        ranges::settled_comparisons_compute_their_truth(state, op, env, args);
    } else if ssa.range_decided(state.ranges, b) is Some && i == ssa.blocks[b].instrs.len() - 1 {
        match ssa.blocks[b].terminator() {
            Some(Op::Branch { condition, .. }) => {
                assert(op.uses()[0] == condition);
                ranges_decide_rightly(ssa, state, b, env);
            },
            _ => {},
        }
    }
}

} // verus!
