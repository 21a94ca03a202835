//! What evaluation finds is what the operations compute.
use crate::analysis::constants;
use crate::analysis::evaluator;
use crate::analysis::meaning;
use crate::ir::function::SsaView;
use crate::ir::ops::{Op, OpView};
use crate::ir::phi::PhiView;
use crate::ir::value::{ArithKind, ConstValue};
use crate::ir::variable::SsaVarId;
use crate::pointer;
use crate::pointer::PointerSize;
use crate::target::Target;
use vstd::prelude::*;

verus! {

/// The registers hold what is known of the variables.
pub open spec fn holds_known(regs: spec_fn(SsaVarId) -> u64, env: Seq<Option<ConstValue>>) -> bool {
    forall|v: SsaVarId| #[trigger] holds_known_of(regs, env, v)
}

/// The register of `v` holds what is known of it.
pub open spec fn holds_known_of(
    regs: spec_fn(SsaVarId) -> u64,
    env: Seq<Option<ConstValue>>,
    v: SsaVarId,
) -> bool {
    evaluator::known(env, v) matches Some(c) ==> (c.number() matches Some(n) ==> regs(v)
        == meaning::register(n))
}

/// The numbers of two constants, where their combination stays within their type.
pub open spec fn stays_in_type(
    kind: ArithKind,
    a: ConstValue,
    b: ConstValue,
    ptr_size: PointerSize,
) -> bool {
    &&& a.number() is Some
    &&& b.number() is Some
    &&& if kind is And || kind is Or || kind is Xor {
        constants::holds_number(a, ptr_size, a.number().unwrap()) && constants::holds_number(
            b,
            ptr_size,
            b.number().unwrap(),
        )
    } else {
        constants::holds_number(
            a,
            ptr_size,
            constants::exact(kind, a.number().unwrap(), b.number().unwrap()),
        )
    }
}

/// What an operation on known constants computes stays within their type.
pub open spec fn is_exact<T: Target>(
    env: Seq<Option<ConstValue>>,
    op: OpView<T>,
    ptr_size: PointerSize,
) -> bool {
    match op {
        Op::Add { left, right, .. } => pair_is_exact(env, ArithKind::Add, left, right, ptr_size),
        Op::Sub { left, right, .. } => pair_is_exact(env, ArithKind::Sub, left, right, ptr_size),
        Op::Mul { left, right, .. } => pair_is_exact(env, ArithKind::Mul, left, right, ptr_size),
        Op::And { left, right, .. } => pair_is_exact(env, ArithKind::And, left, right, ptr_size),
        Op::Or { left, right, .. } => pair_is_exact(env, ArithKind::Or, left, right, ptr_size),
        Op::Xor { left, right, .. } => pair_is_exact(env, ArithKind::Xor, left, right, ptr_size),
        Op::Ceq { left, right, .. } => fits_signed(env, left) && fits_signed(env, right),
        _ => true,
    }
}

/// What is known of two variables combines within their type.
pub open spec fn pair_is_exact(
    env: Seq<Option<ConstValue>>,
    kind: ArithKind,
    left: SsaVarId,
    right: SsaVarId,
    ptr_size: PointerSize,
) -> bool {
    match (evaluator::known(env, left), evaluator::known(env, right)) {
        (Some(a), Some(b)) => stays_in_type(kind, a, b, ptr_size),
        _ => true,
    }
}

/// What is known of a variable fits a signed register.
pub open spec fn fits_signed(env: Seq<Option<ConstValue>>, v: SsaVarId) -> bool {
    evaluator::known(env, v) matches Some(c) ==> c.signed() is Some
}

pub proof fn lemma_register_ring(x: int, y: int)
    ensures
        meaning::register(meaning::register(x) + meaning::register(y)) == meaning::register(x + y),
        meaning::register(meaning::register(x) - meaning::register(y)) == meaning::register(x - y),
        meaning::register(meaning::register(x) * meaning::register(y)) == meaning::register(x * y),
{
    let m = pointer::modulus(64);
    vstd::arithmetic::div_mod::lemma_add_mod_noop(x, y, m);
    vstd::arithmetic::div_mod::lemma_sub_mod_noop(x, y, m);
    vstd::arithmetic::div_mod::lemma_mul_mod_noop(x, y, m);
}

pub proof fn lemma_signed_register(n: int)
    requires
        i64::MIN <= n <= i64::MAX,
    ensures
        meaning::signed(meaning::register(n)) == n,
        meaning::register(n) == 0 <==> n == 0,
{
    let m = pointer::modulus(64);
    if n < 0 {
        vstd::arithmetic::div_mod::lemma_mod_add_multiples_vanish(n, m);
        vstd::arithmetic::div_mod::lemma_small_mod((m + n) as nat, m as nat);
        assert((m + n) % m == n % m);
    } else {
        vstd::arithmetic::div_mod::lemma_small_mod(n as nat, m as nat);
    }
    vstd::arithmetic::div_mod::lemma_small_mod(meaning::register(n) as nat, m as nat);
}

/// The constant that evaluation finds for an operation is what it computes in registers that hold
/// what is known of its operands.
pub proof fn evaluated_constants_are_computed<T: Target>(
    env: Seq<Option<ConstValue>>,
    op: OpView<T>,
    ptr_size: PointerSize,
    n: int,
    regs: spec_fn(SsaVarId) -> u64,
    args: spec_fn(usize) -> u64,
)
    requires
        holds_known(regs, env),
        is_exact(env, op, ptr_size),
        evaluator::value_of(env, op, ptr_size) is Some,
        evaluator::value_of(env, op, ptr_size).unwrap().number() == Some(n),
    ensures
        meaning::result(op, regs, args) == Some(meaning::register(n)),
{
    match op {
        Op::Copy { src, .. } => {
            assert(holds_known_of(regs, env, src));
        },
        Op::Add { left, right, .. }
        | Op::Sub { left, right, .. }
        | Op::Mul { left, right, .. }
        | Op::And { left, right, .. }
        | Op::Or { left, right, .. }
        | Op::Xor { left, right, .. } => {
            assert(holds_known_of(regs, env, left) && holds_known_of(regs, env, right));
            let a = evaluator::known(env, left).unwrap();
            let b = evaluator::known(env, right).unwrap();
            let (x, y) = (a.number().unwrap(), b.number().unwrap());
            lemma_register_ring(x, y);
            let kind = match op {
                Op::Add { .. } => ArithKind::Add,
                Op::Sub { .. } => ArithKind::Sub,
                Op::Mul { .. } => ArithKind::Mul,
                Op::And { .. } => ArithKind::And,
                Op::Or { .. } => ArithKind::Or,
                _ => ArithKind::Xor,
            };
            if kind is Add || kind is Sub || kind is Mul {
                constants::constants_combine_exactly(kind, a, b, ptr_size, x, y);
            } else {
                constants::constants_combine_bit_by_bit(kind, a, b, ptr_size, x, y);
            }
        },
        Op::Ceq { left, right, .. }
        | Op::Clt { left, right, .. }
        | Op::Cgt { left, right, .. } => {
            assert(holds_known_of(regs, env, left) && holds_known_of(regs, env, right));
            let a = evaluator::known(env, left).unwrap();
            let b = evaluator::known(env, right).unwrap();
            if a.signed() is Some {
                lemma_signed_register(a.number().unwrap());
            }
            if b.signed() is Some {
                lemma_signed_register(b.number().unwrap());
            }
            lemma_signed_register(0);
            lemma_signed_register(1);
            vstd::arithmetic::div_mod::lemma_small_mod(1, pointer::modulus(64) as nat);
        },
        _ => {},
    }
}

/// The registers of a way through a function hold what its constants and copies assign.
pub open spec fn keeps_copies<T: Target>(ssa: SsaView<T>, regs: spec_fn(SsaVarId) -> u64) -> bool {
    forall|v: SsaVarId| #[trigger] keeps_copy(ssa, regs, v)
}

/// The register of `v` holds what a constant or a copy assigns to it.
pub open spec fn keeps_copy<T: Target>(
    ssa: SsaView<T>,
    regs: spec_fn(SsaVarId) -> u64,
    v: SsaVarId,
) -> bool {
    match ssa.def_op(v) {
        Some(Op::Const { value, .. }) => value.number() matches Some(n) ==> regs(v)
            == meaning::register(n),
        Some(Op::Copy { src, .. }) => regs(v) == regs(src),
        _ => true,
    }
}

/// The constant that is found by looking through copies is what the register holds.
pub proof fn traced_constants_are_held<T: Target>(
    env: Seq<Option<ConstValue>>,
    ssa: SsaView<T>,
    v: SsaVarId,
    depth: nat,
    n: int,
    regs: spec_fn(SsaVarId) -> u64,
)
    requires
        holds_known(regs, env),
        keeps_copies(ssa, regs),
        evaluator::traced(env, ssa, v, depth) is Some,
        evaluator::traced(env, ssa, v, depth).unwrap().number() == Some(n),
    ensures
        regs(v) == meaning::register(n),
    decreases depth,
{
    assert(holds_known_of(regs, env, v));
    assert(keeps_copy(ssa, regs, v));
    if evaluator::known(env, v) is None {
        match ssa.def_op(v) {
            Some(Op::Copy { src, .. }) => {
                traced_constants_are_held(env, ssa, src, (depth - 1) as nat, n, regs);
            },
            _ => {},
        }
    }
}

/// A number that a register holds is zero exactly where the register is.
pub proof fn registers_tell_zero(n: int)
    requires
        i64::MIN <= n <= i64::MAX,
    ensures
        meaning::register(n) == 0 <==> n == 0,
{
    lemma_signed_register(n);
}

/// The registers after an operation: only its results change, and a value that it computes is what
/// its result holds.
pub open spec fn operation_leads<T: Target>(
    op: OpView<T>,
    before: spec_fn(SsaVarId) -> u64,
    after: spec_fn(SsaVarId) -> u64,
    args: spec_fn(usize) -> u64,
) -> bool {
    &&& forall|v: SsaVarId| !op.defs().contains(v) ==> #[trigger] after(v) == before(v)
    &&& op.result() matches Some(dest) ==> (meaning::result(op, before, args) matches Some(x)
        ==> after(dest) == x)
}

/// The registers after the phi nodes of a block that is entered from `pred`: each result holds what
/// its operand from there held before, and nothing else changes.
pub open spec fn phis_lead(
    phis: Seq<PhiView>,
    pred: usize,
    before: spec_fn(SsaVarId) -> u64,
    after: spec_fn(SsaVarId) -> u64,
) -> bool {
    &&& forall|p: int, k: int|
        0 <= p < phis.len() && 0 <= k < phis[p].operands.len() && (
        #[trigger] phis[p].operands[k]).predecessor == pred && is_first(phis[p], pred, k)
            ==> after(phis[p].result) == before(phis[p].operands[k].value)
    &&& forall|v: SsaVarId|
        (forall|p: int| 0 <= p < phis.len() ==> (#[trigger] phis[p]).result != v)
            ==> #[trigger] after(v) == before(v)
}

/// No operand before `k` comes from `pred`.
pub open spec fn is_first(phi: PhiView, pred: usize, k: int) -> bool {
    forall|j: int| 0 <= j < k ==> (#[trigger] phi.operands[j]).predecessor != pred
}

proof fn lemma_operand_from(phi: PhiView, pred: usize, n: nat) -> (k: int)
    requires
        evaluator::operand_from(phi.operands, pred, n) is Some,
        forall|j: int| 0 <= j < n ==> (#[trigger] phi.operands[j]).predecessor != pred,
    ensures
        0 <= k < phi.operands.len(),
        phi.operands[k].predecessor == pred,
        is_first(phi, pred, k),
        evaluator::operand_from(phi.operands, pred, n) == Some(phi.operands[k].value),
    decreases phi.operands.len() - n,
{
    if phi.operands[n as int].predecessor == pred {
        n as int
    } else {
        lemma_operand_from(phi, pred, n + 1)
    }
}

/// What is known after an operation is held by the registers after it.
pub proof fn knowledge_survives_an_operation<T: Target>(
    env: Seq<Option<ConstValue>>,
    op: OpView<T>,
    ptr_size: PointerSize,
    before: spec_fn(SsaVarId) -> u64,
    after: spec_fn(SsaVarId) -> u64,
    args: spec_fn(usize) -> u64,
)
    requires
        holds_known(before, env),
        is_exact(env, op, ptr_size),
        operation_leads(op, before, after, args),
        op.flags_result() matches Some(f) ==> evaluator::known(
            evaluator::after_op(env, op, ptr_size),
            f,
        ) is None,
    ensures
        holds_known(after, evaluator::after_op(env, op, ptr_size)),
{
    let next = evaluator::after_op(env, op, ptr_size);
    assert forall|v: SsaVarId| #[trigger] holds_known_of(after, next, v) by {
        assert(holds_known_of(before, env, v));
        if op.result() == Some(v) && v.0 < env.len() {
            if let Some(c) = evaluator::value_of(env, op, ptr_size) {
                if let Some(n) = c.number() {
                    evaluated_constants_are_computed(env, op, ptr_size, n, before, args);
                }
            }
        } else if evaluator::known(next, v) is Some {
            assert(!op.defs().contains(v)) by {
                if op.defs().contains(v) {
                    let k = choose|k: int| 0 <= k < op.defs().len() && op.defs()[k] == v;
                }
            }
        }
    }
}

proof fn lemma_phis_known<T: Target>(
    env: Seq<Option<ConstValue>>,
    phis: Seq<PhiView>,
    pred: usize,
    n: nat,
    v: SsaVarId,
)
    requires
        n <= phis.len(),
    ensures
        evaluator::after_phis(env, phis, pred, n).len() == env.len(),
        (forall|p: int| 0 <= p < n ==> (#[trigger] phis[p]).result != v) ==> evaluator::known(
            evaluator::after_phis(env, phis, pred, n),
            v,
        ) == evaluator::known(env, v),
        !(forall|p: int| 0 <= p < n ==> (#[trigger] phis[p]).result != v) && v.0 < env.len()
            ==> exists|p: int|
            0 <= p < n && (#[trigger] phis[p]).result == v && evaluator::known(
                evaluator::after_phis(env, phis, pred, n),
                v,
            ) == evaluator::phi_value(env, phis[p], pred),
    decreases n,
{
    if n > 0 {
        let m = (n - 1) as nat;
        lemma_phis_known::<T>(env, phis, pred, m, v);
        let before = evaluator::after_phis(env, phis, pred, m);
        let now = evaluator::after_phis(env, phis, pred, n);
        if phis[n - 1].result == v {
            if v.0 < env.len() {
                assert(evaluator::known(now, v) == evaluator::phi_value(env, phis[n - 1], pred));
            }
        } else {
            assert(evaluator::known(now, v) == evaluator::known(before, v));
            if !(forall|p: int| 0 <= p < n ==> (#[trigger] phis[p]).result != v) && v.0
                < env.len() {
                let q = choose|p: int| 0 <= p < n && (#[trigger] phis[p]).result == v;
                assert(q < m && phis[q].result == v);
                let p = choose|p: int|
                    0 <= p < m && (#[trigger] phis[p]).result == v && evaluator::known(before, v)
                        == evaluator::phi_value(env, phis[p], pred);
                assert(phis[p].result == v);
            }
        }
    }
}

/// What is known after the phi nodes of a block is held by the registers after them.
pub proof fn knowledge_survives_phis<T: Target>(
    env: Seq<Option<ConstValue>>,
    phis: Seq<PhiView>,
    pred: usize,
    before: spec_fn(SsaVarId) -> u64,
    after: spec_fn(SsaVarId) -> u64,
)
    requires
        holds_known(before, env),
        phis_lead(phis, pred, before, after),
    ensures
        holds_known(after, evaluator::after_phis(env, phis, pred, phis.len())),
{
    let next = evaluator::after_phis(env, phis, pred, phis.len());
    assert forall|v: SsaVarId| #[trigger] holds_known_of(after, next, v) by {
        lemma_phis_known::<T>(env, phis, pred, phis.len(), v);
        assert(holds_known_of(before, env, v));
        if forall|p: int| 0 <= p < phis.len() ==> (#[trigger] phis[p]).result != v {
            assert(after(v) == before(v));
        } else if v.0 < env.len() {
            let p = choose|p: int|
                0 <= p < phis.len() && (#[trigger] phis[p]).result == v && evaluator::known(next, v)
                    == evaluator::phi_value(env, phis[p], pred);
            if evaluator::operand_from(phis[p].operands, pred, 0) is Some {
                let k = lemma_operand_from(phis[p], pred, 0);
                assert(holds_known_of(before, env, phis[p].operands[k].value));
                assert(after(phis[p].result) == before(phis[p].operands[k].value));
            }
        }
    }
}

} // verus!
