//! What operations do beside computing: where control goes, and what acts on the world.
use crate::analysis::meaning;
use crate::ir::function;
use crate::ir::ops::{CompareKind, Op, OpView};
use crate::ir::variable::SsaVarId;
use crate::pointer;
use crate::target::Target;
use vstd::prelude::*;

verus! {

/// Two registers compare in this way.
pub open spec fn compares(kind: CompareKind, a: u64, b: u64, unsigned: bool) -> bool {
    match kind {
        CompareKind::Eq => a == b,
        CompareKind::Ne => a != b,
        CompareKind::Lt => meaning::less(a, b, unsigned),
        CompareKind::Le => !meaning::less(b, a, unsigned),
        CompareKind::Gt => meaning::less(b, a, unsigned),
        CompareKind::Ge => !meaning::less(a, b, unsigned),
    }
}

/// The block that control goes to after an operation, where the values of the variables decide it.
pub open spec fn next_block<T: Target>(op: OpView<T>, env: spec_fn(SsaVarId) -> u64) -> Option<
    usize,
> {
    match op {
        Op::Jump { target } => Some(target),
        Op::Leave { target } => Some(target),
        Op::Branch { condition, true_target, false_target } => Some(
            if env(condition) != 0 {
                true_target
            } else {
                false_target
            },
        ),
        Op::BranchCmp { left, right, kind, unsigned, true_target, false_target } => Some(
            if compares(kind, env(left), env(right), unsigned) {
                true_target
            } else {
                false_target
            },
        ),
        Op::Switch { value, targets, default } => Some(
            if env(value) < targets.len() {
                targets[env(value) as int]
            } else {
                default
            },
        ),
        _ => None,
    }
}

/// Control goes to a successor.
pub proof fn next_is_a_successor<T: Target>(op: OpView<T>, env: spec_fn(SsaVarId) -> u64)
    ensures
        next_block(op, env) matches Some(to) ==> op.successors().contains(to),
{
    let next = op.successors();
    match op {
        Op::Jump { target } | Op::Leave { target } => {
            assert(next[0] == target);
        },
        Op::Branch { true_target, false_target, .. }
        | Op::BranchCmp { true_target, false_target, .. } => {
            assert(next[0] == true_target && next[1] == false_target);
        },
        Op::Switch { value, targets, default } => {
            if env(value) < targets.len() {
                assert(next[env(value) as int] == targets[env(value) as int]);
            } else {
                assert(next[targets.len() as int] == default);
            }
        },
        _ => {},
    }
}

/// An operation computes something from its operands and the arguments, whatever they are.
pub open spec fn always_computes<T: Target>(op: OpView<T>) -> bool {
    forall|env: spec_fn(SsaVarId) -> u64, args: spec_fn(usize) -> u64|
        (#[trigger] meaning::result(op, env, args)) is Some
}

/// An operation does more than compute a value: it may act on the world, depend on it, fail, or
/// decide where control goes.
pub open spec fn acts<T: Target>(op: OpView<T>) -> bool {
    match op {
        Op::Const { .. } => false,
        Op::Copy { .. } => false,
        Op::Add { .. } => false,
        Op::Sub { .. } => false,
        Op::Mul { .. } => false,
        Op::And { .. } => false,
        Op::Or { .. } => false,
        Op::Xor { .. } => false,
        Op::Shl { .. } => false,
        Op::Shr { .. } => false,
        Op::Neg { .. } => false,
        Op::Not { .. } => false,
        Op::Ceq { .. } => false,
        Op::Clt { .. } => false,
        Op::Cgt { .. } => false,
        Op::LoadArg { .. } => false,
        Op::LoadLocal { .. } => false,
        Op::LoadLocalAddr { .. } => false,
        Op::LoadToken { .. } => false,
        Op::Pop { .. } => false,
        Op::Nop => false,
        _ => true,
    }
}

/// What does not act computes its value from its operands whatever they are, or reads a local
/// variable, its address or a token, or does nothing with what it reads.
pub proof fn what_does_not_act_computes<T: Target>(op: OpView<T>)
    requires
        !acts(op),
    ensures
        always_computes(op) || op is LoadLocal || op is LoadLocalAddr || op is LoadToken || op is Pop
            || op is Nop,
{
}

/// What counts as pure does not act: it neither calls, stores, reads memory that may change, fails,
/// nor branches.
pub proof fn pure_operations_do_not_act<T: Target>(op: OpView<T>)
    requires
        op.pure(),
    ensures
        !acts(op),
{
}

/// Those of the first `n` operations that act, in order.
pub open spec fn acting<T: Target>(instrs: Seq<OpView<T>>, n: nat) -> Seq<OpView<T>>
    decreases n,
{
    if n == 0 {
        Seq::empty()
    } else {
        let before = acting(instrs, (n - 1) as nat);
        if acts(instrs[n - 1]) {
            before.push(instrs[n - 1])
        } else {
            before
        }
    }
}

pub proof fn lemma_acting_add<T: Target>(a: Seq<OpView<T>>, b: Seq<OpView<T>>, n: nat)
    requires
        n <= b.len(),
    ensures
        acting(a + b, a.len() + n) == acting(a, a.len()) + acting(b, n),
    decreases n,
{
    if n == 0 {
        lemma_acting_prefix(a, a + b, a.len());
        assert(acting(a, a.len()) + acting(b, 0) =~= acting(a, a.len()));
    } else {
        lemma_acting_add(a, b, (n - 1) as nat);
        assert((a + b)[a.len() + n - 1] == b[n - 1]);
        assert(acting(a + b, a.len() + n) =~= acting(a, a.len()) + acting(b, n));
    }
}

pub proof fn lemma_acting_prefix<T: Target>(a: Seq<OpView<T>>, b: Seq<OpView<T>>, n: nat)
    requires
        n <= a.len(),
        n <= b.len(),
        forall|i: int| 0 <= i < n ==> a[i] == #[trigger] b[i],
    ensures
        acting(a, n) == acting(b, n),
    decreases n,
{
    if n > 0 {
        lemma_acting_prefix(a, b, (n - 1) as nat);
        assert(a[n - 1] == b[n - 1]);
    }
}

pub proof fn lemma_acting_idle<T: Target>(a: Seq<OpView<T>>, n: nat)
    requires
        n <= a.len(),
        forall|i: int| 0 <= i < n ==> !acts(#[trigger] a[i]),
    ensures
        acting(a, n) == Seq::<OpView<T>>::empty(),
    decreases n,
{
    if n > 0 {
        lemma_acting_idle(a, (n - 1) as nat);
        assert(!acts(a[n - 1]));
    }
}

/// Exchanging an operation that does not act for another that does not leaves what acts.
pub proof fn lemma_acting_update<T: Target>(a: Seq<OpView<T>>, i: int, op: OpView<T>, n: nat)
    requires
        0 <= i < a.len(),
        n <= a.len(),
        !acts(a[i]),
        !acts(op),
    ensures
        acting(a.update(i, op), n) == acting(a, n),
    decreases n,
{
    if n > 0 {
        lemma_acting_update(a, i, op, (n - 1) as nat);
    }
}

/// Removing operations that do nothing leaves what acts.
pub proof fn lemma_acting_stripped<T: Target>(a: Seq<OpView<T>>, n: nat)
    requires
        n <= a.len(),
    ensures
        ({
            let kept = function::without_nops(a, n);
            acting(kept, kept.len()) == acting(a, n)
        }),
    decreases n,
{
    if n > 0 {
        let before = function::without_nops(a, (n - 1) as nat);
        lemma_acting_stripped(a, (n - 1) as nat);
        if !(a[n - 1] is Nop) {
            lemma_acting_prefix(before, before.push(a[n - 1]), before.len());
        }
    }
}

/// A signed number as a bit pattern is its register.
pub proof fn lemma_signed_bits(a: i64)
    ensures
        a as u64 == meaning::register(a as int),
{
    let m = pointer::modulus(64);
    if a < 0 {
        assert((a as u64) as i128 == a as i128 + 0x1_0000_0000_0000_0000i128) by (bit_vector)
            requires
                a < 0i64,
        ;
        vstd::arithmetic::div_mod::lemma_mod_add_multiples_vanish(a as int, m);
        assert((m + a) % m == a as int % m);
        vstd::arithmetic::div_mod::lemma_small_mod((m + a) as nat, m as nat);
        assert(meaning::register(a as int) == m + a);
    } else {
        vstd::arithmetic::div_mod::lemma_small_mod(a as nat, m as nat);
    }
}

/// The bits of two signed numbers combine as their registers do.
pub proof fn lemma_bitwise_registers(a: i64, b: i64)
    ensures
        meaning::register((a & b) as int) == meaning::register(a as int) & meaning::register(
            b as int,
        ),
        meaning::register((a | b) as int) == meaning::register(a as int) | meaning::register(
            b as int,
        ),
        meaning::register((a ^ b) as int) == meaning::register(a as int) ^ meaning::register(
            b as int,
        ),
{
    lemma_signed_bits(a);
    lemma_signed_bits(b);
    lemma_signed_bits(a & b);
    lemma_signed_bits(a | b);
    lemma_signed_bits(a ^ b);
    assert((a & b) as u64 == (a as u64) & (b as u64) && (a | b) as u64 == (a as u64) | (b as u64)
        && (a ^ b) as u64 == (a as u64) ^ (b as u64)) by (bit_vector);
}

/// What an operation computes and where it goes depends only on what it reads.
pub proof fn unread_variables_do_not_matter<T: Target>(
    op: OpView<T>,
    env: spec_fn(SsaVarId) -> u64,
    other: spec_fn(SsaVarId) -> u64,
    args: spec_fn(usize) -> u64,
)
    requires
        forall|k: int| 0 <= k < op.uses().len() ==> env(#[trigger] op.uses()[k]) == other(
            op.uses()[k],
        ),
    ensures
        meaning::result(op, env, args) == meaning::result(op, other, args),
        next_block(op, env) == next_block(op, other),
{
    let reads = op.uses();
    if reads.len() > 0 {
        assert(env(reads[0]) == other(reads[0]));
    }
    if reads.len() > 1 {
        assert(env(reads[1]) == other(reads[1]));
    }
}

} // verus!
