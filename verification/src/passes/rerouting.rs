//! Blocks that only jump elsewhere can be bypassed: control comes to the same block, with the same
//! values.
use crate::analysis::evaluator;
use crate::analysis::steps;
use crate::ir::function::SsaView;
use crate::ir::ops;
use crate::ir::ops::{Op, OpView};
use crate::ir::phi::{PhiOperand, PhiView};
use crate::ir::variable::SsaVarId;
use crate::passes::blockmerge;
use crate::passes::utils;
use crate::target::Target;
use vstd::prelude::*;

verus! {

/// A block that can be bypassed holds no phi nodes and nothing but a jump.
pub proof fn trampolines_only_jump<T: Target>(
    ssa: SsaView<T>,
    skip_entry: bool,
    t: usize,
    env: spec_fn(SsaVarId) -> u64,
)
    requires
        ssa.trampolines(skip_entry).contains_key(t),
    ensures
        t < ssa.blocks.len(),
        skip_entry ==> t != 0,
        ssa.blocks[t as int].phis.len() == 0,
        ssa.blocks[t as int].instrs.len() == 1,
        steps::next_block(ssa.blocks[t as int].instrs[0], env) == Some(
            ssa.trampolines(skip_entry)[t],
        ),
{
}

/// A branch becomes a jump only where every one of its targets is the target of the jump or comes to
/// it through blocks that only jump; a switch may also go back to its own block.
pub proof fn same_targets_lead_to_the_same<T: Target>(ssa: SsaView<T>, b: int, s: usize)
    requires
        0 <= b < ssa.blocks.len(),
        ssa.same_target(b) is Some,
        ssa.blocks[b].successors().contains(s),
    ensures
        ({
            let t = ssa.same_target(b).unwrap();
            ||| s == t
            ||| utils::chain_end(ssa.trampolines(false), s) == t
            ||| ssa.blocks[b].terminator().unwrap() is Switch && s == b as usize
        }),
{
    let next = ssa.blocks[b].successors();
    let k = choose|k: int| 0 <= k < next.len() && next[k] == s;
    match ssa.blocks[b].terminator() {
        Some(Op::Switch { targets, default, .. }) => {
            if k < targets.len() {
                assert(targets[k] == s);
            }
            assert(targets.push(default)[k] == s);
        },
        _ => {},
    }
}

/// Whatever the registers hold, a branch that becomes a jump comes to the target of the jump.
pub proof fn simplified_branches_come_to_the_jump<T: Target>(
    ssa: SsaView<T>,
    b: int,
    env: spec_fn(SsaVarId) -> u64,
)
    requires
        0 <= b < ssa.blocks.len(),
        ssa.same_target(b) is Some,
    ensures
        ssa.blocks[b].terminator() is Some,
        ({
            let op = ssa.blocks[b].terminator().unwrap();
            let t = ssa.same_target(b).unwrap();
            &&& op is Branch || op is BranchCmp || op is Switch
            &&& steps::next_block(op, env) matches Some(s) && (s == t || utils::chain_end(
                ssa.trampolines(false),
                s,
            ) == t || (op is Switch && s == b as usize))
        }),
{
    let op = ssa.blocks[b].terminator().unwrap();
    steps::next_is_a_successor(op, env);
    same_targets_lead_to_the_same(ssa, b, steps::next_block(op, env).unwrap());
}

pub proof fn lemma_redirected<T: Target>(
    op: OpView<T>,
    from: usize,
    to: usize,
    env: spec_fn(SsaVarId) -> u64,
)
    ensures
        match steps::next_block(op, env) {
            Some(s) => steps::next_block(op.redirected(from, to), env) == Some(
                ops::renamed(s, from, to),
            ),
            None => steps::next_block(op.redirected(from, to), env) is None,
        },
        op.redirected(from, to).uses() == op.uses(),
        op.redirected(from, to).defs() == op.defs(),
        op.redirected(from, to).successors() =~= ops::all_renamed(op.successors(), from, to),
{
}

/// Every end is its own end: no chain of jumps runs in a circle.
pub open spec fn ends_are_final(ends: Seq<usize>) -> bool {
    forall|t: int|
        0 <= t < ends.len() && (#[trigger] ends[t]) < ends.len() ==> ends[ends[t] as int] == ends[t]
}

proof fn lemma_bypassing<T: Target>(
    op: OpView<T>,
    ends: Seq<usize>,
    n: nat,
    env: spec_fn(SsaVarId) -> u64,
)
    requires
        n <= ends.len() <= usize::MAX,
        ends_are_final(ends),
    ensures
        match steps::next_block(op, env) {
            Some(s) => steps::next_block(blockmerge::bypassing(op, ends, n), env) == Some(
                if s < n {
                    ends[s as int]
                } else {
                    s
                },
            ),
            None => steps::next_block(blockmerge::bypassing(op, ends, n), env) is None,
        },
        blockmerge::bypassing(op, ends, n).uses() == op.uses(),
        blockmerge::bypassing(op, ends, n).defs() == op.defs(),
    decreases n,
{
    if n > 0 {
        let m = (n - 1) as nat;
        lemma_bypassing(op, ends, m, env);
        let before = blockmerge::bypassing(op, ends, m);
        if ends[n - 1] != n - 1 {
            lemma_redirected(before, m as usize, ends[n - 1], env);
            if let Some(s) = steps::next_block(op, env) {
                if s < m {
                    let e = ends[s as int];
                    if e == m {
                        assert(ends[e as int] == e);
                    }
                }
            }
        }
    }
}

/// An operation whose jumps bypass other blocks reads and assigns the same, and goes, whatever the
/// registers hold, to the end of the block it went to.
pub proof fn bypassing_jumps_come_to_the_end<T: Target>(
    op: OpView<T>,
    ends: Seq<usize>,
    env: spec_fn(SsaVarId) -> u64,
)
    requires
        ends.len() <= usize::MAX,
        ends_are_final(ends),
    ensures
        ({
            let new = blockmerge::bypassing(op, ends, ends.len());
            &&& new.uses() == op.uses()
            &&& new.defs() == op.defs()
            &&& match steps::next_block(op, env) {
                Some(s) => steps::next_block(new, env) == Some(
                    if s < ends.len() {
                        ends[s as int]
                    } else {
                        s
                    },
                ),
                None => steps::next_block(new, env) is None,
            }
        }),
{
    lemma_bypassing(op, ends, ends.len(), env);
}

proof fn lemma_stays_successor<T: Target>(op: OpView<T>, ends: Seq<usize>, n: nat, t: usize)
    requires
        n <= ends.len() <= usize::MAX,
        n <= t,
        op.successors().contains(t),
    ensures
        blockmerge::bypassing(op, ends, n).successors().contains(t),
    decreases n,
{
    if n > 0 {
        let m = (n - 1) as nat;
        lemma_stays_successor(op, ends, m, t);
        let before = blockmerge::bypassing(op, ends, m);
        if ends[n - 1] != n - 1 {
            let env = |v: SsaVarId| 0u64;
            lemma_redirected(before, m as usize, ends[n - 1], env);
            let list = before.successors();
            let k = choose|k: int| 0 <= k < list.len() && list[k] == t;
            assert(before.redirected(m as usize, ends[n - 1]).successors()[k] == t);
        }
    }
}

/// An operation that went to a block that is bypassed counts as bypassing it.
pub proof fn jumps_to_bypassed_blocks_are_noted<T: Target>(op: OpView<T>, ends: Seq<usize>, t: int)
    requires
        ends.len() <= usize::MAX,
        0 <= t < ends.len(),
        ends[t] != t,
        op.successors().contains(t as usize),
    ensures
        blockmerge::bypasses(op, ends, t),
{
    lemma_stays_successor(op, ends, t as nat, t as usize);
}

/// The value that a phi node has where control comes from `pred`.
pub open spec fn received(phi: PhiView, pred: usize) -> Option<SsaVarId> {
    evaluator::operand_from(phi.operands, pred, 0)
}

pub proof fn lemma_received_from(operands: Seq<PhiOperand>, pred: usize, n: nat, k: int)
    requires
        n <= k < operands.len(),
        operands[k].predecessor == pred,
        forall|j: int| n <= j < k ==> (#[trigger] operands[j]).predecessor != pred,
    ensures
        evaluator::operand_from(operands, pred, n) == Some(operands[k].value),
    decreases k - n,
{
    if n < k {
        assert(operands[n as int].predecessor != pred);
        lemma_received_from(operands, pred, n + 1, k);
    }
}

pub proof fn lemma_received_none(operands: Seq<PhiOperand>, pred: usize, n: nat)
    ensures
        evaluator::operand_from(operands, pred, n) is None <==> forall|j: int|
            n <= j < operands.len() ==> (#[trigger] operands[j]).predecessor != pred,
    decreases operands.len() - n,
{
    if n < operands.len() {
        lemma_received_none(operands, pred, n + 1);
    }
}

pub proof fn lemma_received_first(operands: Seq<PhiOperand>, pred: usize, n: nat) -> (k: int)
    requires
        evaluator::operand_from(operands, pred, n) is Some,
    ensures
        n <= k < operands.len(),
        operands[k].predecessor == pred,
        forall|j: int| n <= j < k ==> (#[trigger] operands[j]).predecessor != pred,
        evaluator::operand_from(operands, pred, n) == Some(operands[k].value),
    decreases operands.len() - n,
{
    if operands[n as int].predecessor == pred {
        n as int
    } else {
        lemma_received_first(operands, pred, n + 1)
    }
}

proof fn lemma_first_from(operands: Seq<PhiOperand>, pred: usize, n: nat)
    requires
        n <= operands.len(),
    ensures
        match blockmerge::first_from(operands, pred, n) {
            Some(i) => 0 <= i < n && operands[i].predecessor == pred && forall|j: int|
                0 <= j < i ==> (#[trigger] operands[j]).predecessor != pred,
            None => forall|j: int| 0 <= j < n ==> (#[trigger] operands[j]).predecessor != pred,
        },
    decreases n,
{
    if n > 0 {
        lemma_first_from(operands, pred, (n - 1) as nat);
    }
}

/// Where control comes to a block at once instead of through `t`, its phi nodes have the value that
/// they had from `t`.
pub proof fn direct_entries_have_the_value<T: Target>(
    phi: PhiView,
    t: usize,
    preds: Seq<usize>,
    q: usize,
)
    requires
        preds.contains(q),
        received(phi, q) is None,
    ensures
        received(phi.spread(t, preds), q) == received(phi, t),
        phi.spread(t, preds).result == phi.result,
{
    let old_ops = phi.operands;
    let new_ops = phi.spread(t, preds).operands;
    lemma_first_from(old_ops, t, old_ops.len());
    lemma_received_none(old_ops, q, 0);
    match blockmerge::first_from(old_ops, t, old_ops.len()) {
        Some(i) => {
            lemma_received_from(old_ops, t, 0, i);
            if preds[0] == q {
                assert forall|j: int| 0 <= j < i implies (#[trigger] new_ops[j]).predecessor
                    != q by {
                    assert(old_ops[j].predecessor != q);
                }
                lemma_received_from(new_ops, q, 0, i);
            } else {
                let k = lemma_first_index(preds, q);
                let at = old_ops.len() + k - 1;
                assert(new_ops[at] == PhiOperand { value: old_ops[i].value, predecessor: q });
                assert forall|j: int| 0 <= j < at implies (#[trigger] new_ops[j]).predecessor
                    != q by {
                    if j < old_ops.len() {
                        assert(old_ops[j].predecessor != q);
                    } else {
                        assert(new_ops[j].predecessor == preds[j - old_ops.len() + 1]);
                    }
                }
                lemma_received_from(new_ops, q, 0, at);
            }
        },
        None => {
            lemma_received_none(old_ops, t, 0);
        },
    }
}

proof fn lemma_first_index(s: Seq<usize>, x: usize) -> (k: int)
    requires
        s.contains(x),
    ensures
        0 <= k < s.len(),
        s[k] == x,
        forall|j: int| 0 <= j < k ==> #[trigger] s[j] != x,
    decreases s.len(),
{
    let i = choose|i: int| 0 <= i < s.len() && s[i] == x;
    if s[0] == x {
        0
    } else {
        let t = s.skip(1);
        assert(t[i - 1] == x);
        let k = lemma_first_index(t, x);
        assert forall|j: int| 0 <= j < k + 1 implies #[trigger] s[j] != x by {
            if j > 0 {
                assert(t[j - 1] == s[j]);
            }
        }
        k + 1
    }
}

/// Where control comes to a block as before, its phi nodes have the value that they had.
pub proof fn other_entries_keep_their_value<T: Target>(
    phi: PhiView,
    t: usize,
    preds: Seq<usize>,
    p: usize,
)
    requires
        preds.len() > 0,
        !preds.contains(p),
        p != t,
    ensures
        received(phi.spread(t, preds), p) == received(phi, p),
{
    let old_ops = phi.operands;
    let new_ops = phi.spread(t, preds).operands;
    lemma_first_from(old_ops, t, old_ops.len());
    if let Some(i) = blockmerge::first_from(old_ops, t, old_ops.len()) {
        assert(preds.contains(preds[0]));
        assert forall|j: int| 0 <= j < new_ops.len() implies (if j < old_ops.len() && j != i {
            #[trigger] new_ops[j] == old_ops[j]
        } else {
            new_ops[j].predecessor != p
        }) by {
            if j >= old_ops.len() {
                assert(new_ops[j].predecessor == preds[j - old_ops.len() + 1]);
                assert(preds.contains(preds[j - old_ops.len() + 1]));
            }
        }
        if received(phi, p) is Some {
            let k = lemma_received_first(old_ops, p, 0);
            assert(k != i);
            assert(new_ops[k] == old_ops[k]);
            assert forall|j: int| 0 <= j < k implies (#[trigger] new_ops[j]).predecessor != p by {
                if j != i {
                    assert(new_ops[j] == old_ops[j]);
                }
            }
            lemma_received_from(new_ops, p, 0, k);
        } else {
            lemma_received_none(old_ops, p, 0);
            lemma_received_none(new_ops, p, 0);
            assert forall|j: int| 0 <= j < new_ops.len() implies (#[trigger] new_ops[j]).predecessor
                != p by {
                if j < old_ops.len() && j != i {
                    assert(new_ops[j] == old_ops[j]);
                    assert(old_ops[j].predecessor != p);
                }
            }
        }
    }
}

/// The way from block `q` to block `e` through `t` is the only one of its kind: nothing else that is
/// bypassed on the way to `e` concerns `q` or `t`.
pub open spec fn is_sole_way(
    ends: Seq<usize>,
    preds: Seq<Seq<usize>>,
    q: usize,
    t: int,
    e: usize,
) -> bool {
    &&& 0 <= t < ends.len()
    &&& ends[t] == e
    &&& preds[t].contains(q)
    &&& !preds[t].contains(t as usize)
    &&& q != t
    &&& forall|u: int|
        0 <= u < ends.len() && u != t && (#[trigger] ends[u]) == e && preds[u].len() > 0
            ==> !preds[u].contains(q) && !preds[u].contains(t as usize) && u != q
}

pub proof fn lemma_spread_shape<T: Target>(
    ssa: SsaView<T>,
    ends: Seq<usize>,
    preds: Seq<Seq<usize>>,
    n: nat,
    e: int,
)
    requires
        n <= ends.len(),
        0 <= e < ssa.blocks.len(),
    ensures
        ({
            let next = ssa.with_phis_spread(ends, preds, n);
            &&& next.blocks.len() == ssa.blocks.len()
            &&& next.blocks[e].phis.len() == ssa.blocks[e].phis.len()
            &&& next.blocks[e].instrs == ssa.blocks[e].instrs
        }),
    decreases n,
{
    if n > 0 {
        lemma_spread_shape(ssa, ends, preds, (n - 1) as nat, e);
    }
}

proof fn lemma_spread_value<T: Target>(
    ssa: SsaView<T>,
    ends: Seq<usize>,
    preds: Seq<Seq<usize>>,
    n: nat,
    q: usize,
    t: int,
    e: usize,
    p: int,
)
    requires
        n <= ends.len() <= usize::MAX,
        preds.len() == ends.len(),
        e < ssa.blocks.len(),
        0 <= p < ssa.blocks[e as int].phis.len(),
        is_sole_way(ends, preds, q, t, e),
        received(ssa.blocks[e as int].phis[p], q) is None,
    ensures
        ({
            let was = ssa.blocks[e as int].phis[p];
            let now = ssa.with_phis_spread(ends, preds, n).blocks[e as int].phis[p];
            &&& now.result == was.result
            &&& n <= t ==> received(now, q) is None && received(now, t as usize) == received(
                was,
                t as usize,
            )
            &&& n > t ==> received(now, q) == received(was, t as usize)
        }),
    decreases n,
{
    if n > 0 {
        let m = (n - 1) as nat;
        lemma_spread_value(ssa, ends, preds, m, q, t, e, p);
        lemma_spread_shape(ssa, ends, preds, m, e as int);
        let before = ssa.with_phis_spread(ends, preds, m);
        let phi = before.blocks[e as int].phis[p];
        if preds[n - 1].len() > 0 && ends[n - 1] == e {
            if n - 1 == t {
                direct_entries_have_the_value::<T>(phi, t as usize, preds[t], q);
            } else {
                assert(ends[n - 1] == e);
                other_entries_keep_their_value::<T>(phi, m as usize, preds[n - 1], q);
                if n - 1 < t {
                    other_entries_keep_their_value::<T>(phi, m as usize, preds[n - 1], t as usize);
                }
            }
        }
    }
}

/// Where control comes to a block at once instead of through one that only jumps there, every phi
/// node of the block has from the new predecessor the value that it had from the one that is
/// bypassed.
pub proof fn bypassing_keeps_what_joins_receive<T: Target>(
    ssa: SsaView<T>,
    ends: Seq<usize>,
    preds: Seq<Seq<usize>>,
    q: usize,
    t: int,
    e: usize,
    p: int,
)
    requires
        ends.len() <= usize::MAX,
        preds.len() == ends.len(),
        e < ssa.blocks.len(),
        0 <= p < ssa.blocks[e as int].phis.len(),
        is_sole_way(ends, preds, q, t, e),
        received(ssa.blocks[e as int].phis[p], q) is None,
    ensures
        ({
            let next = ssa.with_phis_spread(ends, preds, ends.len());
            &&& next.blocks[e as int].phis.len() == ssa.blocks[e as int].phis.len()
            &&& next.blocks[e as int].phis[p].result == ssa.blocks[e as int].phis[p].result
            &&& received(next.blocks[e as int].phis[p], q) == received(
                ssa.blocks[e as int].phis[p],
                t as usize,
            )
        }),
{
    lemma_spread_shape(ssa, ends, preds, ends.len(), e as int);
    lemma_spread_value(ssa, ends, preds, ends.len(), q, t, e, p);
}

proof fn lemma_occurs(s: Seq<usize>, x: usize, n: nat)
    requires
        n <= s.len(),
    ensures
        blockmerge::occurrences(s, x, n) > 0 <==> s.take(n as int).contains(x),
    decreases n,
{
    if n > 0 {
        lemma_occurs(s, x, (n - 1) as nat);
        let (a, b) = (s.take(n - 1), s.take(n as int));
        if a.contains(x) {
            let k = choose|k: int| 0 <= k < a.len() && a[k] == x;
            assert(b[k] == x);
        }
        if b.contains(x) && s[n - 1] != x {
            let k = choose|k: int| 0 <= k < b.len() && b[k] == x;
            assert(a[k] == x);
        }
        if s[n - 1] == x {
            assert(b[n - 1] == x);
        }
    }
}

proof fn lemma_way_counts<T: Target>(ssa: SsaView<T>, b: usize, n: nat, c: int)
    requires
        n <= ssa.blocks.len(),
        0 <= c < ssa.blocks.len(),
        ssa.blocks[c].successors().contains(b),
    ensures
        c < n ==> ssa.ways_from(b, n) >= 1,
    decreases n,
{
    if n > 0 {
        lemma_way_counts(ssa, b, (n - 1) as nat, c);
        let next = ssa.blocks[n - 1].successors();
        lemma_occurs(next, b, next.len());
        assert(next.take(next.len() as int) =~= next);
    }
}

proof fn lemma_two_ways_count<T: Target>(ssa: SsaView<T>, b: usize, n: nat, c: int, d: int)
    requires
        n <= ssa.blocks.len(),
        0 <= c < d < n,
        ssa.blocks[c].successors().contains(b),
        ssa.blocks[d].successors().contains(b),
    ensures
        ssa.ways_from(b, n) >= 2,
    decreases n,
{
    let next = ssa.blocks[n - 1].successors();
    lemma_occurs(next, b, next.len());
    assert(next.take(next.len() as int) =~= next);
    if d < n - 1 {
        lemma_two_ways_count(ssa, b, (n - 1) as nat, c, d);
    } else {
        lemma_way_counts(ssa, b, (n - 1) as nat, c);
    }
}

/// A block is appended to another only where the other always goes there, control comes from nowhere
/// else, and it is not the entry.
pub proof fn appended_blocks_have_one_way_in<T: Target>(
    ssa: SsaView<T>,
    a: usize,
    c: int,
    env: spec_fn(SsaVarId) -> u64,
)
    requires
        a < ssa.blocks.len(),
        0 <= c < ssa.blocks.len(),
        ssa.appendable(a) is Some,
    ensures
        ({
            let b = ssa.appendable(a).unwrap();
            &&& b < ssa.blocks.len()
            &&& b != a
            &&& b != 0
            &&& ssa.blocks[a as int].instrs.len() > 0
            &&& steps::next_block(ssa.blocks[a as int].instrs.last(), env) == Some(b)
            &&& ssa.blocks[c].successors().contains(b) ==> c == a
        }),
{
    let b = ssa.appendable(a).unwrap();
    let n = ssa.blocks.len();
    let next = ssa.blocks[a as int].successors();
    assert(next[0] == b);
    assert(next.contains(b));
    lemma_way_counts(ssa, b, n, a as int);
    if ssa.blocks[c].successors().contains(b) {
        if c < a {
            lemma_two_ways_count(ssa, b, n, c, a as int);
        } else if a < c {
            lemma_two_ways_count(ssa, b, n, a as int, c);
        }
    }
}

/// A phi node whose operand from one block comes from another has from there the value it had.
pub proof fn moved_operands_keep_their_value<T: Target>(
    phi: PhiView,
    from: usize,
    to: usize,
    p: usize,
)
    requires
        from != to,
        received(phi, to) is None,
    ensures
        received(phi.moved(from, to), to) == received(phi, from),
        p != from && p != to ==> received(phi.moved(from, to), p) == received(phi, p),
        phi.moved(from, to).result == phi.result,
{
    let old_ops = phi.operands;
    let new_ops = phi.moved(from, to).operands;
    lemma_received_none(old_ops, to, 0);
    if received(phi, from) is Some {
        let k = lemma_received_first(old_ops, from, 0);
        assert forall|j: int| 0 <= j < k implies (#[trigger] new_ops[j]).predecessor != to by {
            assert(old_ops[j].predecessor != from && old_ops[j].predecessor != to);
        }
        lemma_received_from(new_ops, to, 0, k);
    } else {
        lemma_received_none(old_ops, from, 0);
        lemma_received_none(new_ops, to, 0);
        assert forall|j: int| 0 <= j < new_ops.len() implies (#[trigger] new_ops[j]).predecessor
            != to by {
            assert(old_ops[j].predecessor != from && old_ops[j].predecessor != to);
        }
    }
    if p != from && p != to {
        if received(phi, p) is Some {
            let k = lemma_received_first(old_ops, p, 0);
            assert forall|j: int| 0 <= j < k implies (#[trigger] new_ops[j]).predecessor != p by {
                assert(old_ops[j].predecessor != p);
            }
            lemma_received_from(new_ops, p, 0, k);
        } else {
            lemma_received_none(old_ops, p, 0);
            lemma_received_none(new_ops, p, 0);
            assert forall|j: int| 0 <= j < new_ops.len() implies (#[trigger] new_ops[j]).predecessor
                != p by {
                assert(old_ops[j].predecessor != p);
            }
        }
    }
}

proof fn lemma_copied_phi<T: Target>(phis: Seq<PhiView>, n: nat, p: int)
    requires
        0 <= p < n <= phis.len(),
        phis[p].operands.len() > 0,
        phis[p].operands[0].value != phis[p].result,
    ensures
        blockmerge::phi_copies::<T>(phis, n).contains(
            Op::Copy { dest: phis[p].result, src: phis[p].operands[0].value },
        ),
    decreases n,
{
    let before = blockmerge::phi_copies::<T>(phis, (n - 1) as nat);
    let now = blockmerge::phi_copies::<T>(phis, n);
    let copy: OpView<T> = Op::Copy { dest: phis[p].result, src: phis[p].operands[0].value };
    if p < n - 1 {
        lemma_copied_phi::<T>(phis, (n - 1) as nat, p);
        let k = choose|k: int| 0 <= k < before.len() && before[k] == copy;
        assert(now[k] == copy);
    } else {
        assert(now[before.len() as int] == copy);
    }
}

proof fn lemma_copies_do_not_act<T: Target>(phis: Seq<PhiView>, n: nat, i: int)
    requires
        n <= phis.len(),
        0 <= i < blockmerge::phi_copies::<T>(phis, n).len(),
    ensures
        !steps::acts(blockmerge::phi_copies::<T>(phis, n)[i]),
    decreases n,
{
    let before = blockmerge::phi_copies::<T>(phis, (n - 1) as nat);
    if i < before.len() {
        lemma_copies_do_not_act::<T>(phis, (n - 1) as nat, i);
    }
}

/// A merged block does what the first block did before its jump, copies what the phi nodes of the
/// second had from the first, and then does what the second did, going where the second went; where
/// that was the second itself, control goes to the merged block.
pub proof fn merged_blocks_do_what_both_did<T: Target>(
    ssa: SsaView<T>,
    a: usize,
    p: int,
    env: spec_fn(SsaVarId) -> u64,
)
    requires
        a < ssa.blocks.len(),
        ssa.appendable(a) is Some,
    ensures
        ({
            let b = ssa.appendable(a).unwrap();
            let first = ssa.blocks[a as int];
            let second = ssa.blocks[b as int];
            let made = ssa.merged(a, b).blocks[a as int];
            let gap = made.instrs.len() - (first.instrs.len() - 1) - second.instrs.len();
            &&& made.phis == first.phis
            &&& gap >= 0
            &&& forall|i: int|
                0 <= i < first.instrs.len() - 1 ==> (#[trigger] made.instrs[i])
                    == first.instrs[i].redirected(b, a)
            &&& forall|i: int|
                0 <= i < gap ==> !steps::acts(
                    #[trigger] made.instrs[first.instrs.len() - 1 + i],
                )
            &&& forall|i: int|
                0 <= i < second.instrs.len() ==> (#[trigger] made.instrs[first.instrs.len() - 1
                    + gap + i]) == second.instrs[i].redirected(b, a)
            &&& match steps::next_block(second.instrs.last(), env) {
                Some(s) => steps::next_block(made.instrs.last(), env) == Some(
                    if s == b {
                        a
                    } else {
                        s
                    },
                ),
                None => steps::next_block(made.instrs.last(), env) is None,
            }
            &&& 0 <= p < second.phis.len() && second.phis[p].operands.len() > 0 && (forall|k: int|
                0 <= k < second.phis[p].operands.len() ==> (
                #[trigger] second.phis[p].operands[k]).predecessor == a) ==> received(
                second.phis[p],
                a,
            ) == Some(second.phis[p].result) || exists|i: int|
                0 <= i < gap && (#[trigger] made.instrs[first.instrs.len() - 1 + i]) == (Op::<
                    T,
                    Seq<usize>,
                    Seq<SsaVarId>,
                >::Copy { dest: second.phis[p].result, src: received(second.phis[p], a).unwrap() })
        }),
{
    let b = ssa.appendable(a).unwrap();
    appended_blocks_have_one_way_in(ssa, a, 0, env);
    let first = ssa.blocks[a as int];
    let second = ssa.blocks[b as int];
    let made = ssa.merged(a, b).blocks[a as int];
    let copies = blockmerge::phi_copies::<T>(second.phis, second.phis.len());
    let kept = first.instrs.drop_last();
    let plain = kept + copies + second.instrs;
    assert(made.instrs.len() == plain.len());
    assert forall|i: int| 0 <= i < copies.len() implies (#[trigger] made.instrs[kept.len() + i])
        == copies[i] by {
        lemma_copies_do_not_act::<T>(second.phis, second.phis.len(), i);
        assert(plain[kept.len() + i] == copies[i]);
        lemma_copy_is_copy::<T>(second.phis, second.phis.len(), i);
    }
    assert forall|i: int| 0 <= i < copies.len() implies !steps::acts(
        #[trigger] made.instrs[first.instrs.len() - 1 + i],
    ) by {
        lemma_copies_do_not_act::<T>(second.phis, second.phis.len(), i);
    }
    let last = second.instrs.len() - 1;
    assert(made.instrs.last() == second.instrs[last].redirected(b, a));
    lemma_redirected(second.instrs.last(), b, a, env);
    if 0 <= p < second.phis.len() && second.phis[p].operands.len() > 0 && (forall|k: int|
        0 <= k < second.phis[p].operands.len() ==> (
        #[trigger] second.phis[p].operands[k]).predecessor == a) {
        let phi = second.phis[p];
        lemma_received_from(phi.operands, a, 0, 0);
        if phi.operands[0].value != phi.result {
            lemma_copied_phi::<T>(second.phis, second.phis.len(), p);
            let copy: OpView<T> = Op::Copy { dest: phi.result, src: phi.operands[0].value };
            let i = choose|i: int| 0 <= i < copies.len() && copies[i] == copy;
            assert(made.instrs[first.instrs.len() - 1 + i] == copy);
        }
    }
}

proof fn lemma_copy_is_copy<T: Target>(phis: Seq<PhiView>, n: nat, i: int)
    requires
        n <= phis.len(),
        0 <= i < blockmerge::phi_copies::<T>(phis, n).len(),
    ensures
        blockmerge::phi_copies::<T>(phis, n)[i] is Copy,
    decreases n,
{
    let before = blockmerge::phi_copies::<T>(phis, (n - 1) as nat);
    if i < before.len() {
        lemma_copy_is_copy::<T>(phis, (n - 1) as nat, i);
    }
}

} // verus!
