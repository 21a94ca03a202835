//! Leading several ways through one block changes neither where control comes nor what it brings.
use crate::analysis::steps;
use crate::ir::function;
use crate::ir::function::SsaView;
use crate::ir::ops::{Op, OpView};
use crate::ir::phi::{PhiOperand, PhiView};
use crate::ir::variable::SsaVarId;
use crate::passes::loopcanon;
use crate::passes::rerouting;
use crate::passes::rerouting::received;
use crate::target::Target;
use vstd::prelude::*;

verus! {

/// An operand that is kept is the one that comes first from its predecessor, if it was before.
proof fn lemma_kept_operand(
    operands: Seq<PhiOperand>,
    preds: Seq<usize>,
    from: bool,
    n: nat,
    q: usize,
    k: int,
) -> (m: int)
    requires
        0 <= k < n <= operands.len(),
        operands[k].predecessor == q,
        preds.contains(q) == from,
        forall|j: int| 0 <= j < k ==> (#[trigger] operands[j]).predecessor != q,
    ensures
        ({
            let kept = loopcanon::operands_from(operands, preds, from, n);
            &&& 0 <= m < kept.len()
            &&& kept[m] == operands[k]
            &&& forall|j: int| 0 <= j < m ==> (#[trigger] kept[j]).predecessor != q
        }),
    decreases n,
{
    let before = loopcanon::operands_from(operands, preds, from, (n - 1) as nat);
    if k < n - 1 {
        lemma_kept_operand(operands, preds, from, (n - 1) as nat, q, k)
    } else {
        assert forall|j: int| 0 <= j < before.len() implies (#[trigger] before[j]).predecessor
            != q by {
            lemma_kept_source(operands, preds, from, (n - 1) as nat, j);
        }
        before.len() as int
    }
}

proof fn lemma_kept_source(
    operands: Seq<PhiOperand>,
    preds: Seq<usize>,
    from: bool,
    n: nat,
    j: int,
) -> (k: int)
    requires
        n <= operands.len(),
        0 <= j < loopcanon::operands_from(operands, preds, from, n).len(),
    ensures
        0 <= k < n,
        loopcanon::operands_from(operands, preds, from, n)[j] == operands[k],
        preds.contains(operands[k].predecessor) == from,
    decreases n,
{
    let before = loopcanon::operands_from(operands, preds, from, (n - 1) as nat);
    if j < before.len() {
        lemma_kept_source(operands, preds, from, (n - 1) as nat, j)
    } else {
        n - 1
    }
}

/// What comes from a predecessor is the same among the operands that are kept.
proof fn lemma_kept_received(phi: PhiView, preds: Seq<usize>, from: bool, q: usize)
    requires
        preds.contains(q) == from,
    ensures
        received(
            PhiView {
                operands: loopcanon::operands_from(
                    phi.operands,
                    preds,
                    from,
                    phi.operands.len(),
                ),
                ..phi
            },
            q,
        ) == received(phi, q),
{
    let kept = loopcanon::operands_from(phi.operands, preds, from, phi.operands.len());
    if received(phi, q) is Some {
        let k = rerouting::lemma_received_first(phi.operands, q, 0);
        let m = lemma_kept_operand(phi.operands, preds, from, phi.operands.len(), q, k);
        rerouting::lemma_received_from(kept, q, 0, m);
    } else {
        rerouting::lemma_received_none(phi.operands, q, 0);
        rerouting::lemma_received_none(kept, q, 0);
        assert forall|j: int| 0 <= j < kept.len() implies (#[trigger] kept[j]).predecessor
            != q by {
            lemma_kept_source(phi.operands, preds, from, phi.operands.len(), j);
        }
    }
}

proof fn lemma_pushed_received(phi: PhiView, operand: PhiOperand, q: usize)
    ensures
        ({
            let more = PhiView { operands: phi.operands.push(operand), ..phi };
            &&& received(phi, q) is Some ==> received(more, q) == received(phi, q)
            &&& received(phi, q) is None ==> received(more, q) == (if operand.predecessor == q {
                Some(operand.value)
            } else {
                None
            })
        }),
{
    let more = phi.operands.push(operand);
    if received(phi, q) is Some {
        let k = rerouting::lemma_received_first(phi.operands, q, 0);
        rerouting::lemma_received_from(more, q, 0, k);
    } else {
        rerouting::lemma_received_none(phi.operands, q, 0);
        rerouting::lemma_received_none(more, q, 0);
        assert forall|j: int| 0 <= j < phi.operands.len() implies (#[trigger] more[j]).predecessor
            != q by {
            assert(phi.operands[j].predecessor != q);
        }
        if operand.predecessor == q {
            rerouting::lemma_received_from(more, q, 0, phi.operands.len() as int);
        }
    }
}

/// Phi node `p` has its own among the merged phi nodes where it merges several operands.
proof fn lemma_merged_phi(
    phis: Seq<PhiView>,
    preds: Seq<usize>,
    base: nat,
    n: nat,
    p: int,
) -> (m: int)
    requires
        0 <= p < n <= phis.len(),
        phis[p].coming_from(preds).len() > 1,
    ensures
        ({
            let merged = loopcanon::merged_phis(phis, preds, base, n);
            &&& 0 <= m < merged.len()
            &&& merged[m].result == loopcanon::merged_var(phis, preds, base, p)
            &&& merged[m].operands == phis[p].coming_from(preds)
        }),
    decreases n,
{
    if p < n - 1 {
        lemma_merged_phi(phis, preds, base, (n - 1) as nat, p)
    } else {
        loopcanon::merged_phis(phis, preds, base, (n - 1) as nat).len() as int
    }
}

proof fn lemma_merges_bound(phis: Seq<PhiView>, preds: Seq<usize>, n: nat)
    ensures
        loopcanon::merges(phis, preds, n) <= n,
    decreases n,
{
    if n > 0 {
        lemma_merges_bound(phis, preds, (n - 1) as nat);
    }
}

/// What a phi node had from one of the predecessors that are led through the new block it has from
/// the new block: the same variable, or a new one that a phi node of the new block gives the value
/// of that variable where control comes from that predecessor. What it had from any other
/// predecessor it still has.
pub proof fn funnelled_phis_receive_the_same<T: Target>(
    ssa: SsaView<T>,
    h: usize,
    preds: Seq<usize>,
    p: int,
    q: usize,
)
    requires
        h < ssa.blocks.len() <= usize::MAX,
        0 <= p < ssa.blocks[h as int].phis.len(),
        ssa.vars.len() + ssa.blocks[h as int].phis.len() <= usize::MAX,
        !preds.contains(ssa.blocks.len() as usize),
        received(ssa.blocks[h as int].phis[p], ssa.blocks.len() as usize) is None,
        q != ssa.blocks.len(),
    ensures
        ({
            let n = ssa.blocks.len();
            let next = ssa.funnelled(h, preds);
            let was = ssa.blocks[h as int].phis[p];
            let now = next.blocks[h as int].phis[p];
            let funnel = next.blocks[n as int];
            &&& next.blocks.len() == n + 1
            &&& next.blocks[h as int].phis.len() == ssa.blocks[h as int].phis.len()
            &&& now.result == was.result
            &&& !preds.contains(q) ==> received(now, q) == received(was, q)
            &&& preds.contains(q) ==> (received(was, q) matches Some(x) ==> {
                ||| received(now, n as usize) == Some(x)
                ||| exists|m: int|
                    0 <= m < funnel.phis.len() && received(now, n as usize) == Some(
                        (#[trigger] funnel.phis[m]).result,
                    ) && received(funnel.phis[m], q) == Some(x) && funnel.phis[m].result.0
                        >= ssa.vars.len()
            })
        }),
{
    let n = ssa.blocks.len();
    let next = ssa.funnelled(h, preds);
    let phis = ssa.blocks[h as int].phis;
    let was = phis[p];
    let now = next.blocks[h as int].phis[p];
    let base = ssa.vars.len();
    let operand = PhiOperand {
        value: loopcanon::funnelled_var(phis, preds, base, p),
        predecessor: n as usize,
    };
    assert(now == was.regrouped(preds, operand));
    let from = was.coming_from(preds);
    let rest = PhiView {
        operands: loopcanon::operands_from(was.operands, preds, false, was.operands.len()),
        ..was
    };
    lemma_kept_received(was, preds, false, n as usize);
    if !preds.contains(q) {
        lemma_kept_received(was, preds, false, q);
        lemma_pushed_received(rest, operand, q);
    } else if received(was, q) is Some {
        let x = received(was, q).unwrap();
        let k = rerouting::lemma_received_first(was.operands, q, 0);
        let m = lemma_kept_operand(was.operands, preds, true, was.operands.len(), q, k);
        assert(from.len() > 0);
        lemma_pushed_received(rest, operand, n as usize);
        if from.len() > 1 {
            let m2 = lemma_merged_phi(phis, preds, base, phis.len(), p);
            let funnel = next.blocks[n as int];
            assert(funnel.phis == loopcanon::merged_phis(phis, preds, base, phis.len()));
            lemma_kept_received(was, preds, true, q);
            let kept = PhiView { operands: from, ..was };
            assert(received(funnel.phis[m2], q) == received(kept, q));
            lemma_merges_bound(phis, preds, p as nat);
        } else {
            assert(m == 0);
        }
    }
}

proof fn lemma_last_kept<T: Target>(instrs: Seq<OpView<T>>)
    requires
        instrs.len() > 0,
        instrs.last() != Op::<T, Seq<usize>, Seq<SsaVarId>>::Nop,
    ensures
        function::without_nops(instrs, instrs.len()).len() > 0,
        function::without_nops(instrs, instrs.len()).last() == instrs.last(),
{
}

/// Control that went from one of the predecessors to the block goes to the new block and from there
/// to the block. Every other way is as it was.
pub proof fn funnelled_ways_lead_to_the_same<T: Target>(
    ssa: SsaView<T>,
    h: usize,
    preds: Seq<usize>,
    b: usize,
    env: spec_fn(SsaVarId) -> u64,
)
    requires
        h < ssa.blocks.len() < usize::MAX,
        b < ssa.blocks.len(),
        ssa.blocks[b as int].instrs.len() > 0,
        steps::next_block(ssa.blocks[b as int].instrs.last(), env) is Some,
    ensures
        ({
            let n = ssa.blocks.len();
            let next = ssa.funnelled(h, preds);
            let s = steps::next_block(ssa.blocks[b as int].instrs.last(), env);
            let t = steps::next_block(next.blocks[b as int].instrs.last(), env);
            &&& next.blocks[b as int].instrs.len() > 0
            &&& preds.contains(b) && s == Some(h) ==> t == Some(n as usize)
            &&& !(preds.contains(b) && s == Some(h)) ==> t == s
            &&& next.blocks[n as int].instrs.len() == 1
            &&& steps::next_block(next.blocks[n as int].instrs.last(), env) == Some(h)
        }),
{
    let n = ssa.blocks.len();
    let next = ssa.funnelled(h, preds);
    let was = ssa.blocks[b as int].instrs;
    let plain = if preds.contains(b) {
        ssa.blocks[b as int].with_end_redirected(h, n as usize).instrs
    } else {
        was
    };
    rerouting::lemma_redirected(was.last(), h, n as usize, env);
    assert(plain.last() != Op::<T, Seq<usize>, Seq<SsaVarId>>::Nop);
    assert(next.blocks[b as int].instrs == function::without_nops(plain, plain.len()));
    lemma_last_kept(plain);
    let jump = seq![Op::<T, Seq<usize>, Seq<SsaVarId>>::Jump { target: h }];
    assert(next.blocks[n as int].instrs == function::without_nops(jump, jump.len()));
    reveal_with_fuel(function::without_nops, 2);
}

/// Every block does before its end what it did before, and the new block does nothing but lead on.
pub proof fn funnelling_keeps_deeds<T: Target>(
    ssa: SsaView<T>,
    h: usize,
    preds: Seq<usize>,
    b: usize,
    env: spec_fn(SsaVarId) -> u64,
)
    requires
        h < ssa.blocks.len() < usize::MAX,
        b < ssa.blocks.len(),
        ssa.blocks[b as int].instrs.len() > 0,
        steps::next_block(ssa.blocks[b as int].instrs.last(), env) is Some,
    ensures
        ({
            let was = ssa.blocks[b as int].instrs;
            let now = ssa.funnelled(h, preds).blocks[b as int].instrs;
            &&& steps::acting(now, now.len()).len() > 0
            &&& steps::acting(now, now.len()).drop_last() == steps::acting(
                was,
                was.len(),
            ).drop_last()
            &&& b != h ==> ssa.funnelled(h, preds).blocks[b as int].phis
                == ssa.blocks[b as int].phis
        }),
{
    let n = ssa.blocks.len();
    let next = ssa.funnelled(h, preds);
    let was = ssa.blocks[b as int].instrs;
    let plain = if preds.contains(b) {
        ssa.blocks[b as int].with_end_redirected(h, n as usize).instrs
    } else {
        was
    };
    let now = next.blocks[b as int].instrs;
    assert(now == function::without_nops(plain, plain.len()));
    steps::lemma_acting_stripped(plain, plain.len());
    steps::lemma_acting_prefix(was, plain, (was.len() - 1) as nat);
    rerouting::lemma_redirected(was.last(), h, n as usize, env);
    let early = steps::acting(was, (was.len() - 1) as nat);
    assert(steps::acting(was, was.len()) == early.push(was.last()));
    assert(steps::acting(plain, plain.len()) == early.push(plain.last()));
    assert(early.push(was.last()).drop_last() =~= early);
    assert(early.push(plain.last()).drop_last() =~= early);
}

} // verus!
