//! Sweeping dead code away keeps what reachable blocks do and what their phi nodes receive.
use crate::analysis::steps;
use crate::ir::block::BlockView;
use crate::ir::function;
use crate::ir::function::SsaView;
use crate::ir::ops::{Op, OpView};
use crate::ir::phi::{PhiOperand, PhiView};
use crate::ir::variable::SsaVarId;
use crate::passes::deadcode;
use crate::passes::rerouting;
use crate::passes::rerouting::received;
use crate::seqs;
use crate::target::Target;
use vstd::prelude::*;

verus! {

proof fn lemma_sole_source(operands: Seq<PhiOperand>, result: SsaVarId, n: nat)
    requires
        n <= operands.len(),
    ensures
        match deadcode::sole_source(operands, result, n) {
            Some(Some(src)) => src != result && (forall|k: int|
                0 <= k < n ==> (#[trigger] operands[k]).value == src || operands[k].value == result)
                && exists|k: int| 0 <= k < n && (#[trigger] operands[k]).value == src,
            Some(None) => forall|k: int|
                0 <= k < n ==> (#[trigger] operands[k]).value == result,
            None => exists|j: int, k: int|
                0 <= j < k < n && (#[trigger] operands[j]).value != (
                #[trigger] operands[k]).value && operands[j].value != result && operands[k].value
                    != result,
        },
    decreases n,
{
    if n > 0 {
        lemma_sole_source(operands, result, (n - 1) as nat);
        let last = operands[n - 1];
        match deadcode::sole_source(operands, result, (n - 1) as nat) {
            Some(Some(src)) => {
                let k = choose|k: int| 0 <= k < n - 1 && (#[trigger] operands[k]).value == src;
                if last.value != result && last.value != src {
                    assert(operands[k].value != operands[n - 1].value);
                }
            },
            _ => {},
        }
    }
}

/// A phi node stands for one variable exactly where it receives, from wherever control comes, that
/// variable or its own old value, and it receives that variable from somewhere.
pub proof fn sources_are_all_that_is_received(phi: PhiView, src: SsaVarId, pred: usize)
    ensures
        phi.source() == Some(Some(src)) <==> src != phi.result && (exists|k: int|
            0 <= k < phi.operands.len() && (#[trigger] phi.operands[k]).value == src) && (forall|
            k: int,
        |
            0 <= k < phi.operands.len() ==> (#[trigger] phi.operands[k]).value == src
                || phi.operands[k].value == phi.result),
        phi.source() == Some(None::<SsaVarId>) <==> forall|k: int|
            0 <= k < phi.operands.len() ==> (#[trigger] phi.operands[k]).value == phi.result,
        phi.source() == Some(Some(src)) ==> (received(phi, pred) matches Some(x) ==> x == src || x
            == phi.result),
{
    lemma_sole_source(phi.operands, phi.result, phi.operands.len());
    if received(phi, pred) is Some {
        let k = rerouting::lemma_received_first(phi.operands, pred, 0);
    }
    let operands = phi.operands;
    if exists|k: int| 0 <= k < operands.len() && (#[trigger] operands[k]).value == src {
        let k = choose|k: int| 0 <= k < operands.len() && (#[trigger] operands[k]).value == src;
        assert(operands[k].value == src);
    }
}

proof fn lemma_pruned_operand(operands: Seq<PhiOperand>, reach: Seq<bool>, n: nat, q: usize, k: int) -> (m:
    int)
    requires
        0 <= k < n <= operands.len(),
        operands[k].predecessor == q,
        q < reach.len() && reach[q as int],
        forall|j: int| 0 <= j < k ==> (#[trigger] operands[j]).predecessor != q,
    ensures
        ({
            let kept = deadcode::reachable_operands(operands, reach, n);
            &&& 0 <= m < kept.len()
            &&& kept[m] == operands[k]
            &&& forall|j: int| 0 <= j < m ==> (#[trigger] kept[j]).predecessor != q
        }),
    decreases n,
{
    let before = deadcode::reachable_operands(operands, reach, (n - 1) as nat);
    if k < n - 1 {
        lemma_pruned_operand(operands, reach, (n - 1) as nat, q, k)
    } else {
        assert forall|j: int| 0 <= j < before.len() implies (#[trigger] before[j]).predecessor
            != q by {
            lemma_pruned_source(operands, reach, (n - 1) as nat, j);
        }
        before.len() as int
    }
}

proof fn lemma_pruned_source(operands: Seq<PhiOperand>, reach: Seq<bool>, n: nat, j: int) -> (k: int)
    requires
        n <= operands.len(),
        0 <= j < deadcode::reachable_operands(operands, reach, n).len(),
    ensures
        0 <= k < n,
        deadcode::reachable_operands(operands, reach, n)[j] == operands[k],
        operands[k].predecessor < reach.len() && reach[operands[k].predecessor as int],
    decreases n,
{
    let before = deadcode::reachable_operands(operands, reach, (n - 1) as nat);
    if j < before.len() {
        lemma_pruned_source(operands, reach, (n - 1) as nat, j)
    } else {
        n - 1
    }
}

/// A pruned phi node receives from every block that control reaches what it received, and nothing
/// from any other.
pub proof fn pruned_phis_receive_the_same(phi: PhiView, reach: Seq<bool>, q: usize)
    ensures
        q < reach.len() && reach[q as int] ==> received(phi.pruned(reach), q) == received(phi, q),
        !(q < reach.len() && reach[q as int]) ==> received(phi.pruned(reach), q) is None,
        phi.pruned(reach).result == phi.result,
{
    let kept = phi.pruned(reach).operands;
    let reached = q < reach.len() && reach[q as int];
    if reached && received(phi, q) is Some {
        let k = rerouting::lemma_received_first(phi.operands, q, 0);
        let m = lemma_pruned_operand(phi.operands, reach, phi.operands.len(), q, k);
        rerouting::lemma_received_from(kept, q, 0, m);
    } else {
        rerouting::lemma_received_none(phi.operands, q, 0);
        rerouting::lemma_received_none(kept, q, 0);
        assert forall|j: int| 0 <= j < kept.len() implies (#[trigger] kept[j]).predecessor
            != q by {
            lemma_pruned_source(phi.operands, reach, phi.operands.len(), j);
        }
    }
}

/// Putting a function in order keeps what its blocks do.
proof fn lemma_order_keeps_deeds<T: Target>(ssa: SsaView<T>, changed: bool, b: int)
    requires
        0 <= b < ssa.blocks.len(),
    ensures
        ({
            let was = ssa.blocks[b];
            let now = ssa.in_order(changed).blocks[b];
            &&& ssa.in_order(changed).blocks.len() == ssa.blocks.len()
            &&& steps::acting(now.instrs, now.instrs.len()) == steps::acting(
                was.instrs,
                was.instrs.len(),
            )
            &&& now.phis == was.phis
            &&& was.instrs.len() == 0 ==> now.instrs.len() == 0
        }),
{
    steps::lemma_acting_stripped(ssa.blocks[b].instrs, ssa.blocks[b].instrs.len());
}

proof fn lemma_source_copies_idle<T: Target>(phis: Seq<PhiView>, n: nat, i: int)
    requires
        n <= phis.len(),
        0 <= i < deadcode::source_copies::<T>(phis, n).len(),
    ensures
        !steps::acts(deadcode::source_copies::<T>(phis, n)[i]),
    decreases n,
{
    let before = deadcode::source_copies::<T>(phis, (n - 1) as nat);
    if i < before.len() {
        lemma_source_copies_idle::<T>(phis, (n - 1) as nat, i);
    }
}

proof fn lemma_sources_keep_deeds<T: Target>(block: BlockView<T>)
    ensures
        ({
            let now = block.with_sources();
            steps::acting(now.instrs, now.instrs.len()) == steps::acting(
                block.instrs,
                block.instrs.len(),
            )
        }),
{
    let copies = deadcode::source_copies::<T>(block.phis, block.phis.len());
    assert forall|i: int| 0 <= i < copies.len() implies !steps::acts(#[trigger] copies[i]) by {
        lemma_source_copies_idle::<T>(block.phis, block.phis.len(), i);
    }
    steps::lemma_acting_add(copies, block.instrs, block.instrs.len());
    steps::lemma_acting_idle(copies, copies.len());
    assert(Seq::<OpView<T>>::empty() + steps::acting(block.instrs, block.instrs.len())
        =~= steps::acting(block.instrs, block.instrs.len()));
}

/// Tidying keeps what every block does that control reaches, in order, and leaves nothing in the
/// others.
pub proof fn tidying_keeps_deeds<T: Target>(ssa: SsaView<T>, method: T::MethodRef, b: int)
    requires
        0 <= b < ssa.blocks.len(),
    ensures
        ({
            let was = ssa.blocks[b].instrs;
            let now = ssa.tidied(method).ssa.blocks[b].instrs;
            &&& ssa.tidied(method).ssa.blocks.len() == ssa.blocks.len()
            &&& ssa.reachable()[b] ==> steps::acting(now, now.len()) == steps::acting(
                was,
                was.len(),
            )
            &&& !ssa.reachable()[b] ==> now.len() == 0
        }),
{
    let reach = ssa.reachable();
    let emptied = SsaView {
        blocks: Seq::new(
            ssa.blocks.len(),
            |b: int|
                if ssa.is_emptied(reach, b) {
                    ssa.blocks[b].emptied()
                } else {
                    ssa.blocks[b]
                },
        ),
        ..ssa
    };
    let a = ssa.without_unreachable(reach, method);
    lemma_order_keeps_deeds(emptied, a.events.len() > 0, b);
    let opless = seqs::flat(a.ssa.opless_in(reach), a.ssa.blocks.len());
    lemma_order_keeps_deeds(a.ssa, opless.len() > 0, b);
    let s = a.ssa.without_opless(reach, method).ssa;
    let nops = deadcode::total(s.nops_in(reach), s.blocks.len());
    lemma_order_keeps_deeds(s, nops > 0, b);
    let c = s.without_nops(reach, method).ssa;
    let pruned = SsaView {
        blocks: c.blocks.map_values(|b: BlockView<T>| b.pruned(reach)),
        ..c
    };
    let strays = deadcode::total(c.strays_in(reach), c.blocks.len());
    lemma_order_keeps_deeds(pruned, strays > 0, b);
    let d = c.without_strays(reach).ssa;
    let sourced = SsaView {
        blocks: Seq::new(
            d.blocks.len(),
            |b: int|
                if reach[b] {
                    d.blocks[b].with_sources()
                } else {
                    d.blocks[b]
                },
        ),
        ..d
    };
    let e = d.with_phi_sources(reach, method);
    lemma_order_keeps_deeds(sourced, e.events.len() > 0, b);
    if reach[b] {
        lemma_sources_keep_deeds(d.blocks[b]);
    }
}

/// Removing what nothing needs keeps what every block does, in order.
pub proof fn removing_the_unneeded_keeps_deeds<T: Target>(
    ssa: SsaView<T>,
    method: T::MethodRef,
    b: int,
)
    requires
        0 <= b < ssa.blocks.len(),
    ensures
        ({
            let was = ssa.blocks[b].instrs;
            let now = ssa.without_unneeded(method).ssa.blocks[b].instrs;
            &&& ssa.without_unneeded(method).ssa.blocks.len() == ssa.blocks.len()
            &&& steps::acting(now, now.len()) == steps::acting(was, was.len())
        }),
{
    let reach = ssa.reachable();
    let live = ssa.live(reach);
    let a = ssa.without_dead_phis(reach, live, method);
    let fewer = SsaView {
        blocks: Seq::new(
            ssa.blocks.len(),
            |b: int|
                if reach[b] {
                    ssa.blocks[b].with_phis(
                        deadcode::live_phis(
                            ssa.blocks[b].phis,
                            live,
                            ssa.blocks[b].phis.len(),
                        ),
                    )
                } else {
                    ssa.blocks[b]
                },
        ),
        ..ssa
    };
    lemma_order_keeps_deeds(fewer, a.events.len() > 0, b);
    let dead_phis = ssa.dead_phis(reach, live);
    let gone = a.ssa.dead_defs(reach, live) + dead_phis;
    let c = a.ssa.without_dead_defs(reach, live, dead_phis, method);
    let swept = SsaView {
        blocks: Seq::new(
            a.ssa.blocks.len(),
            |b: int|
                if reach[b] {
                    a.ssa.blocks[b].without_dead(live, gone)
                } else {
                    a.ssa.blocks[b]
                },
        ),
        ..a.ssa
    };
    lemma_order_keeps_deeds(swept, c.events.len() > 0, b);
    if reach[b] {
        lemma_swept_keeps_deeds(a.ssa.blocks[b].instrs, live, gone, a.ssa.blocks[b].instrs.len());
    }
}

proof fn lemma_swept_keeps_deeds<T: Target>(
    instrs: Seq<OpView<T>>,
    live: Seq<bool>,
    gone: Seq<usize>,
    n: nat,
)
    requires
        n <= instrs.len(),
    ensures
        steps::acting(
            instrs.map_values(
                |op: OpView<T>|
                    if deadcode::is_dead_op(op, live, gone) {
                        Op::Nop
                    } else {
                        op
                    },
            ),
            n,
        ) == steps::acting(instrs, n),
    decreases n,
{
    if n > 0 {
        lemma_swept_keeps_deeds(instrs, live, gone, (n - 1) as nat);
        let op = instrs[n - 1];
        if op.pure() {
            steps::pure_operations_do_not_act(op);
        }
    }
}

/// A round of dead code elimination keeps what every block does that control reaches, in order.
pub proof fn eliminating_dead_code_keeps_deeds<T: Target>(
    ssa: SsaView<T>,
    method: T::MethodRef,
    b: int,
)
    requires
        0 <= b < ssa.blocks.len(),
        ssa.reachable()[b],
    ensures
        ({
            let was = ssa.blocks[b].instrs;
            let now = ssa.dead_code_removed_once(method).ssa.blocks[b].instrs;
            steps::acting(now, now.len()) == steps::acting(was, was.len())
        }),
{
    tidying_keeps_deeds(ssa, method, b);
    removing_the_unneeded_keeps_deeds(ssa.tidied(method).ssa, method, b);
}

proof fn lemma_phi_or_copy<T: Target>(phis: Seq<PhiView>, n: nat, p: int)
    requires
        0 <= p < n <= phis.len(),
    ensures
        match phis[p].source() {
            None => deadcode::merging_phis(phis, n).contains(phis[p]),
            Some(Some(src)) => deadcode::source_copies::<T>(phis, n).contains(
                Op::Copy { dest: phis[p].result, src },
            ),
            Some(None) => true,
        },
    decreases n,
{
    let phis_before = deadcode::merging_phis(phis, (n - 1) as nat);
    let phis_now = deadcode::merging_phis(phis, n);
    let before = deadcode::source_copies::<T>(phis, (n - 1) as nat);
    let now = deadcode::source_copies::<T>(phis, n);
    if p < n - 1 {
        lemma_phi_or_copy::<T>(phis, (n - 1) as nat, p);
        match phis[p].source() {
            None => {
                let k = choose|k: int| 0 <= k < phis_before.len() && phis_before[k] == phis[p];
                assert(phis_now[k] == phis[p]);
            },
            Some(Some(src)) => {
                let copy: OpView<T> = Op::Copy { dest: phis[p].result, src };
                let k = choose|k: int| 0 <= k < before.len() && before[k] == copy;
                assert(now[k] == copy);
            },
            Some(None) => {},
        }
    } else {
        match phis[p].source() {
            None => {
                assert(phis_now[phis_before.len() as int] == phis[p]);
            },
            Some(Some(src)) => {
                let copy: OpView<T> = Op::Copy { dest: phis[p].result, src };
                assert(now[before.len() as int] == copy);
            },
            Some(None) => {},
        }
    }
}

/// A light repair keeps what every block does, and every phi node stays, becomes a copy of the one
/// variable that it receives, or received nothing but itself.
pub proof fn light_repair_keeps_values<T: Target>(ssa: SsaView<T>, b: int, p: int)
    requires
        0 <= b < ssa.blocks.len(),
        0 <= p < ssa.blocks[b].phis.len(),
    ensures
        ({
            let phi = ssa.blocks[b].phis[p];
            let was = ssa.blocks[b].instrs;
            let now = ssa.lightly_repaired().blocks[b];
            &&& steps::acting(now.instrs, now.instrs.len()) == steps::acting(was, was.len())
            &&& now.phis.contains(phi) || (exists|src: SsaVarId|
                (forall|k: int|
                    0 <= k < phi.operands.len() ==> (#[trigger] phi.operands[k]).value == src
                        || phi.operands[k].value == phi.result) && #[trigger] now.instrs.contains(
                    Op::Copy { dest: phi.result, src },
                )) || (forall|k: int|
                0 <= k < phi.operands.len() ==> (#[trigger] phi.operands[k]).value == phi.result)
        }),
{
    let block = ssa.blocks[b];
    let phi = block.phis[p];
    let copies = deadcode::source_copies::<T>(block.phis, block.phis.len());
    lemma_sources_keep_deeds(block);
    lemma_order_keeps_deeds(ssa.without_trivial_phis(), true, b);
    lemma_phi_or_copy::<T>(block.phis, block.phis.len(), p);
    lemma_sole_source(phi.operands, phi.result, phi.operands.len());
    if let Some(Some(src)) = phi.source() {
        let copy: OpView<T> = Op::Copy { dest: phi.result, src };
        let plain = copies + block.instrs;
        let k = choose|k: int| 0 <= k < copies.len() && copies[k] == copy;
        assert(plain[k] == copy);
        lemma_kept(plain, plain.len(), k);
        assert(ssa.lightly_repaired().blocks[b].instrs.contains(copy));
    }
}

proof fn lemma_kept<T: Target>(instrs: Seq<OpView<T>>, n: nat, k: int)
    requires
        0 <= k < n <= instrs.len(),
        !(instrs[k] is Nop),
    ensures
        function::without_nops(instrs, n).contains(instrs[k]),
    decreases n,
{
    let before = function::without_nops(instrs, (n - 1) as nat);
    let now = function::without_nops(instrs, n);
    if k < n - 1 {
        lemma_kept(instrs, (n - 1) as nat, k);
        let j = choose|j: int| 0 <= j < before.len() && before[j] == instrs[k];
        assert(now[j] == instrs[k]);
    } else {
        assert(now[before.len() as int] == instrs[k]);
    }
}

} // verus!
