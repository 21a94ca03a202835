//! Reading what a copy is a copy of changes no value.
use crate::analysis::meaning;
use crate::analysis::steps;
use crate::ir::block::BlockView;
use crate::ir::function::SsaView;
use crate::ir::ops::{Op, OpView};
use crate::ir::renaming;
use crate::ir::variable::SsaVarId;
use crate::passes::rerouting;
use crate::passes::rerouting::received;
use crate::target::Target;
use vstd::prelude::*;

verus! {

/// A copy that is propagated is not read, in the block that defines what takes its place, before it
/// is defined there.
pub proof fn propagated_copies_are_not_read_early<T: Target>(
    ssa: SsaView<T>,
    d: usize,
    b: int,
    i: int,
    j: int,
)
    requires
        ssa.resolved_copies().contains_key(d),
        ssa.definition(SsaVarId(ssa.resolved_copies()[d])) == Some((b, i)),
        0 <= j < i,
    ensures
        !ssa.blocks[b].instrs[j].uses().contains(SsaVarId(d)),
{
    let s = ssa.resolved_copies()[d];
    assert(!ssa.is_read_early(d, s));
    assert(!ssa.blocks[b].reads_before(SsaVarId(d), i));
}

/// A copy into an argument or a local variable from elsewhere is propagated only where the address of
/// that variable is taken nowhere.
pub proof fn propagated_slots_have_no_address<T: Target>(
    ssa: SsaView<T>,
    d: usize,
    b: int,
    i: int,
)
    requires
        ssa.resolved_copies().contains_key(d),
        ssa.has_instr(b, i),
        ssa.slot(SsaVarId(d)) is Some,
        ssa.slot(SsaVarId(ssa.copies()[d])) != ssa.slot(SsaVarId(d)),
    ensures
        match ssa.blocks[b].instrs[i] {
            Op::LoadLocalAddr { local_index, .. } => Some(ssa.num_args + local_index) != ssa.slot(
                SsaVarId(d),
            ),
            _ => true,
        },
{
    assert(!ssa.is_sole_def(d, ssa.copies()[d]));
    let slot = ssa.slot(SsaVarId(d)).unwrap();
    assert(!ssa.address_taken(slot));
    assert(!ssa.takes_address(slot, b, i));
}

proof fn lemma_reading_received<T: Target>(
    block: BlockView<T>,
    p: int,
    v: SsaVarId,
    to: SsaVarId,
    q: usize,
    env: spec_fn(SsaVarId) -> u64,
)
    requires
        0 <= p < block.phis.len(),
        env(v) == env(to),
    ensures
        ({
            let was = block.phis[p];
            let now = block.propagating(v, to).phis[p];
            &&& now.result == was.result
            &&& match received(was, q) {
                Some(x) => received(now, q) matches Some(y) && env(y) == env(x),
                None => received(now, q) is None,
            }
        }),
{
    let was = block.phis[p];
    let now = block.propagating(v, to).phis[p];
    if was.result != to {
        assert(now == was.reading(v, to));
        if received(was, q) is Some {
            let k = rerouting::lemma_received_first(was.operands, q, 0);
            assert forall|j: int| 0 <= j < k implies (#[trigger] now.operands[j]).predecessor
                != q by {
                assert(was.operands[j].predecessor != q);
            }
            rerouting::lemma_received_from(now.operands, q, 0, k);
        } else {
            rerouting::lemma_received_none(was.operands, q, 0);
            rerouting::lemma_received_none(now.operands, q, 0);
            assert forall|j: int|
                0 <= j < now.operands.len() implies (#[trigger] now.operands[j]).predecessor
                != q by {
                assert(was.operands[j].predecessor != q);
            }
        }
    }
}

proof fn lemma_same_way<T: Target>(
    op: OpView<T>,
    v: SsaVarId,
    to: SsaVarId,
    env: spec_fn(SsaVarId) -> u64,
)
    requires
        env(v) == env(to),
    ensures
        steps::next_block(op.reading(v, to), env) == steps::next_block(op, env),
        steps::acts(op.reading(v, to)) == steps::acts(op),
{
}

/// Where every propagated copy has the value of what takes its place, every instruction computes the
/// same, goes to the same block and assigns the same variables, and every phi node receives variables
/// of the same values.
pub proof fn propagating_keeps_values<T: Target>(
    ssa: SsaView<T>,
    copies: Map<usize, usize>,
    list: Seq<usize>,
    n: nat,
    b: int,
    i: int,
    q: usize,
    env: spec_fn(SsaVarId) -> u64,
    args: spec_fn(usize) -> u64,
)
    requires
        n <= list.len(),
        0 <= b < ssa.blocks.len(),
        forall|k: int|
            0 <= k < n ==> env(SsaVarId(#[trigger] list[k])) == env(SsaVarId(copies[list[k]])),
    ensures
        ({
            let next = ssa.propagated(copies, list, n).ssa;
            let was = ssa.blocks[b];
            let now = next.blocks[b];
            &&& next.blocks.len() == ssa.blocks.len()
            &&& now.instrs.len() == was.instrs.len()
            &&& now.phis.len() == was.phis.len()
            &&& 0 <= i < was.instrs.len() ==> {
                &&& meaning::result(now.instrs[i], env, args) == meaning::result(
                    was.instrs[i],
                    env,
                    args,
                )
                &&& steps::next_block(now.instrs[i], env) == steps::next_block(was.instrs[i], env)
                &&& steps::acts(now.instrs[i]) == steps::acts(was.instrs[i])
                &&& now.instrs[i].defs() == was.instrs[i].defs()
            }
            &&& 0 <= i < was.phis.len() ==> {
                &&& now.phis[i].result == was.phis[i].result
                &&& match received(was.phis[i], q) {
                    Some(x) => received(now.phis[i], q) matches Some(y) && env(y) == env(x),
                    None => received(now.phis[i], q) is None,
                }
            }
        }),
    decreases n,
{
    if n > 0 {
        propagating_keeps_values(ssa, copies, list, (n - 1) as nat, b, i, q, env, args);
        let before = ssa.propagated(copies, list, (n - 1) as nat).ssa;
        let v = SsaVarId(list[n - 1]);
        let to = SsaVarId(copies[list[n - 1]]);
        assert(env(v) == env(to));
        if 0 <= i < before.blocks[b].instrs.len() {
            let op = before.blocks[b].instrs[i];
            meaning::equal_operands_compute_the_same(op, v, to, env, args);
            renaming::lemma_reading(op, v, to);
            lemma_same_way(op, v, to, env);
        }
        if 0 <= i < before.blocks[b].phis.len() {
            lemma_reading_received(before.blocks[b], i, v, to, q, env);
        }
    }
}

/// A copy is given up only where it is a copy to one of the given variables, and everything else
/// stays.
pub proof fn only_copies_are_given_up<T: Target>(
    ssa: SsaView<T>,
    list: Seq<usize>,
    n: nat,
    b: int,
    i: int,
)
    requires
        n <= list.len(),
        ssa.has_instr(b, i),
    ensures
        ({
            let next = ssa.without_copies(list, n);
            let was = ssa.blocks[b].instrs[i];
            let now = next.blocks[b].instrs[i];
            &&& next.has_instr(b, i)
            &&& next.blocks[b].phis == ssa.blocks[b].phis
            &&& now == was || now is Nop && was is Copy && (exists|k: int|
                0 <= k < n && was.result() == Some(SsaVarId(#[trigger] list[k])))
        }),
    decreases n,
{
    if n > 0 {
        only_copies_are_given_up(ssa, list, (n - 1) as nat, b, i);
        let was = ssa.blocks[b].instrs[i];
        let before = ssa.without_copies(list, (n - 1) as nat).blocks[b].instrs[i];
        if before == was {
            assert(list[n - 1] == list[n - 1]);
        }
    }
}

/// No instruction and no phi node reads `v`.
pub open spec fn nothing_reads<T: Target>(ssa: SsaView<T>, v: SsaVarId) -> bool {
    &&& forall|b: int, i: int|
        ssa.has_instr(b, i) ==> !(#[trigger] ssa.blocks[b].instrs[i]).uses().contains(v)
    &&& forall|b: int, p: int|
        0 <= b < ssa.blocks.len() && 0 <= p < ssa.blocks[b].phis.len() ==> !(
        #[trigger] ssa.blocks[b].phis[p]).values().contains(v)
}

/// A variable counts as fully propagated only where nothing reads it after its propagation.
pub proof fn fully_propagated_copies_are_unread<T: Target>(
    ssa: SsaView<T>,
    copies: Map<usize, usize>,
    list: Seq<usize>,
    n: nat,
    v: usize,
)
    requires
        n <= list.len(),
        ssa.propagated(copies, list, n).full.contains(v),
    ensures
        exists|m: nat|
            0 < m <= n && list[m - 1] == v && nothing_reads(
                (#[trigger] ssa.propagated(copies, list, m)).ssa,
                SsaVarId(v),
            ),
    decreases n,
{
    if n > 0 {
        let before = ssa.propagated(copies, list, (n - 1) as nat);
        let now = ssa.propagated(copies, list, n);
        if before.full.contains(v) {
            fully_propagated_copies_are_unread(ssa, copies, list, (n - 1) as nat, v);
        } else {
            let k = choose|k: int| 0 <= k < now.full.len() && now.full[k] == v;
            if k < before.full.len() {
                assert(before.full[k] == v);
            }
            let at = now.ssa;
            assert(!at.is_read(SsaVarId(v)));
            assert forall|b: int, i: int| at.has_instr(b, i) implies !(
            #[trigger] at.blocks[b].instrs[i]).uses().contains(SsaVarId(v)) by {
                assert(at.blocks[b].no_instr_reads(SsaVarId(v), -1));
            }
            assert forall|b: int, p: int|
                0 <= b < at.blocks.len() && 0 <= p < at.blocks[b].phis.len() implies !(
            #[trigger] at.blocks[b].phis[p]).values().contains(SsaVarId(v)) by {
                assert(at.blocks[b].no_phi_reads(SsaVarId(v)));
            }
            assert(list[n - 1] == v);
            assert(nothing_reads(ssa.propagated(copies, list, n).ssa, SsaVarId(v)));
        }
    }
}

} // verus!
