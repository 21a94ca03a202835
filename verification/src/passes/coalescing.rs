//! Merging blocks keeps what they do, where control goes, and what phi nodes receive.
use crate::analysis::steps;
use crate::ir::function::SsaView;
use crate::ir::variable::SsaVarId;
use crate::passes::blockmerge;
use crate::passes::rerouting;
use crate::passes::rerouting::received;
use crate::target::Target;
use vstd::prelude::*;

verus! {

/// Blocks are not merged across the border of a protected region: the first ends none, nor a
/// handler, and none begins at the second, nor a handler or a filter.
pub proof fn appended_blocks_stay_in_their_region<T: Target>(ssa: SsaView<T>, a: usize, h: int)
    requires
        a < ssa.blocks.len(),
        ssa.appendable(a) is Some,
        0 <= h < ssa.handlers.len(),
    ensures
        ssa.handlers[h].try_end_block != Some(a),
        ssa.handlers[h].handler_end_block != Some(a),
        ssa.handlers[h].try_start_block != ssa.appendable(a),
        ssa.handlers[h].handler_start_block != ssa.appendable(a),
        ssa.handlers[h].filter_start_block != ssa.appendable(a),
{
    assert(!blockmerge::region_ends(ssa.handlers, a));
    assert(!blockmerge::region_begins(ssa.handlers, ssa.appendable(a).unwrap()));
}

/// Merging two blocks leaves the instructions of every other block, whose phi nodes receive from the
/// merged block what they received from the second, and from elsewhere what they received. The
/// second block is empty.
pub proof fn merging_leaves_other_blocks<T: Target>(
    ssa: SsaView<T>,
    a: usize,
    b: usize,
    k: int,
    p: int,
    q: usize,
)
    requires
        a < ssa.blocks.len(),
        b < ssa.blocks.len(),
        a != b,
        0 <= k < ssa.blocks.len(),
        k != a,
        k != b,
        0 <= p < ssa.blocks[k].phis.len(),
        received(ssa.blocks[k].phis[p], a) is None,
        q != a,
        q != b,
    ensures
        ({
            let next = ssa.merged(a, b);
            let was = ssa.blocks[k];
            let now = next.blocks[k];
            &&& now.instrs == was.instrs
            &&& now.phis.len() == was.phis.len()
            &&& now.phis[p].result == was.phis[p].result
            &&& received(now.phis[p], a) == received(was.phis[p], b)
            &&& received(now.phis[p], q) == received(was.phis[p], q)
            &&& next.blocks[b as int].instrs.len() == 0
            &&& next.blocks[b as int].phis.len() == 0
        }),
{
    rerouting::moved_operands_keep_their_value::<T>(ssa.blocks[k].phis[p], b, a, q);
}

proof fn lemma_pair_source<T: Target>(ssa: SsaView<T>, n: nat, k: int)
    requires
        n <= ssa.blocks.len() <= usize::MAX,
        0 <= k < ssa.merge_pairs(n).len(),
    ensures
        ({
            let pairs = ssa.merge_pairs(n);
            &&& pairs[k].0 < n
            &&& ssa.appendable(pairs[k].0) == Some(pairs[k].1)
            &&& forall|j: int|
                0 <= j < k ==> (#[trigger] pairs[j]).0 < pairs[k].0 && pairs[j].1 != pairs[k].0
        }),
    decreases n,
{
    let before = ssa.merge_pairs((n - 1) as nat);
    let pairs = ssa.merge_pairs(n);
    if k < before.len() {
        lemma_pair_source(ssa, (n - 1) as nat, k);
        assert forall|j: int| 0 <= j < k implies (#[trigger] pairs[j]).0 < pairs[k].0
            && pairs[j].1 != pairs[k].0 by {
            assert(before[j] == pairs[j]);
        }
    } else {
        assert forall|j: int| 0 <= j < k implies (#[trigger] pairs[j]).0 < pairs[k].0
            && pairs[j].1 != pairs[k].0 by {
            lemma_pair_source(ssa, (n - 1) as nat, j);
            assert(before[j] == pairs[j]);
            assert(!blockmerge::pairs_hold(before, pairs[k].0));
        }
    }
}

/// The pairs of blocks that are merged are such that the first always goes to the second and nothing
/// else does; no block is appended twice, and none to one that was appended before.
pub proof fn merged_pairs_follow_each_other<T: Target>(
    ssa: SsaView<T>,
    j: int,
    k: int,
    c: int,
    env: spec_fn(SsaVarId) -> u64,
)
    requires
        ssa.blocks.len() <= usize::MAX,
        0 <= k < ssa.merge_pairs(ssa.blocks.len()).len(),
        0 <= j < k,
        0 <= c < ssa.blocks.len(),
    ensures
        ({
            let pairs = ssa.merge_pairs(ssa.blocks.len());
            let (a, b) = pairs[k];
            &&& a < ssa.blocks.len() && b < ssa.blocks.len() && a != b && b != 0
            &&& steps::next_block(ssa.blocks[a as int].instrs.last(), env) == Some(b)
            &&& ssa.blocks[c].successors().contains(b) ==> c == a
            &&& pairs[j].0 != a
            &&& pairs[j].1 != a
            &&& pairs[j].1 != b
        }),
{
    let n = ssa.blocks.len();
    let pairs = ssa.merge_pairs(n);
    lemma_pair_source(ssa, n, k);
    lemma_pair_source(ssa, n, j);
    rerouting::appended_blocks_have_one_way_in(ssa, pairs[k].0, c, env);
    rerouting::appended_blocks_have_one_way_in(ssa, pairs[k].0, pairs[j].0 as int, env);
    rerouting::appended_blocks_have_one_way_in(ssa, pairs[j].0, 0, env);
    steps::next_is_a_successor(ssa.blocks[pairs[j].0 as int].instrs.last(), env);
}

/// In the round that bypasses blocks every other block keeps its instructions but for where they go,
/// which is the end of where they went.
pub proof fn bypassing_keeps_instructions<T: Target>(
    ssa: SsaView<T>,
    method: T::MethodRef,
    b: int,
    i: int,
    env: spec_fn(SsaVarId) -> u64,
)
    requires
        ssa.blocks.len() <= usize::MAX,
        ssa.has_instr(b, i),
        !ssa.trampolines(true).contains_key(b as usize),
        rerouting::ends_are_final(ssa.jump_ends(true)),
    ensures
        ({
            let ends = ssa.jump_ends(true);
            let next = ssa.bypassed(method).ssa;
            let was = ssa.blocks[b].instrs[i];
            let now = next.blocks[b].instrs[i];
            &&& next.blocks.len() == ssa.blocks.len()
            &&& next.blocks[b].instrs.len() == ssa.blocks[b].instrs.len()
            &&& now.uses() == was.uses()
            &&& now.defs() == was.defs()
            &&& match steps::next_block(was, env) {
                Some(s) => steps::next_block(now, env) == Some(
                    if s < ends.len() {
                        ends[s as int]
                    } else {
                        s
                    },
                ),
                None => steps::next_block(now, env) is None,
            }
        }),
{
    let ends = ssa.jump_ends(true);
    let was = ssa.blocks[b].instrs[i];
    rerouting::bypassing_jumps_come_to_the_end(was, ends, env);
    rerouting::lemma_spread_shape(
        ssa.with_jumps_bypassing(ends),
        ends,
        ssa.all_bypassing(ends),
        ssa.blocks.len(),
        b,
    );
}

/// An entry block that only jumps on takes over what the block it jumps to does only where that is the
/// only way there and nothing is received on it. The entry then goes where that block went.
pub proof fn inlined_entries_do_what_follows<T: Target>(
    ssa: SsaView<T>,
    method: T::MethodRef,
    i: int,
    env: spec_fn(SsaVarId) -> u64,
)
    requires
        ssa.blocks.len() > 0,
        ssa.with_entry_inlined(method).ssa != ssa,
        ssa.blocks[0].instrs.len() > 0,
    ensures
        steps::next_block(ssa.blocks[0].instrs.last(), env) is Some,
        ({
            let t = steps::next_block(ssa.blocks[0].instrs.last(), env).unwrap();
            let next = ssa.with_entry_inlined(method).ssa;
            let was = ssa.blocks[t as int];
            let now = next.blocks[0];
            &&& t < ssa.blocks.len()
            &&& ssa.predecessors(t) == seq![0usize]
            &&& ssa.blocks[0].instrs.len() == 1
            &&& was.phis.len() == 0
            &&& t != 0 ==> now.instrs.len() == was.instrs.len()
            &&& t != 0 && 0 <= i < was.instrs.len() ==> {
                &&& now.instrs[i] == was.instrs[i].redirected(t, 0)
                &&& match steps::next_block(was.instrs[i], env) {
                    Some(s) => steps::next_block(now.instrs[i], env) == Some(
                        if s == t {
                            0
                        } else {
                            s
                        },
                    ),
                    None => steps::next_block(now.instrs[i], env) is None,
                }
            }
        }),
{
    let t = ssa.blocks[0].trampoline().unwrap();
    assert(ssa.blocks[0].trampoline() is Some);
    if 0 <= i < ssa.blocks[t as int].instrs.len() {
        rerouting::lemma_redirected(ssa.blocks[t as int].instrs[i], t, 0, env);
    }
}

} // verus!
