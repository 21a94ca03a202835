//! Simplified control flow comes to the same blocks and does the same on the way.
use crate::analysis::steps;
use crate::ir::function;
use crate::ir::function::SsaView;
use crate::ir::ops::{Op, OpView};
use crate::ir::variable::SsaVarId;
use crate::passes::deadcode;
use crate::passes::rerouting;
use crate::passes::utils;
use crate::target::Target;
use vstd::prelude::*;

verus! {

/// The block that control comes to from block `t` through `n` blocks that hold no phi nodes and
/// nothing but a jump.
pub open spec fn jumped<T: Target>(
    ssa: SsaView<T>,
    t: usize,
    n: nat,
    env: spec_fn(SsaVarId) -> u64,
) -> Option<usize>
    decreases n,
{
    if n == 0 {
        Some(t)
    } else {
        match jumped(ssa, t, (n - 1) as nat, env) {
            Some(s) => if s < ssa.blocks.len() && ssa.blocks[s as int].phis.len() == 0
                && ssa.blocks[s as int].instrs.len() == 1 {
                steps::next_block(ssa.blocks[s as int].instrs[0], env)
            } else {
                None
            },
            None => None,
        }
    }
}

proof fn lemma_walks_are_jumps<T: Target>(
    ssa: SsaView<T>,
    skip_entry: bool,
    t: usize,
    n: nat,
    env: spec_fn(SsaVarId) -> u64,
) -> (m: nat)
    ensures
        jumped(ssa, t, m, env) == Some(utils::walk(ssa.trampolines(skip_entry), t, n)),
    decreases n,
{
    if n == 0 {
        0
    } else {
        let m = lemma_walks_are_jumps(ssa, skip_entry, t, (n - 1) as nat, env);
        let map = ssa.trampolines(skip_entry);
        let s = utils::walk(map, t, (n - 1) as nat);
        if map.contains_key(s) {
            rerouting::trampolines_only_jump(ssa, skip_entry, s, env);
            m + 1
        } else {
            m
        }
    }
}

/// Control that comes to a block comes to its end, through blocks that only jump.
pub proof fn ends_are_reached_by_jumps<T: Target>(
    ssa: SsaView<T>,
    skip_entry: bool,
    t: int,
    env: spec_fn(SsaVarId) -> u64,
)
    requires
        0 <= t < ssa.blocks.len() <= usize::MAX,
    ensures
        exists|m: nat| #[trigger]
            jumped(ssa, t as usize, m, env) == Some(ssa.jump_ends(skip_entry)[t]),
{
    let map = ssa.trampolines(skip_entry);
    let s: usize = t as usize;
    if map.contains_key(s) {
        chain_ends_are_reached_by_jumps(ssa, skip_entry, s, env);
    } else {
        assert(jumped(ssa, t as usize, 0, env) == Some(ssa.jump_ends(skip_entry)[t]));
    }
}

/// The same of chains of jumps: control that comes to a block comes to the end of its chain.
pub proof fn chain_ends_are_reached_by_jumps<T: Target>(
    ssa: SsaView<T>,
    skip_entry: bool,
    s: usize,
    env: spec_fn(SsaVarId) -> u64,
)
    ensures
        exists|m: nat| #[trigger]
            jumped(ssa, s, m, env) == Some(utils::chain_end(ssa.trampolines(skip_entry), s)),
{
    let map = ssa.trampolines(skip_entry);
    let n = choose|n: nat| utils::ends_at(map, s, n);
    let m = lemma_walks_are_jumps(ssa, skip_entry, s, n, env);
}

proof fn lemma_stripped_end<T: Target>(instrs: Seq<OpView<T>>)
    requires
        instrs.len() > 0,
        !(instrs.last() is Nop),
    ensures
        ({
            let kept = function::without_nops(instrs, instrs.len());
            &&& kept.len() > 0
            &&& kept.last() == instrs.last()
            &&& steps::acting(kept, kept.len()) == steps::acting(instrs, instrs.len())
        }),
{
    steps::lemma_acting_stripped(instrs, instrs.len());
}

/// The last instruction of a simplified block goes to the end of where it went, or, where it became a
/// jump, to where that jump goes. What the block does before is the same.
pub proof fn simplified_blocks_come_to_the_same<T: Target>(
    ssa: SsaView<T>,
    method: T::MethodRef,
    b: int,
    env: spec_fn(SsaVarId) -> u64,
)
    requires
        0 <= b < ssa.blocks.len() <= usize::MAX,
        rerouting::ends_are_final(ssa.jump_ends(false)),
        ssa.blocks[b].instrs.len() > 0,
        steps::next_block(ssa.blocks[b].instrs.last(), env) is Some,
        deadcode::dead_from(ssa.blocks[b].instrs, ssa.blocks[b].instrs.len()) is None,
    ensures
        ({
            let ends = ssa.jump_ends(false);
            let was = ssa.blocks[b].instrs;
            let now = ssa.flow_simplified_once(method).ssa.blocks[b].instrs;
            let s = steps::next_block(was.last(), env).unwrap();
            &&& now.len() > 0
            &&& match ssa.same_target(b) {
                Some(t) => steps::next_block(now.last(), env) == Some(t),
                None => steps::next_block(now.last(), env) == Some(
                    if s < ends.len() {
                        ends[s as int]
                    } else {
                        s
                    },
                ),
            }
            &&& steps::acting(now, now.len()).len() > 0
            &&& steps::acting(now, now.len()).drop_last() == steps::acting(
                was,
                was.len(),
            ).drop_last()
        }),
{
    let ends = ssa.jump_ends(false);
    let was = ssa.blocks[b].instrs;
    let n = was.len();
    rerouting::bypassing_jumps_come_to_the_end(was.last(), ends, env);
    steps::next_is_a_successor(was.last(), env);
    let s = steps::next_block(was.last(), env).unwrap();
    if s < ends.len() && ends[s as int] != s {
        rerouting::jumps_to_bypassed_blocks_are_noted(was.last(), ends, s as int);
        assert(ssa.is_threaded(ends, b));
    }
    let threaded = ssa.with_threaded_ends(ends);
    rerouting::lemma_spread_shape(
        threaded,
        ends,
        ssa.all_threading(ends),
        ssa.blocks.len(),
        b,
    );
    let a = ssa.with_jumps_threaded().blocks[b].instrs;
    assert(a == threaded.blocks[b].instrs);
    assert(a.len() == n);
    let c = ssa.with_jumps_threaded().with_same_targets(ssa).blocks[b].instrs;
    assert(c.len() == n);
    let d = ssa.with_jumps_threaded().with_same_targets(ssa).without_dead_tails(ssa);
    assert((ssa.tail_length())(b) == 0);
    assert(d.blocks[b].instrs =~= c);
    assert(!(c.last() is Nop));
    lemma_stripped_end(c);
    steps::lemma_acting_prefix(was, c, (n - 1) as nat);
    let early = steps::acting(was, (n - 1) as nat);
    assert(steps::acting(was, n) == early.push(was.last()));
    assert(steps::acting(c, n) == early.push(c.last()));
    assert(early.push(was.last()).drop_last() =~= early);
    assert(early.push(c.last()).drop_last() =~= early);
}

/// Where code stands behind an operation that ends the block, the block ends with that operation,
/// and does before it what it did.
pub proof fn shortened_blocks_do_the_same<T: Target>(ssa: SsaView<T>, method: T::MethodRef, b: int)
    requires
        0 <= b < ssa.blocks.len() <= usize::MAX,
        deadcode::dead_from(ssa.blocks[b].instrs, ssa.blocks[b].instrs.len()) is Some,
    ensures
        exists|i: int|
            #![trigger ssa.blocks[b].instrs[i]]
            0 <= i < ssa.blocks[b].instrs.len() - 1 && {
                let was = ssa.blocks[b].instrs;
                let now = ssa.flow_simplified_once(method).ssa.blocks[b].instrs;
                &&& was[i].ends_block()
                &&& forall|j: int| 0 <= j < i ==> !(#[trigger] was[j]).ends_block()
                &&& now.len() > 0
                &&& now.last() == was[i]
                &&& steps::acting(now, now.len()) == steps::acting(was, (i + 1) as nat)
            },
{
    let ends = ssa.jump_ends(false);
    let was = ssa.blocks[b].instrs;
    let n = was.len();
    deadcode::dead_code_follows_first_end(was, n);
    let k = deadcode::dead_from(was, n).unwrap();
    let threaded = ssa.with_threaded_ends(ends);
    rerouting::lemma_spread_shape(threaded, ends, ssa.all_threading(ends), ssa.blocks.len(), b);
    let a = ssa.with_jumps_threaded().blocks[b].instrs;
    assert(a == threaded.blocks[b].instrs);
    let c = ssa.with_jumps_threaded().with_same_targets(ssa).blocks[b].instrs;
    let d = ssa.with_jumps_threaded().with_same_targets(ssa).without_dead_tails(ssa);
    assert((ssa.tail_length())(b) == n - k);
    let e = d.blocks[b].instrs;
    assert(e =~= was.take(k));
    assert(e.last() == was[k - 1]);
    lemma_stripped_end(e);
    steps::lemma_acting_prefix(e, was, k as nat);
    let now = ssa.flow_simplified_once(method).ssa.blocks[b].instrs;
    lemma_some_events(ssa, method, b);
    assert(now == function::without_nops(e, e.len()));
    assert(was[k - 1].ends_block());
}

proof fn lemma_some_events<T: Target>(ssa: SsaView<T>, method: T::MethodRef, b: int)
    requires
        0 <= b < ssa.blocks.len(),
        (ssa.tail_length())(b) > 0,
    ensures
        ssa.flow_simplified_once(method).count > 0,
{
    lemma_total_at_least(ssa.tail_length(), ssa.blocks.len(), b);
}

proof fn lemma_total_at_least(f: spec_fn(int) -> nat, n: nat, b: int)
    requires
        0 <= b < n,
    ensures
        deadcode::total(f, n) >= f(b),
    decreases n,
{
    if b < n - 1 {
        lemma_total_at_least(f, (n - 1) as nat, b);
    }
}

} // verus!
