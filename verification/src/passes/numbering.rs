//! Values that are taken from where they were computed first are the same values.
use crate::analysis::closure;
use crate::analysis::loops;
use crate::analysis::meaning;
use crate::analysis::steps;
use crate::ir::function::SsaView;
use crate::ir::ops::{Op, OpView};
use crate::ir::renaming;
use crate::ir::variable::SsaVarId;
use crate::passes::gvn;
use crate::passes::gvn::{Redundancy, ValueKey};
use crate::seqs;
use crate::target::Target;
use vstd::prelude::*;

verus! {

proof fn lemma_first_keyed<T: Target>(
    ssa: SsaView<T>,
    places: Seq<(usize, usize)>,
    key: ValueKey,
    n: nat,
)
    requires
        n <= places.len(),
    ensures
        ssa.first_keyed(places, key, n) matches Some(p) ==> exists|j: int|
            0 <= j < n && #[trigger] places[j] == p && gvn::key_of(ssa.op_at(p)) is Some
                && gvn::key_of(ssa.op_at(p)).unwrap().0 == key,
        ssa.first_keyed(places, key, n) is None ==> forall|j: int|
            0 <= j < n ==> (gvn::key_of(ssa.op_at(#[trigger] places[j])) matches Some(k) ==> k.0
                != key),
    decreases n,
{
    if n > 0 {
        lemma_first_keyed(ssa, places, key, (n - 1) as nat);
        if ssa.first_keyed(places, key, (n - 1) as nat) is None {
            assert(places[n - 1] == places[n - 1]);
        }
    }
}

/// A computation that counts as made before is made at an earlier place too, of the same operands,
/// and the two results are those of the two operations.
pub proof fn redundancies_repeat_an_earlier_computation<T: Target>(
    ssa: SsaView<T>,
    r: Redundancy,
    env: spec_fn(SsaVarId) -> u64,
    args: spec_fn(usize) -> u64,
)
    requires
        ssa.redundancies().contains(r),
    ensures
        ssa.op_at(r.place).result() == Some(r.var),
        ssa.op_at(r.origin).result() == Some(r.original),
        meaning::result(ssa.op_at(r.place), env, args) == meaning::result(
            ssa.op_at(r.origin),
            env,
            args,
        ),
        exists|j: int, k: int|
            0 <= j < k < ssa.places().len() && #[trigger] ssa.places()[j] == r.origin
                && #[trigger] ssa.places()[k] == r.place,
{
    let places = ssa.places();
    let k = seqs::lemma_flat_source(ssa.redundancy_at(places), places.len(), r);
    let piece = (ssa.redundancy_at(places))(k);
    let m = choose|m: int| 0 <= m < piece.len() && piece[m] == r;
    let (key, var) = gvn::key_of(ssa.op_at(places[k])).unwrap();
    assert(gvn::key_of(ssa.op_at(places[k])) is Some);
    lemma_first_keyed(ssa, places, key, k as nat);
    let origin = ssa.first_keyed(places, key, k as nat).unwrap();
    assert(r.origin == origin && r.place == places[k] && r.var == var);
    gvn::equal_keys_compute_equal_values(ssa.op_at(r.place), ssa.op_at(r.origin), env, args);
    let j = choose|j: int| 0 <= j < k && #[trigger] places[j] == origin;
    assert(places[j] == r.origin && places[k] == r.place);
}

/// Where every variable is assigned once, a redundant variable holds what the original one holds.
pub proof fn redundant_variables_hold_the_original_value<T: Target>(
    ssa: SsaView<T>,
    r: Redundancy,
    env: spec_fn(SsaVarId) -> u64,
    args: spec_fn(usize) -> u64,
)
    requires
        ssa.redundancies().contains(r),
        ssa.admits(env, args),
        ssa.def_op(r.var) == Some(ssa.op_at(r.place)),
        ssa.def_op(r.original) == Some(ssa.op_at(r.origin)),
        meaning::result(ssa.op_at(r.place), env, args) is Some,
    ensures
        env(r.var) == env(r.original),
{
    redundancies_repeat_an_earlier_computation(ssa, r, env, args);
    assert(ssa.allows(env, args, r.var));
    assert(ssa.allows(env, args, r.original));
}

/// Uses of a redundant variable read the original one exactly where that was computed before:
/// earlier in the same block, or in another block that control has always passed.
pub proof fn forwarded_uses_come_after_the_origin<T: Target>(
    ssa: SsaView<T>,
    flow: SsaView<T>,
    r: Redundancy,
    b: usize,
    i: int,
    way: Seq<usize>,
)
    requires
        ssa.has_instr(b as int, i),
        closure::is_walk(flow.blocks.len(), seq![0usize], flow.edges(), way),
        way.last() == b,
    ensures
        ({
            let was = ssa.blocks[b as int].instrs[i];
            let now = ssa.forwarded(flow, r).blocks[b as int].instrs[i];
            &&& now == was || now == was.reading(r.var, r.original)
            &&& now != was && b != r.origin.0 ==> way.contains(r.origin.0)
            &&& now != was && b == r.origin.0 ==> r.origin.1 < i
            &&& b == r.origin.0 && r.origin.1 < i && r.var != r.original ==> !now.uses().contains(
                r.var,
            )
            &&& b != r.origin.0 && flow.dominates(r.origin.0, b) && r.var != r.original
                ==> !now.uses().contains(r.var)
            &&& ssa.forwarded(flow, r).blocks[b as int].phis == ssa.blocks[b as int].phis
        }),
{
    let was = ssa.blocks[b as int].instrs[i];
    let now = ssa.forwarded(flow, r).blocks[b as int].instrs[i];
    if now != was && b != r.origin.0 {
        loops::dominators_are_passed(flow, r.origin.0, b, way);
    }
    renaming::lemma_reading_uses(was, r.var, r.original);
    if r.var != r.original {
        let read = was.reading(r.var, r.original).uses();
        assert forall|k: int| 0 <= k < read.len() implies read[k] != r.var by {}
    }
}

/// Every instruction computes from the original values what it computed from the redundant ones.
pub proof fn forwarding_keeps_results<T: Target>(
    ssa: SsaView<T>,
    list: Seq<Redundancy>,
    n: nat,
    b: int,
    i: int,
    env: spec_fn(SsaVarId) -> u64,
    args: spec_fn(usize) -> u64,
)
    requires
        n <= list.len(),
        ssa.has_instr(b, i),
        forall|k: int|
            0 <= k < n ==> env((#[trigger] list[k]).var) == env(list[k].original),
    ensures
        ({
            let next = ssa.all_forwarded(list, n).ssa;
            let was = ssa.blocks[b].instrs[i];
            let now = next.blocks[b].instrs[i];
            &&& next.has_instr(b, i)
            &&& next.blocks[b].phis == ssa.blocks[b].phis
            &&& meaning::result(now, env, args) == meaning::result(was, env, args)
            &&& steps::next_block(now, env) == steps::next_block(was, env)
            &&& steps::acts(now) == steps::acts(was)
            &&& now.defs() == was.defs()
        }),
    decreases n,
{
    if n > 0 {
        forwarding_keeps_results(ssa, list, (n - 1) as nat, b, i, env, args);
        let before = ssa.all_forwarded(list, (n - 1) as nat).ssa;
        let op = before.blocks[b].instrs[i];
        let r = list[n - 1];
        assert(env(r.var) == env(r.original));
        meaning::equal_operands_compute_the_same(op, r.var, r.original, env, args);
        renaming::lemma_reading(op, r.var, r.original);
        lemma_reading_goes_the_same_way(op, r.var, r.original, env);
    }
}

proof fn lemma_reading_goes_the_same_way<T: Target>(
    op: OpView<T>,
    v: SsaVarId,
    to: SsaVarId,
    env: spec_fn(SsaVarId) -> u64,
)
    requires
        env(v) == env(to),
    ensures
        steps::next_block(op.reading(v, to), env) == steps::next_block(op, env),
        steps::acts(op.reading(v, to)) == steps::acts(op),
{
}

proof fn lemma_without_unread_shape<T: Target>(
    ssa: SsaView<T>,
    from: SsaView<T>,
    list: Seq<Redundancy>,
    n: nat,
    b: int,
)
    requires
        n <= list.len(),
        0 <= b < ssa.blocks.len(),
        forall|k: int|
            0 <= k < list.len() ==> ssa.has_instr(
                (#[trigger] list[k]).place.0 as int,
                list[k].place.1 as int,
            ),
    ensures
        ({
            let next = ssa.without_unread(from, list, n);
            &&& next.blocks.len() == ssa.blocks.len()
            &&& next.blocks[b].instrs.len() == ssa.blocks[b].instrs.len()
            &&& next.blocks[b].phis == ssa.blocks[b].phis
        }),
    decreases n,
{
    if n > 0 {
        lemma_without_unread_shape(ssa, from, list, (n - 1) as nat, b);
        let p = list[n - 1].place;
        assert(ssa.has_instr(p.0 as int, p.1 as int));
        lemma_without_unread_shape(ssa, from, list, (n - 1) as nat, p.0 as int);
    }
}

/// A computation is given up only where it was made before and nothing reads its result, and it is
/// one that does no more than compute, or divides.
pub proof fn given_up_computations_are_unread<T: Target>(
    ssa: SsaView<T>,
    from: SsaView<T>,
    n: nat,
    list: Seq<Redundancy>,
    b: int,
    i: int,
)
    requires
        n <= list.len(),
        ssa.has_instr(b, i),
        forall|k: int|
            0 <= k < list.len() ==> ssa.has_instr(
                (#[trigger] list[k]).place.0 as int,
                list[k].place.1 as int,
            ) && gvn::key_of(ssa.op_at(list[k].place)) is Some && ssa.op_at(list[k].place).result() == Some(list[k].var),
    ensures
        ({
            let was = ssa.blocks[b].instrs[i];
            let next = ssa.without_unread(from, list, n);
            let now = next.blocks[b].instrs[i];
            &&& next.has_instr(b, i)
            &&& next.blocks[b].phis == ssa.blocks[b].phis
            &&& now != was ==> {
                &&& now == Op::<T, Seq<usize>, Seq<SsaVarId>>::Nop
                &&& !steps::acts(was) || was is Div || was is Rem
                &&& was.result() is Some
                &&& forall|c: int, j: int|
                    from.has_instr(c, j) ==> !(
                    #[trigger] from.blocks[c].instrs[j]).uses().contains(was.result().unwrap())
                &&& forall|c: int, p: int|
                    0 <= c < from.blocks.len() && 0 <= p < from.blocks[c].phis.len() ==> !(
                    #[trigger] from.blocks[c].phis[p]).values().contains(was.result().unwrap())
            }
        }),
    decreases n,
{
    if n > 0 {
        given_up_computations_are_unread(ssa, from, (n - 1) as nat, list, b, i);
        let r = list[n - 1];
        assert(ssa.has_instr(r.place.0 as int, r.place.1 as int));
        lemma_without_unread_shape(ssa, from, list, (n - 1) as nat, r.place.0 as int);
        if r.place.0 == b && r.place.1 == i && !from.is_read(r.var) {
            assert(gvn::key_of(ssa.op_at(r.place)) is Some);
            assert(from.read_only_at(r.var, -1, -1));
            assert forall|c: int, j: int| from.has_instr(c, j) implies !(
            #[trigger] from.blocks[c].instrs[j]).uses().contains(r.var) by {
                assert(from.blocks[c].no_instr_reads(r.var, -1));
            }
            assert forall|c: int, p: int|
                0 <= c < from.blocks.len() && 0 <= p < from.blocks[c].phis.len() implies !(
            #[trigger] from.blocks[c].phis[p]).values().contains(r.var) by {
                assert(from.blocks[c].no_phi_reads(r.var));
            }
        }
    }
}

} // verus!
