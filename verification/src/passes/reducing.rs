//! Operations whose strength is reduced compute the same.
use crate::analysis::defuse;
use crate::analysis::meaning;
use crate::ir::block::BlockView;
use crate::ir::function;
use crate::ir::function::SsaView;
use crate::ir::ops::{Op, OpView};
use crate::ir::phi::PhiView;
use crate::ir::variable::{SsaVarId, UseSite};
use crate::passes::predicates;
use crate::passes::regrouping;
use crate::passes::strength;
use crate::passes::strength::ReductionCandidate;
use crate::target::Target;
use vstd::prelude::*;

verus! {

proof fn lemma_read_is_a_site(reads: Seq<SsaVarId>, v: SsaVarId, site: UseSite, n: nat, k: int)
    requires
        0 <= k < n <= reads.len(),
        reads[k] == v,
    ensures
        function::read_sites(reads, v, site, n).contains(site),
    decreases n,
{
    let before = function::read_sites(reads, v, site, (n - 1) as nat);
    let now = function::read_sites(reads, v, site, n);
    if k < n - 1 {
        lemma_read_is_a_site(reads, v, site, (n - 1) as nat, k);
        let j = choose|j: int| 0 <= j < before.len() && before[j] == site;
        assert(now[j] == site);
    } else {
        assert(now[before.len() as int] == site);
    }
}

proof fn lemma_two_reads(reads: Seq<SsaVarId>, v: SsaVarId, site: UseSite, n: nat, k: int, l: int)
    requires
        0 <= k < l < n <= reads.len(),
        reads[k] == v,
        reads[l] == v,
    ensures
        function::read_sites(reads, v, site, n).len() >= 2,
    decreases n,
{
    if l < n - 1 {
        lemma_two_reads(reads, v, site, (n - 1) as nat, k, l);
    } else {
        lemma_read_is_a_site(reads, v, site, (n - 1) as nat, k);
    }
}

proof fn lemma_in_instrs<T: Target>(
    instrs: Seq<OpView<T>>,
    b: usize,
    v: SsaVarId,
    n: nat,
    i: usize,
    site: UseSite,
)
    requires
        i < n <= instrs.len(),
        site == (UseSite { block: b, instruction: i, is_phi_operand: false }),
    ensures
        function::instr_sites(instrs, b, v, n).len() >= function::read_sites(
            instrs[i as int].uses(),
            v,
            site,
            instrs[i as int].uses().len(),
        ).len(),
        instrs[i as int].uses().contains(v) ==> function::instr_sites(instrs, b, v, n).contains(
            site,
        ),
    decreases n,
{
    let before = function::instr_sites(instrs, b, v, (n - 1) as nat);
    let now = function::instr_sites(instrs, b, v, n);
    if i < n - 1 {
        lemma_in_instrs(instrs, b, v, (n - 1) as nat, i, site);
        if instrs[i as int].uses().contains(v) {
            let j = choose|j: int| 0 <= j < before.len() && before[j] == site;
            assert(now[j] == site);
        }
    } else {
        let reads = instrs[i as int].uses();
        if reads.contains(v) {
            let k = choose|k: int| 0 <= k < reads.len() && reads[k] == v;
            lemma_read_is_a_site(reads, v, site, reads.len(), k);
            let last = function::read_sites(reads, v, site, reads.len());
            let j = choose|j: int| 0 <= j < last.len() && last[j] == site;
            assert(now[before.len() + j] == site);
        }
    }
}

proof fn lemma_in_phis(phis: Seq<PhiView>, b: usize, v: SsaVarId, n: nat, p: usize, site: UseSite)
    requires
        p < n <= phis.len(),
        site == (UseSite { block: b, instruction: p, is_phi_operand: true }),
        phis[p as int].values().contains(v),
    ensures
        function::phi_sites(phis, b, v, n).contains(site),
    decreases n,
{
    let before = function::phi_sites(phis, b, v, (n - 1) as nat);
    let now = function::phi_sites(phis, b, v, n);
    if p < n - 1 {
        lemma_in_phis(phis, b, v, (n - 1) as nat, p, site);
        let j = choose|j: int| 0 <= j < before.len() && before[j] == site;
        assert(now[j] == site);
    } else {
        let reads = phis[p as int].values();
        let k = choose|k: int| 0 <= k < reads.len() && reads[k] == v;
        lemma_read_is_a_site(reads, v, site, reads.len(), k);
        let last = function::read_sites(reads, v, site, reads.len());
        let j = choose|j: int| 0 <= j < last.len() && last[j] == site;
        assert(now[before.len() + j] == site);
    }
}

proof fn lemma_in_blocks<T: Target>(blocks: Seq<BlockView<T>>, v: SsaVarId, n: nat, b: usize, i: usize)
    requires
        b < n <= blocks.len(),
    ensures
        i < blocks[b as int].instrs.len() ==> ({
            let reads = blocks[b as int].instrs[i as int].uses();
            let site = UseSite { block: b, instruction: i, is_phi_operand: false };
            &&& function::block_sites(blocks, v, n).len() >= function::read_sites(
                reads,
                v,
                site,
                reads.len(),
            ).len()
            &&& reads.contains(v) ==> function::block_sites(blocks, v, n).contains(site)
        }),
        i < blocks[b as int].phis.len() && blocks[b as int].phis[i as int].values().contains(v)
            ==> function::block_sites(blocks, v, n).contains(
            UseSite { block: b, instruction: i, is_phi_operand: true },
        ),
    decreases n,
{
    let before = function::block_sites(blocks, v, (n - 1) as nat);
    let now = function::block_sites(blocks, v, n);
    let block = blocks[n - 1];
    let at_phis = function::phi_sites(block.phis, (n - 1) as usize, v, block.phis.len());
    let at_instrs = function::instr_sites(block.instrs, (n - 1) as usize, v, block.instrs.len());
    let site = UseSite { block: b, instruction: i, is_phi_operand: false };
    let phi_site = UseSite { block: b, instruction: i, is_phi_operand: true };
    if b < n - 1 {
        lemma_in_blocks(blocks, v, (n - 1) as nat, b, i);
        assert forall|s: UseSite| before.contains(s) implies now.contains(s) by {
            let j = choose|j: int| 0 <= j < before.len() && before[j] == s;
            assert(now[j] == s);
        }
    } else {
        if i < block.instrs.len() {
            lemma_in_instrs(block.instrs, b, v, block.instrs.len(), i, site);
            if block.instrs[i as int].uses().contains(v) {
                let j = choose|j: int| 0 <= j < at_instrs.len() && at_instrs[j] == site;
                assert(now[before.len() + at_phis.len() + j] == site);
            }
        }
        if i < block.phis.len() && block.phis[i as int].values().contains(v) {
            lemma_in_phis(block.phis, b, v, block.phis.len(), i, phi_site);
            let j = choose|j: int| 0 <= j < at_phis.len() && at_phis[j] == phi_site;
            assert(now[before.len() + j] == phi_site);
        }
    }
}

/// A variable that is read once is read by no other instruction and by no phi node, and by its
/// reader only once.
pub proof fn single_readers_are_alone<T: Target>(
    ssa: SsaView<T>,
    v: SsaVarId,
    place: (usize, usize),
    b: usize,
    i: usize,
)
    requires
        ssa.use_count(v) == 1,
        ssa.has_instr(place.0 as int, place.1 as int),
        ssa.blocks[place.0 as int].instrs[place.1 as int].uses().contains(v),
        b < ssa.blocks.len(),
    ensures
        i < ssa.blocks[b as int].instrs.len() && (b, i) != place
            ==> !ssa.blocks[b as int].instrs[i as int].uses().contains(v),
        i < ssa.blocks[b as int].phis.len() ==> !ssa.blocks[b as int].phis[i as int].values().contains(
            v,
        ),
        forall|k: int, l: int|
            0 <= k < l < ssa.blocks[place.0 as int].instrs[place.1 as int].uses().len() ==> (
            #[trigger] ssa.blocks[place.0 as int].instrs[place.1 as int].uses()[k]) != v || (
            #[trigger] ssa.blocks[place.0 as int].instrs[place.1 as int].uses()[l]) != v,
{
    let sites = function::block_sites(ssa.blocks, v, ssa.blocks.len());
    lemma_in_blocks(ssa.blocks, v, ssa.blocks.len(), place.0, place.1);
    lemma_in_blocks(ssa.blocks, v, ssa.blocks.len(), b, i);
    let here = UseSite { block: place.0, instruction: place.1, is_phi_operand: false };
    let j = choose|j: int| 0 <= j < sites.len() && sites[j] == here;
    assert(sites[0] == here);
    assert forall|s: UseSite| sites.contains(s) implies s == here by {
        let k = choose|k: int| 0 <= k < sites.len() && sites[k] == s;
        assert(sites[k] == sites[0]);
    }
    let reads = ssa.blocks[place.0 as int].instrs[place.1 as int].uses();
    assert forall|k: int, l: int|
        0 <= k < l < reads.len() implies (#[trigger] reads[k]) != v || (#[trigger] reads[l])
        != v by {
        if reads[k] == v && reads[l] == v {
            lemma_two_reads(reads, v, here, reads.len(), k, l);
        }
    }
}

/// What is chosen at a place: the operation there with its operands, and a power of two that is
/// loaded by an instruction of its own.
pub proof fn reductions_describe_the_operation<T: Target>(
    ssa: SsaView<T>,
    place: (usize, usize),
    told: bool,
    earlier: Seq<ReductionCandidate>,
)
    requires
        ssa.has_instr(place.0 as int, place.1 as int),
        ssa.reduction_at(place, told, earlier) is Some,
        ssa.blocks.len() <= usize::MAX,
        forall|b: int|
            0 <= b < ssa.blocks.len() ==> (#[trigger] ssa.blocks[b]).instrs.len() <= usize::MAX,
    ensures
        ({
            let c = ssa.reduction_at(place, told, earlier).unwrap();
            let op = ssa.blocks[place.0 as int].instrs[place.1 as int];
            &&& c.place == place
            &&& c.reduces(op)
            &&& op.result() == Some(c.dest)
            &&& ssa.has_instr(c.const_place.0 as int, c.const_place.1 as int)
            &&& ssa.blocks[c.const_place.0 as int].instrs[c.const_place.1 as int] is Const
            &&& ssa.blocks[c.const_place.0 as int].instrs[c.const_place.1 as int].result() == Some(
                c.const_var,
            )
            &&& c.const_place != place
            &&& ssa.signed_const(c.const_var) == Some(c.value)
            &&& c.is_signed() ==> told
            &&& c.is_signed() ==> ssa.signed_dividend(place) == Some(c.value_var)
            &&& c.const_var != c.value_var
            &&& forall|k: int|
                0 <= k < earlier.len() ==> (#[trigger] earlier[k]).const_var != c.const_var
        }),
{
    let c = ssa.reduction_at(place, told, earlier).unwrap();
    let op = ssa.blocks[place.0 as int].instrs[place.1 as int];
    let v = c.const_var;
    defuse::lemma_last_def(ssa.blocks, v, ssa.blocks.len());
    let (cb, ci) = ssa.definition(v).unwrap();
    assert(ssa.has_instr(cb, ci));
    assert(ssa.blocks[cb].instrs.len() <= usize::MAX);
    assert(cb == c.const_place.0 && ci == c.const_place.1);
    assert(ssa.def_op(v) == Some(ssa.blocks[cb].instrs[ci]));
    let load = ssa.blocks[cb].instrs[ci];
    assert(load is Const);
    assert(load.defs() =~= seq![load->Const_dest]);
    assert(load.defs().contains(v));
    assert(op.uses().len() == 2);
    assert(op.uses()[0] == v || op.uses()[1] == v);
    assert(op.uses().contains(v));
    single_readers_are_alone(ssa, v, place, place.0, place.1);
    assert(op.uses()[0] != v || op.uses()[1] != v);
    assert forall|k: int| 0 <= k < earlier.len() implies (#[trigger] earlier[k]).const_var
        != v by {
        assert(!strength::claimed(earlier, v));
    }
}

/// Where an operation is reduced, the new operation on the new constant computes what the old one
/// computed on the old constant, and no other instruction and no phi node reads the constant. Of a
/// signed division or remainder this holds where what was said of the dividend is true.
pub proof fn reductions_keep_results<T: Target>(
    ssa: SsaView<T>,
    place: (usize, usize),
    told: bool,
    earlier: Seq<ReductionCandidate>,
    b: usize,
    i: usize,
    env: spec_fn(SsaVarId) -> u64,
    args: spec_fn(usize) -> u64,
)
    requires
        ssa.admits(env, args),
        ssa.has_instr(place.0 as int, place.1 as int),
        ssa.reduction_at(place, told, earlier) is Some,
        ssa.blocks.len() <= usize::MAX,
        forall|b: int|
            0 <= b < ssa.blocks.len() ==> (#[trigger] ssa.blocks[b]).instrs.len() <= usize::MAX,
        b < ssa.blocks.len(),
        told ==> match ssa.blocks[place.0 as int].instrs[place.1 as int] {
            Op::Div { left, .. } => meaning::signed(env(left)) >= 0,
            Op::Rem { left, .. } => meaning::signed(env(left)) >= 0,
            _ => true,
        },
    ensures
        ({
            let c = ssa.reduction_at(place, told, earlier).unwrap();
            let op = ssa.blocks[place.0 as int].instrs[place.1 as int];
            let next = ssa.with_reductions(seq![c], 1);
            let now = next.blocks[place.0 as int].instrs[place.1 as int];
            let load = next.blocks[c.const_place.0 as int].instrs[c.const_place.1 as int];
            let x = meaning::result(load, env, args).unwrap();
            &&& meaning::result(load, env, args) is Some
            &&& load.result() == Some(c.const_var)
            &&& now.result() == op.result()
            &&& meaning::result(now, regrouping::with_register(env, c.const_var, x), args)
                == meaning::result(op, env, args)
            &&& i < ssa.blocks[b as int].instrs.len() && (b, i) != place
                ==> !ssa.blocks[b as int].instrs[i as int].uses().contains(c.const_var)
            &&& i < ssa.blocks[b as int].instrs.len() && (b, i) != place && (b, i) != c.const_place
                ==> next.blocks[b as int].instrs[i as int]
                == ssa.blocks[b as int].instrs[i as int]
            &&& i < ssa.blocks[b as int].phis.len()
                ==> !ssa.blocks[b as int].phis[i as int].values().contains(c.const_var)
            &&& next.blocks[b as int].phis == ssa.blocks[b as int].phis
        }),
{
    let c = ssa.reduction_at(place, told, earlier).unwrap();
    let op = ssa.blocks[place.0 as int].instrs[place.1 as int];
    reductions_describe_the_operation(ssa, place, told, earlier);
    predicates::lemma_number(ssa, env, args, c.const_var);
    assert(op.uses()[0] == c.const_var || op.uses()[1] == c.const_var);
    assert(op.uses().contains(c.const_var));
    single_readers_are_alone(ssa, c.const_var, place, b, i);
    reveal_with_fuel(SsaView::with_reductions, 2);
    let next = ssa.with_reductions(seq![c], 1);
    let load: OpView<T> = Op::Const { dest: c.const_var, value: c.new_const() };
    assert(next.blocks[c.const_place.0 as int].instrs[c.const_place.1 as int] == load);
    assert(next.blocks[place.0 as int].instrs[place.1 as int] == c.new_op::<T>());
    lemma_new_const_has_number(c);
    let x = meaning::result(load, env, args).unwrap();
    let after = regrouping::with_register(env, c.const_var, x);
    strength::reduced_operation_computes_the_same(c, op, env, after, args);
}

proof fn lemma_new_const_has_number(c: ReductionCandidate)
    ensures
        c.new_const().number() is Some,
{
}

proof fn lemma_place_in_flat<T: Target>(ssa: SsaView<T>, n: nat, k: int)
    requires
        n <= ssa.blocks.len() <= usize::MAX,
        forall|b: int|
            0 <= b < ssa.blocks.len() ==> (#[trigger] ssa.blocks[b]).instrs.len() <= usize::MAX,
        0 <= k < crate::seqs::flat(ssa.places_in(), n).len(),
    ensures
        ({
            let p = crate::seqs::flat(ssa.places_in(), n)[k];
            p.0 < n && ssa.has_instr(p.0 as int, p.1 as int)
        }),
    decreases n,
{
    let before = crate::seqs::flat(ssa.places_in(), (n - 1) as nat);
    if k < before.len() {
        lemma_place_in_flat(ssa, (n - 1) as nat, k);
    } else {
        assert(ssa.blocks[n - 1].instrs.len() <= usize::MAX);
    }
}

/// No place is listed twice.
proof fn lemma_places_differ<T: Target>(ssa: SsaView<T>, n: nat, j: int, k: int)
    requires
        n <= ssa.blocks.len() <= usize::MAX,
        forall|b: int|
            0 <= b < ssa.blocks.len() ==> (#[trigger] ssa.blocks[b]).instrs.len() <= usize::MAX,
        0 <= j < k < crate::seqs::flat(ssa.places_in(), n).len(),
    ensures
        crate::seqs::flat(ssa.places_in(), n)[j] != crate::seqs::flat(ssa.places_in(), n)[k],
    decreases n,
{
    let before = crate::seqs::flat(ssa.places_in(), (n - 1) as nat);
    assert(ssa.blocks[n - 1].instrs.len() <= usize::MAX);
    if k < before.len() {
        lemma_places_differ(ssa, (n - 1) as nat, j, k);
    } else if j < before.len() {
        lemma_place_in_flat(ssa, (n - 1) as nat, j);
    }
}

/// Where the candidate `k` of the first `n` places comes from.
proof fn lemma_reduction_source<T: Target>(
    ssa: SsaView<T>,
    places: Seq<(usize, usize)>,
    told: Seq<bool>,
    n: nat,
    k: int,
) -> (m: int)
    requires
        n <= places.len(),
        0 <= k < ssa.reductions(places, told, n).len(),
    ensures
        0 <= m < n,
        ssa.reduction_at(places[m], told[m], ssa.reductions(places, told, n).take(k)) == Some(
            ssa.reductions(places, told, n)[k],
        ),
        k == ssa.reductions(places, told, m as nat).len(),
    decreases n,
{
    let before = ssa.reductions(places, told, (n - 1) as nat);
    let now = ssa.reductions(places, told, n);
    if k < before.len() {
        assert(now.take(k) =~= before.take(k));
        lemma_reduction_source(ssa, places, told, (n - 1) as nat, k)
    } else {
        assert(now.take(k) =~= before);
        n - 1
    }
}

/// The opportunities that are taken do not disturb each other: they rewrite different operations,
/// and each changes a constant of its own.
pub proof fn reductions_stand_apart<T: Target>(ssa: SsaView<T>, told: Seq<bool>, j: int, k: int)
    requires
        ssa.blocks.len() <= usize::MAX,
        forall|b: int|
            0 <= b < ssa.blocks.len() ==> (#[trigger] ssa.blocks[b]).instrs.len() <= usize::MAX,
        0 <= j < k < ssa.reductions(ssa.places(), told, ssa.places().len()).len(),
    ensures
        ({
            let taken = ssa.reductions(ssa.places(), told, ssa.places().len());
            &&& taken[j].place != taken[k].place
            &&& taken[j].const_var != taken[k].const_var
            &&& taken[j].const_place != taken[k].const_place
            &&& taken[j].place != taken[k].const_place
            &&& taken[j].const_place != taken[k].place
        }),
{
    let places = ssa.places();
    let taken = ssa.reductions(places, told, places.len());
    let a = lemma_reduction_source(ssa, places, told, places.len(), j);
    let b = lemma_reduction_source(ssa, places, told, places.len(), k);
    lemma_place_in_flat(ssa, ssa.blocks.len(), a);
    lemma_place_in_flat(ssa, ssa.blocks.len(), b);
    reductions_describe_the_operation(ssa, places[a], told[a], taken.take(j));
    reductions_describe_the_operation(ssa, places[b], told[b], taken.take(k));
    assert(taken.take(k)[j] == taken[j]);
    if a < b {
        lemma_places_differ(ssa, ssa.blocks.len(), a, b);
    } else if b < a {
        lemma_places_differ(ssa, ssa.blocks.len(), b, a);
    }
}

proof fn lemma_taken_stand<T: Target>(
    ssa: SsaView<T>,
    told: Seq<bool>,
    n: nat,
    b: usize,
    i: usize,
)
    requires
        ssa.blocks.len() <= usize::MAX,
        forall|b: int|
            0 <= b < ssa.blocks.len() ==> (#[trigger] ssa.blocks[b]).instrs.len() <= usize::MAX,
        n <= ssa.reductions(ssa.places(), told, ssa.places().len()).len(),
        ssa.has_instr(b as int, i as int),
    ensures
        ({
            let taken = ssa.reductions(ssa.places(), told, ssa.places().len());
            let next = ssa.with_reductions(taken, n);
            let now = next.blocks[b as int].instrs[i as int];
            &&& next.same_shape(ssa)
            &&& forall|k: int|
                0 <= k < n && (#[trigger] taken[k]).place == (b, i) ==> now == taken[k].new_op::<T>()
            &&& forall|k: int|
                0 <= k < n && (#[trigger] taken[k]).const_place == (b, i) ==> now == (Op::<
                    T,
                    Seq<usize>,
                    Seq<SsaVarId>,
                >::Const { dest: taken[k].const_var, value: taken[k].new_const() })
            &&& (forall|k: int|
                0 <= k < n ==> (#[trigger] taken[k]).place != (b, i) && taken[k].const_place != (
                    b,
                    i,
                )) ==> now == ssa.blocks[b as int].instrs[i as int]
        }),
    decreases n,
{
    let taken = ssa.reductions(ssa.places(), told, ssa.places().len());
    if n > 0 {
        lemma_taken_stand(ssa, told, (n - 1) as nat, b, i);
        let c = taken[n - 1];
        let m = lemma_reduction_source(ssa, ssa.places(), told, ssa.places().len(), n - 1);
        lemma_place_in_flat(ssa, ssa.blocks.len(), m);
        reductions_describe_the_operation(ssa, ssa.places()[m], told[m], taken.take(n - 1));
        assert forall|k: int| 0 <= k < n - 1 implies (#[trigger] taken[k]).place != c.place
            && taken[k].const_place != c.const_place && taken[k].place != c.const_place
            && taken[k].const_place != c.place by {
            reductions_stand_apart(ssa, told, k, n - 1);
        }
    }
}

/// All opportunities are taken together as each alone: every rewritten operation and every changed
/// constant stands where it was, and nothing else changes.
pub proof fn taken_reductions_stand<T: Target>(
    ssa: SsaView<T>,
    method: T::MethodRef,
    told: Seq<bool>,
    b: usize,
    i: usize,
)
    requires
        ssa.blocks.len() <= usize::MAX,
        forall|b: int|
            0 <= b < ssa.blocks.len() ==> (#[trigger] ssa.blocks[b]).instrs.len() <= usize::MAX,
        ssa.has_instr(b as int, i as int),
    ensures
        ({
            let taken = ssa.reductions(ssa.places(), told, ssa.places().len());
            let next = ssa.strength_reduced(method, told).ssa;
            let now = next.blocks[b as int].instrs[i as int];
            let was = ssa.blocks[b as int].instrs[i as int];
            &&& next.same_shape(ssa)
            &&& now.result() == was.result()
            &&& now != was ==> exists|k: int|
                0 <= k < taken.len() && ((#[trigger] taken[k]).place == (b, i) && now
                    == taken[k].new_op::<T>() || taken[k].const_place == (b, i) && was is Const
                    && now is Const)
        }),
{
    let taken = ssa.reductions(ssa.places(), told, ssa.places().len());
    lemma_taken_stand(ssa, told, taken.len(), b, i);
    if exists|k: int|
        0 <= k < taken.len() && ((#[trigger] taken[k]).place == (b, i) || taken[k].const_place == (
            b,
            i,
        )) {
        let k = choose|k: int|
            0 <= k < taken.len() && ((#[trigger] taken[k]).place == (b, i) || taken[k].const_place
                == (b, i));
        let m = lemma_reduction_source(ssa, ssa.places(), told, ssa.places().len(), k);
        lemma_place_in_flat(ssa, ssa.blocks.len(), m);
        reductions_describe_the_operation(ssa, ssa.places()[m], told[m], taken.take(k));
    }
}

} // verus!
