//! What moves out of a loop only computes, and computes the same in every turn.
use crate::analysis::loops::LoopView;
use crate::analysis::closure;
use crate::analysis::steps;
use crate::ir::function::SsaView;
use crate::ir::ops::{Op, OpView};
use crate::ir::variable::SsaVarId;
use crate::passes::deadcode;
use crate::passes::licm;
use crate::seqs;
use crate::target::Target;
use vstd::prelude::*;

verus! {

/// The loop assigns `v`: a phi node or an instruction of one of its blocks does.
pub open spec fn loop_assigns<T: Target>(ssa: SsaView<T>, body: Seq<bool>, v: SsaVarId) -> bool {
    exists|b: int| #[trigger] block_assigns(ssa, body, v, b)
}

/// Block `b` belongs to the loop and assigns `v`.
pub open spec fn block_assigns<T: Target>(
    ssa: SsaView<T>,
    body: Seq<bool>,
    v: SsaVarId,
    b: int,
) -> bool {
    &&& 0 <= b < ssa.blocks.len()
    &&& b < body.len()
    &&& body[b]
    &&& (exists|p: int|
        0 <= p < ssa.blocks[b].phis.len() && (#[trigger] ssa.blocks[b].phis[p]).result == v) || (
    exists|i: int|
        0 <= i < ssa.blocks[b].instrs.len() && (
        #[trigger] ssa.blocks[b].instrs[i]).defs().contains(v))
}

/// An instruction of the loop assigns `v` from variables that do not change in the loop.
pub open spec fn is_steady_at<T: Target>(
    ssa: SsaView<T>,
    body: Seq<bool>,
    steady: Set<SsaVarId>,
    v: SsaVarId,
    b: int,
    i: int,
) -> bool {
    &&& 0 <= b < ssa.blocks.len()
    &&& b < body.len()
    &&& body[b]
    &&& 0 <= i < ssa.blocks[b].instrs.len()
    &&& ssa.blocks[b].instrs[i].defs().contains(v)
    &&& forall|k: int|
        0 <= k < ssa.blocks[b].instrs[i].uses().len() ==> steady.contains(
            #[trigger] ssa.blocks[b].instrs[i].uses()[k],
        )
}

/// None of the variables changes in the loop: each is not assigned there, or an instruction there
/// assigns it from variables that do not change.
pub open spec fn are_steady<T: Target>(
    ssa: SsaView<T>,
    body: Seq<bool>,
    steady: Set<SsaVarId>,
) -> bool {
    forall|v: SsaVarId| #[trigger]
        steady.contains(v) && loop_assigns(ssa, body, v) ==> exists|b: int, i: int| #[trigger]
            is_steady_at(ssa, body, steady, v, b, i)
}

pub proof fn lemma_working_place<T: Target>(ssa: SsaView<T>, body: Seq<bool>, k: int)
    requires
        ssa.blocks.len() <= usize::MAX,
        0 <= k < ssa.working_places(body).len(),
        forall|b: int|
            0 <= b < ssa.blocks.len() ==> (#[trigger] ssa.blocks[b]).instrs.len() <= usize::MAX,
    ensures
        ({
            let place = ssa.working_places(body)[k];
            &&& place.0 < ssa.blocks.len()
            &&& place.0 < body.len()
            &&& body[place.0 as int]
            &&& place.1 < ssa.blocks[place.0 as int].instrs.len()
            &&& !ssa.op_at(place).ends_block()
            &&& !(ssa.op_at(place) is Nop)
        }),
{
    let places = ssa.working_places(body);
    let place = places[k];
    assert(places.contains(place));
    let b = seqs::lemma_flat_source(ssa.working_places_in(body), ssa.blocks.len(), place);
    let i = seqs::lemma_flat_source(ssa.working_place(b), ssa.blocks[b].instrs.len(), place);
    assert((ssa.working_place(b))(i).contains(place));
    assert(place == (b as usize, i as usize));
}

proof fn lemma_assigned_inside<T: Target>(ssa: SsaView<T>, body: Seq<bool>, v: SsaVarId)
    requires
        loop_assigns(ssa, body, v),
    ensures
        ssa.inside_defs(body).contains(v.0),
{
    let b = choose|b: int| #[trigger] block_assigns(ssa, body, v, b);
    let block = ssa.blocks[b];
    let n = v.0;
    assert(block.all_defs().contains(n)) by {
        let phis = block.phi_results();
        let rest = seqs::flat(block.defs_at(), block.instrs.len());
        if exists|p: int| 0 <= p < block.phis.len() && (#[trigger] block.phis[p]).result == v {
            let p = choose|p: int|
                0 <= p < block.phis.len() && (#[trigger] block.phis[p]).result == v;
            assert((block.phi_result_at())(p)[0] == n);
            assert((block.phi_result_at())(p).contains(n));
            seqs::lemma_flat_contains(block.phi_result_at(), block.phis.len(), p, n);
            let k = choose|k: int| 0 <= k < phis.len() && phis[k] == n;
            assert(block.all_defs()[k] == n);
        } else {
            let i = choose|i: int|
                0 <= i < block.instrs.len() && (#[trigger] block.instrs[i]).defs().contains(v);
            let defs = block.instrs[i].defs();
            let d = choose|d: int| 0 <= d < defs.len() && defs[d] == v;
            assert(deadcode::numbers(defs)[d] == n);
            assert((block.defs_at())(i).contains(n));
            seqs::lemma_flat_contains(block.defs_at(), block.instrs.len(), i, n);
            let k = choose|k: int| 0 <= k < rest.len() && rest[k] == n;
            assert(block.all_defs()[phis.len() + k] == n);
        }
    }
    assert((ssa.inside_defs_in(body))(b).contains(n));
    seqs::lemma_flat_contains(ssa.inside_defs_in(body), ssa.blocks.len(), b, n);
}

proof fn lemma_marked_def<T: Target>(
    ssa: SsaView<T>,
    places: Seq<(usize, usize)>,
    marks: Seq<bool>,
    n: usize,
) -> (k: int)
    requires
        ssa.marked_defs(places, marks).contains(n),
    ensures
        0 <= k < places.len(),
        marks[k],
        ssa.op_at(places[k]).defs().contains(SsaVarId(n)),
{
    let k = seqs::lemma_flat_source(ssa.marked_defs_at(places, marks), places.len(), n);
    let defs = ssa.op_at(places[k]).defs();
    let list = (ssa.marked_defs_at(places, marks))(k);
    let d = choose|d: int| 0 <= d < list.len() && list[d] == n;
    assert(defs[d] == SsaVarId(n));
    k
}

proof fn lemma_marked_grow<T: Target>(
    ssa: SsaView<T>,
    places: Seq<(usize, usize)>,
    marks: Seq<bool>,
    more: Seq<bool>,
    n: usize,
)
    requires
        forall|k: int| 0 <= k < places.len() && #[trigger] marks[k] ==> more[k],
        ssa.marked_defs(places, marks).contains(n),
    ensures
        ssa.marked_defs(places, more).contains(n),
{
    let k = seqs::lemma_flat_source(ssa.marked_defs_at(places, marks), places.len(), n);
    assert(marks[k]);
    assert((ssa.marked_defs_at(places, more))(k) == (ssa.marked_defs_at(places, marks))(k));
    seqs::lemma_flat_contains(ssa.marked_defs_at(places, more), places.len(), k, n);
}

/// Every marked place reads only what marked places define, or what the loop does not.
spec fn is_consistent<T: Target>(
    ssa: SsaView<T>,
    info: LoopView,
    places: Seq<(usize, usize)>,
    marks: Seq<bool>,
) -> bool {
    forall|k: int, u: int|
        0 <= k < places.len() && marks[k] && 0 <= u < ssa.op_at(places[k]).uses().len()
            ==> ssa.marked_defs(places, marks).contains(
            (#[trigger] ssa.op_at(places[k]).uses()[u]).0,
        ) || !ssa.inside_defs(info.body).contains(ssa.op_at(places[k]).uses()[u].0)
}

proof fn lemma_invariant<T: Target>(
    ssa: SsaView<T>,
    info: LoopView,
    places: Seq<(usize, usize)>,
    marks: Seq<bool>,
)
    requires
        marks.len() == places.len(),
        is_consistent(ssa, info, places, marks),
    ensures
        ssa.invariant_marks(info, places, marks).len() == places.len(),
        is_consistent(ssa, info, places, ssa.invariant_marks(info, places, marks)),
    decreases closure::unmarked(marks, places.len()),
{
    let more = ssa.more_invariant(info, places, marks);
    if more != marks {
        assert forall|k: int, u: int|
            0 <= k < places.len() && more[k] && 0 <= u
                < ssa.op_at(places[k]).uses().len() implies ssa.marked_defs(places, more).contains(
            (#[trigger] ssa.op_at(places[k]).uses()[u]).0,
        ) || !ssa.inside_defs(info.body).contains(ssa.op_at(places[k]).uses()[u].0) by {
            let n = ssa.op_at(places[k]).uses()[u].0;
            if ssa.marked_defs(places, marks).contains(n) {
                lemma_marked_grow(ssa, places, marks, more, n);
            }
        }
        licm::lemma_more_marked(marks, more, places.len());
        licm::lemma_differs(marks, more);
        lemma_invariant(ssa, info, places, more);
    }
}

proof fn lemma_hoistable<T: Target>(
    ssa: SsaView<T>,
    info: LoopView,
    pre: usize,
    places: Seq<(usize, usize)>,
    marks: Seq<bool>,
    k: int,
)
    requires
        marks.len() == places.len(),
        0 <= k < places.len(),
        ssa.hoistable_marks(info, pre, places, marks)[k],
    ensures
        marks[k],
    decreases licm::marked(marks, places.len()),
{
    let fewer = ssa.still_hoistable(info, pre, places, marks);
    if fewer != marks {
        licm::lemma_fewer_marked(marks, fewer, places.len());
        licm::lemma_differs(marks, fewer);
        lemma_hoistable(ssa, info, pre, places, fewer, k);
    }
}

/// An instruction that a loop loses belongs to it and does not act, and there are variables that do
/// not change in the loop such that it reads no others: it computes the same in every turn.
pub proof fn hoisted_instructions_are_invariant<T: Target>(
    ssa: SsaView<T>,
    info: LoopView,
    pre: usize,
    place: (usize, usize),
) -> (steady: Set<SsaVarId>)
    requires
        ssa.blocks.len() <= usize::MAX,
        forall|b: int|
            0 <= b < ssa.blocks.len() ==> (#[trigger] ssa.blocks[b]).instrs.len() <= usize::MAX,
        ssa.moving(info, pre).contains(place),
    ensures
        place.0 < ssa.blocks.len(),
        place.1 < ssa.blocks[place.0 as int].instrs.len(),
        place.0 < info.body.len(),
        info.body[place.0 as int],
        ({
            let op = ssa.blocks[place.0 as int].instrs[place.1 as int];
            &&& !steps::acts(op)
            &&& steps::always_computes(op) || op is LoadLocal || op is LoadLocalAddr
                || op is LoadToken
            &&& are_steady(ssa, info.body, steady)
            &&& forall|k: int| 0 <= k < op.uses().len() ==> steady.contains(#[trigger] op.uses()[k])
        }),
{
    let places = ssa.working_places(info.body);
    let none = licm::none_placed(places.len());
    let marks = ssa.invariant_marks(info, places, none);
    assert(is_consistent(ssa, info, places, none));
    lemma_invariant(ssa, info, places, none);
    let candidates = Seq::new(
        places.len(),
        |k: int| marks[k] && ssa.can_hoist(info, places[k]),
    );
    let last = ssa.hoistable_marks(info, pre, places, candidates);
    let k = seqs::lemma_flat_source(ssa.moving_at(places, last), places.len(), place);
    assert(places[k] == place && last[k]);
    lemma_hoistable(ssa, info, pre, places, candidates, k);
    lemma_working_place(ssa, info.body, k);
    let op = ssa.op_at(place);
    steps::pure_operations_do_not_act(op);
    steps::what_does_not_act_computes(op);
    let steady = Set::new(
        |v: SsaVarId|
            ssa.marked_defs(places, marks).contains(v.0) || !ssa.inside_defs(info.body).contains(
                v.0,
            ),
    );
    assert forall|v: SsaVarId| #[trigger]
        steady.contains(v) && loop_assigns(ssa, info.body, v) implies exists|b: int, i: int|
        #[trigger] is_steady_at(ssa, info.body, steady, v, b, i) by {
        lemma_assigned_inside(ssa, info.body, v);
        let j = lemma_marked_def(ssa, places, marks, v.0);
        lemma_working_place(ssa, info.body, j);
        let (b, i) = (places[j].0 as int, places[j].1 as int);
        assert(ssa.op_at(places[j]) == ssa.blocks[b].instrs[i]);
        assert forall|u: int| 0 <= u < ssa.blocks[b].instrs[i].uses().len() implies steady.contains(
            #[trigger] ssa.blocks[b].instrs[i].uses()[u],
        ) by {
            assert(ssa.op_at(places[j]).uses()[u] == ssa.blocks[b].instrs[i].uses()[u]);
        }
        assert(is_steady_at(ssa, info.body, steady, v, b, i));
    }
    assert forall|u: int| 0 <= u < op.uses().len() implies steady.contains(
        #[trigger] op.uses()[u],
    ) by {
        assert(ssa.op_at(places[k]).uses()[u] == op.uses()[u]);
    }
    steady
}

/// What acts in a block, in order.
pub open spec fn deeds<T: Target>(ssa: SsaView<T>, b: int) -> Seq<OpView<T>> {
    steps::acting(ssa.blocks[b].instrs, ssa.blocks[b].instrs.len())
}

/// The places name instructions that do not act.
pub open spec fn name_idle<T: Target>(ssa: SsaView<T>, places: Seq<(usize, usize)>) -> bool {
    forall|k: int|
        0 <= k < places.len() ==> (#[trigger] places[k]).0 < ssa.blocks.len() && places[k].1
            < ssa.blocks[places[k].0 as int].instrs.len() && !steps::acts(ssa.op_at(places[k]))
}

pub proof fn lemma_nops<T: Target>(ssa: SsaView<T>, places: Seq<(usize, usize)>, n: nat, b: int)
    requires
        n <= places.len(),
        name_idle(ssa, places),
        0 <= b < ssa.blocks.len(),
    ensures
        ({
            let next = ssa.with_nops(places, n);
            &&& next.blocks.len() == ssa.blocks.len()
            &&& forall|c: int|
                0 <= c < ssa.blocks.len() ==> (#[trigger] next.blocks[c]).instrs.len()
                    == ssa.blocks[c].instrs.len()
            &&& forall|c: int, i: int|
                0 <= c < ssa.blocks.len() && 0 <= i < ssa.blocks[c].instrs.len() ==> (
                #[trigger] next.blocks[c].instrs[i]) == ssa.blocks[c].instrs[i]
                    || next.blocks[c].instrs[i] is Nop
            &&& deeds(next, b) == deeds(ssa, b)
        }),
    decreases n,
{
    if n > 0 {
        let m = (n - 1) as nat;
        lemma_nops(ssa, places, m, b);
        let before = ssa.with_nops(places, m);
        let (c, i) = (places[n - 1].0 as int, places[n - 1].1 as int);
        assert(!steps::acts(ssa.op_at(places[n - 1])));
        assert(before.blocks[c].instrs[i] == ssa.blocks[c].instrs[i]
            || before.blocks[c].instrs[i] is Nop);
        assert(!steps::acts(before.blocks[c].instrs[i]));
        if c == b {
            steps::lemma_acting_update(
                before.blocks[c].instrs,
                i,
                Op::<T, Seq<usize>, Seq<SsaVarId>>::Nop,
                before.blocks[c].instrs.len(),
            );
        }
    }
}

proof fn lemma_moved_phis<T: Target>(
    ssa: SsaView<T>,
    targets: Seq<usize>,
    from: usize,
    to: usize,
    n: nat,
    b: int,
)
    requires
        n <= targets.len(),
        0 <= b < ssa.blocks.len(),
    ensures
        ssa.with_moved_phis(targets, from, to, n).blocks.len() == ssa.blocks.len(),
        ssa.with_moved_phis(targets, from, to, n).blocks[b].instrs == ssa.blocks[b].instrs,
    decreases n,
{
    if n > 0 {
        lemma_moved_phis(ssa, targets, from, to, (n - 1) as nat, b);
    }
}

proof fn lemma_bypassed<T: Target>(
    ssa: SsaView<T>,
    places: Seq<(usize, usize)>,
    pre: usize,
    n: nat,
    b: int,
)
    requires
        n <= ssa.blocks.len(),
        0 <= b < ssa.blocks.len(),
    ensures
        ssa.with_bare_blocks_bypassed(places, pre, n).blocks.len() == ssa.blocks.len(),
        ssa.with_bare_blocks_bypassed(places, pre, n).blocks[b].instrs == ssa.blocks[b].instrs,
    decreases n,
{
    if n > 0 {
        lemma_bypassed(ssa, places, pre, (n - 1) as nat, b);
        let before = ssa.with_bare_blocks_bypassed(places, pre, (n - 1) as nat);
        let targets = before.last_targets(n - 1);
        lemma_moved_phis(before, targets, (n - 1) as usize, pre, targets.len(), b);
    }
}

/// The preheader after the instructions at the places moved there: they stand before its end.
pub proof fn lemma_hoisted_block<T: Target>(
    ssa: SsaView<T>,
    places: Seq<(usize, usize)>,
    pre: usize,
    b: int,
)
    requires
        0 <= b < ssa.blocks.len(),
        pre < ssa.blocks.len(),
        name_idle(ssa, places),
    ensures
        ssa.hoisted(places, pre).blocks.len() == ssa.blocks.len(),
        deeds(ssa.hoisted(places, pre), b) == deeds(ssa, b),
        ({
            let emptied = ssa.with_nops(places, places.len()).blocks[b].instrs;
            let at = ssa.blocks[pre as int].insertion_point();
            ssa.hoisted(places, pre).blocks[b].instrs == (if b == pre {
                emptied.take(at) + ssa.ordered_ops(places) + emptied.skip(at)
            } else {
                emptied
            })
        }),
{
    let emptied = ssa.with_nops(places, places.len());
    lemma_nops(ssa, places, places.len(), b);
    let block = emptied.blocks[pre as int];
    let at = ssa.blocks[pre as int].insertion_point();
    let moved = ssa.ordered_ops(places);
    let placed = emptied.with_block(
        pre as int,
        block.with_instrs(block.instrs.take(at) + moved + block.instrs.skip(at)),
    );
    lemma_bypassed(placed, places, pre, ssa.blocks.len(), b);
    if b == pre {
        let head = block.instrs.take(at);
        let tail = block.instrs.skip(at);
        assert(head + tail =~= block.instrs);
        steps::lemma_acting_add(head, tail, tail.len());
        assert forall|i: int| 0 <= i < moved.len() implies !steps::acts(#[trigger] moved[i]) by {
            let ops = ssa.ops_at(places);
            let none = licm::none_placed(ops.len());
            let order = licm::hoist_order(ops, none);
            if ops.len() > 0 {
                licm::order_is_complete(ops, none, 0);
                assert(0 <= order[i] < ops.len());
                assert(moved[i] == ssa.op_at(places[order[i]]));
            } else {
                licm::lemma_order_of_none(ops, none);
            }
        }
        steps::lemma_acting_idle(moved, moved.len());
        steps::lemma_acting_add(head, moved, moved.len());
        steps::lemma_acting_add(head + moved, tail, tail.len());
        assert(steps::acting(head, head.len()) + Seq::<OpView<T>>::empty() =~= steps::acting(
            head,
            head.len(),
        ));
        assert((head + moved).len() + tail.len() == (head + moved + tail).len());
    }
}

proof fn lemma_loop_deeds<T: Target>(ssa: SsaView<T>, info: LoopView, b: int)
    requires
        ssa.blocks.len() <= usize::MAX,
        forall|c: int|
            0 <= c < ssa.blocks.len() ==> (#[trigger] ssa.blocks[c]).instrs.len() <= usize::MAX,
        0 <= b < ssa.blocks.len(),
    ensures
        ssa.loop_hoisted(info).0.blocks.len() == ssa.blocks.len(),
        deeds(ssa.loop_hoisted(info).0, b) == deeds(ssa, b),
{
    if let Some(pre) = ssa.hoisting_target(info) {
        let places = ssa.moving(info, pre);
        assert forall|k: int| 0 <= k < places.len() implies (#[trigger] places[k]).0
            < ssa.blocks.len() && places[k].1 < ssa.blocks[places[k].0 as int].instrs.len()
            && !steps::acts(ssa.op_at(places[k])) by {
            assert(places.contains(places[k]));
            let _ = hoisted_instructions_are_invariant(ssa, info, pre, places[k]);
        }
        lemma_hoisted_block(ssa, places, pre, b);
        let moved = ssa.hoisted(places, pre);
        steps::lemma_acting_stripped(moved.blocks[b].instrs, moved.blocks[b].instrs.len());
    }
}

/// The lists of a function are no longer than its machine can count.
pub open spec fn is_countable<T: Target>(ssa: SsaView<T>) -> bool {
    &&& ssa.blocks.len() <= usize::MAX
    &&& forall|b: int|
        0 <= b < ssa.blocks.len() ==> (#[trigger] ssa.blocks[b]).instrs.len() <= usize::MAX
}

/// Moving invariant code leaves in every block what acts there, in the same order: nothing that
/// calls, stores, reads memory, may fail or decides where control goes changes its block, its
/// place among the others, or how often it runs.
pub proof fn hoisting_keeps_deeds<T: Target>(ssa: SsaView<T>, list: Seq<LoopView>, n: nat, b: int)
    requires
        n <= list.len(),
        0 <= b < ssa.blocks.len(),
        forall|k: nat| k < n ==> is_countable((#[trigger] ssa.loops_hoisted(list, k)).0),
    ensures
        ssa.loops_hoisted(list, n).0.blocks.len() == ssa.blocks.len(),
        deeds(ssa.loops_hoisted(list, n).0, b) == deeds(ssa, b),
    decreases n,
{
    if n > 0 {
        let m = (n - 1) as nat;
        hoisting_keeps_deeds(ssa, list, m, b);
        assert(is_countable(ssa.loops_hoisted(list, m).0));
        lemma_loop_deeds(ssa.loops_hoisted(list, m).0, list[n - 1], b);
    }
}

/// An instruction that moves stands in the preheader afterwards.
pub proof fn hoisted_instructions_arrive<T: Target>(
    ssa: SsaView<T>,
    info: LoopView,
    pre: usize,
    k: int,
)
    requires
        is_countable(ssa),
        pre < ssa.blocks.len(),
        0 <= k < ssa.moving(info, pre).len(),
    ensures
        ssa.hoisted(ssa.moving(info, pre), pre).blocks[pre as int].instrs.contains(
            ssa.op_at(ssa.moving(info, pre)[k]),
        ),
{
    let places = ssa.moving(info, pre);
    assert forall|j: int| 0 <= j < places.len() implies (#[trigger] places[j]).0 < ssa.blocks.len()
        && places[j].1 < ssa.blocks[places[j].0 as int].instrs.len() && !steps::acts(
        ssa.op_at(places[j]),
    ) by {
        assert(places.contains(places[j]));
        let _ = hoisted_instructions_are_invariant(ssa, info, pre, places[j]);
    }
    lemma_hoisted_block(ssa, places, pre, pre as int);
    lemma_nops(ssa, places, places.len(), pre as int);
    let ops = ssa.ops_at(places);
    let none = licm::none_placed(ops.len());
    licm::order_is_complete(ops, none, k);
    let order = licm::hoist_order(ops, none);
    let q = choose|q: int| 0 <= q < order.len() && order[q] == k;
    let at = ssa.blocks[pre as int].insertion_point();
    let instrs = ssa.hoisted(places, pre).blocks[pre as int].instrs;
    assert(ssa.ordered_ops(places)[q] == ssa.op_at(places[k]));
    assert(instrs[at + q] == ssa.op_at(places[k]));
}

/// What a phi node of the loop has from the loop counts as carried into the next turn.
proof fn lemma_carried<T: Target>(ssa: SsaView<T>, body: Seq<bool>, b: int, p: int, k: int)
    requires
        0 <= b < ssa.blocks.len(),
        b < body.len(),
        body[b],
        0 <= p < ssa.blocks[b].phis.len(),
        0 <= k < ssa.blocks[b].phis[p].operands.len(),
        ssa.blocks[b].phis[p].operands[k].predecessor < body.len(),
        body[ssa.blocks[b].phis[p].operands[k].predecessor as int],
    ensures
        ssa.carried(body).contains(ssa.blocks[b].phis[p].operands[k].value.0),
{
    let block = ssa.blocks[b];
    let n = block.phis[p].operands[k].value.0;
    assert((block.carried_operand(body, p))(k)[0] == n);
    seqs::lemma_flat_contains(
        block.carried_operand(body, p),
        block.phis[p].operands.len(),
        k,
        n,
    );
    assert((block.carried_at(body))(p).contains(n));
    seqs::lemma_flat_contains(block.carried_at(body), block.phis.len(), p, n);
    assert((ssa.carried_in(body))(b).contains(n));
    seqs::lemma_flat_contains(ssa.carried_in(body), ssa.blocks.len(), b, n);
}

proof fn lemma_hoistable_settles<T: Target>(
    ssa: SsaView<T>,
    info: LoopView,
    pre: usize,
    places: Seq<(usize, usize)>,
    marks: Seq<bool>,
)
    requires
        marks.len() == places.len(),
    ensures
        ({
            let last = ssa.hoistable_marks(info, pre, places, marks);
            last.len() == places.len() && ssa.still_hoistable(info, pre, places, last) == last
        }),
    decreases licm::marked(marks, places.len()),
{
    let fewer = ssa.still_hoistable(info, pre, places, marks);
    if fewer != marks {
        licm::lemma_fewer_marked(marks, fewer, places.len());
        licm::lemma_differs(marks, fewer);
        lemma_hoistable_settles(ssa, info, pre, places, fewer);
    }
}

proof fn lemma_late<T: Target>(ssa: SsaView<T>, pre: usize, from: int, i: int, v: SsaVarId)
    requires
        0 <= i < ssa.blocks[pre as int].instrs.len(),
        from <= i,
        ssa.blocks[pre as int].instrs[i].defs().contains(v),
    ensures
        ssa.late_defs(pre, from).contains(v.0),
{
    let block = ssa.blocks[pre as int];
    let defs = block.instrs[i].defs();
    let d = choose|d: int| 0 <= d < defs.len() && defs[d] == v;
    assert(deadcode::numbers(defs)[d] == v.0);
    assert((block.late_defs_at(from))(i).contains(v.0));
    seqs::lemma_flat_contains(block.late_defs_at(from), block.instrs.len(), i, v.0);
}

/// The value of an instruction that moves reaches no phi node of the loop from the loop, and is not
/// recorded to be read in the preheader before the place it moves to.
pub proof fn hoisted_results_stay_in_their_turn<T: Target>(
    ssa: SsaView<T>,
    info: LoopView,
    pre: usize,
    place: (usize, usize),
    v: SsaVarId,
    b: int,
    p: int,
    k: int,
)
    requires
        ssa.moving(info, pre).contains(place),
        ssa.op_at(place).defs().contains(v),
        v.0 < ssa.vars.len(),
    ensures
        0 <= b < ssa.blocks.len() && b < info.body.len() && info.body[b] && 0 <= p
            < ssa.blocks[b].phis.len() && 0 <= k < ssa.blocks[b].phis[p].operands.len()
            && ssa.blocks[b].phis[p].operands[k].predecessor < info.body.len()
            && info.body[ssa.blocks[b].phis[p].operands[k].predecessor as int]
            ==> ssa.blocks[b].phis[p].operands[k].value != v,
        forall|u: int|
            0 <= u < ssa.vars[v.0 as int].uses.len() ==> {
                let site = #[trigger] ssa.vars[v.0 as int].uses[u];
                site.block == pre && !site.is_phi_operand ==> site.instruction
                    >= ssa.blocks[pre as int].insertion_point()
            },
{
    let places = ssa.working_places(info.body);
    let none = licm::none_placed(places.len());
    let marks = ssa.invariant_marks(info, places, none);
    let candidates = Seq::new(
        places.len(),
        |k: int| marks[k] && ssa.can_hoist(info, places[k]),
    );
    let last = ssa.hoistable_marks(info, pre, places, candidates);
    let j = seqs::lemma_flat_source(ssa.moving_at(places, last), places.len(), place);
    assert(places[j] == place && last[j]);
    lemma_hoistable(ssa, info, pre, places, candidates, j);
    lemma_hoistable_settles(ssa, info, pre, places, candidates);
    assert(ssa.can_hoist(info, place));
    let defs = ssa.op_at(place).defs();
    let d = choose|d: int| 0 <= d < defs.len() && defs[d] == v;
    assert(!ssa.feeds_next_turn(info.body, defs[d]));
    if 0 <= b < ssa.blocks.len() && b < info.body.len() && info.body[b] && 0 <= p
        < ssa.blocks[b].phis.len() && 0 <= k < ssa.blocks[b].phis[p].operands.len()
        && ssa.blocks[b].phis[p].operands[k].predecessor < info.body.len()
        && info.body[ssa.blocks[b].phis[p].operands[k].predecessor as int] {
        if ssa.blocks[b].phis[p].operands[k].value == v {
            lemma_carried(ssa, info.body, b, p, k);
            closure::roots_are_reached(
                ssa.vars.len(),
                ssa.carried(info.body),
                seqs::flat(ssa.feeding(info.body), ssa.vars.len()),
                v.0,
            );
        }
    }
    let at = ssa.blocks[pre as int].insertion_point();
    assert(ssa.still_hoistable(info, pre, places, last)[j]);
    assert(ssa.defs_unused_before(ssa.op_at(places[j]), pre, at));
    assert(!ssa.used_before(defs[d], pre, at));
}

/// What an instruction that moves reads is at hand in the preheader: the loop does not assign it, nor
/// the preheader behind the place the instruction moves to, or an instruction that can move along
/// does.
pub proof fn hoisted_reads_are_at_hand<T: Target>(
    ssa: SsaView<T>,
    info: LoopView,
    pre: usize,
    place: (usize, usize),
    v: SsaVarId,
)
    requires
        ssa.blocks.len() <= usize::MAX,
        forall|b: int|
            0 <= b < ssa.blocks.len() ==> (#[trigger] ssa.blocks[b]).instrs.len() <= usize::MAX,
        ssa.moving(info, pre).contains(place),
        ssa.op_at(place).uses().contains(v),
    ensures
        ({
            ||| !loop_assigns(ssa, info.body, v) && forall|i: int|
                ssa.blocks[pre as int].insertion_point() <= i
                    < ssa.blocks[pre as int].instrs.len() ==> !(
                #[trigger] ssa.blocks[pre as int].instrs[i]).defs().contains(v)
            ||| exists|b: int, i: int|
                ssa.has_instr(b, i) && b < info.body.len() && info.body[b] && (
                #[trigger] ssa.blocks[b].instrs[i]).defs().contains(v) && !steps::acts(
                    ssa.blocks[b].instrs[i],
                )
        }),
{
    let places = ssa.working_places(info.body);
    let none = licm::none_placed(places.len());
    let marks = ssa.invariant_marks(info, places, none);
    let candidates = Seq::new(
        places.len(),
        |k: int| marks[k] && ssa.can_hoist(info, places[k]),
    );
    let last = ssa.hoistable_marks(info, pre, places, candidates);
    let j = seqs::lemma_flat_source(ssa.moving_at(places, last), places.len(), place);
    assert(places[j] == place && last[j]);
    lemma_hoistable_settles(ssa, info, pre, places, candidates);
    let at = ssa.blocks[pre as int].insertion_point();
    assert(ssa.still_hoistable(info, pre, places, last)[j]);
    let reads = ssa.op_at(places[j]).uses();
    let u = choose|u: int| 0 <= u < reads.len() && reads[u] == v;
    let along = ssa.marked_defs(places, last);
    assert(along.contains(reads[u].0) || (!ssa.inside_defs(info.body).contains(reads[u].0)
        && !ssa.late_defs(pre, at).contains(reads[u].0)));
    if along.contains(v.0) {
        let m = lemma_marked_def(ssa, places, last, v.0);
        lemma_working_place(ssa, info.body, m);
        lemma_hoistable(ssa, info, pre, places, candidates, m);
        let (b, i) = (places[m].0 as int, places[m].1 as int);
        steps::pure_operations_do_not_act(ssa.blocks[b].instrs[i]);
        assert(ssa.has_instr(b, i));
        assert(ssa.blocks[b].instrs[i].defs().contains(v));
    } else {
        if loop_assigns(ssa, info.body, v) {
            lemma_assigned_inside(ssa, info.body, v);
        }
        assert forall|i: int|
            at <= i < ssa.blocks[pre as int].instrs.len() implies !(
        #[trigger] ssa.blocks[pre as int].instrs[i]).defs().contains(v) by {
            if ssa.blocks[pre as int].instrs[i].defs().contains(v) {
                lemma_late(ssa, pre, at, i, v);
            }
        }
    }
}

/// The preheader ends as it did: what moves there comes before the operation that ends it.
pub proof fn preheaders_end_as_before<T: Target>(ssa: SsaView<T>, info: LoopView, pre: usize)
    requires
        is_countable(ssa),
        pre < ssa.blocks.len(),
        ssa.blocks[pre as int].terminator() is Some,
    ensures
        ssa.hoisted(ssa.moving(info, pre), pre).blocks[pre as int].terminator()
            == ssa.blocks[pre as int].terminator(),
{
    let places = ssa.moving(info, pre);
    assert forall|j: int| 0 <= j < places.len() implies (#[trigger] places[j]).0 < ssa.blocks.len()
        && places[j].1 < ssa.blocks[places[j].0 as int].instrs.len() && !steps::acts(
        ssa.op_at(places[j]),
    ) by {
        assert(places.contains(places[j]));
        let _ = hoisted_instructions_are_invariant(ssa, info, pre, places[j]);
    }
    lemma_hoisted_block(ssa, places, pre, pre as int);
    lemma_nops(ssa, places, places.len(), pre as int);
    let old_instrs = ssa.blocks[pre as int].instrs;
    let emptied = ssa.with_nops(places, places.len()).blocks[pre as int].instrs;
    let n = old_instrs.len();
    lemma_last_stays(ssa, places, places.len(), pre as int);
    assert(emptied.skip(n - 1) =~= seq![emptied[n - 1]]);
}

proof fn lemma_last_stays<T: Target>(ssa: SsaView<T>, places: Seq<(usize, usize)>, n: nat, b: int)
    requires
        n <= places.len(),
        name_idle(ssa, places),
        0 <= b < ssa.blocks.len(),
        ssa.blocks[b].instrs.len() > 0,
        ssa.blocks[b].instrs.last().ends_block(),
    ensures
        ssa.with_nops(places, n).blocks[b].instrs.len() == ssa.blocks[b].instrs.len(),
        ssa.with_nops(places, n).blocks[b].instrs.last() == ssa.blocks[b].instrs.last(),
    decreases n,
{
    if n > 0 {
        lemma_last_stays(ssa, places, (n - 1) as nat, b);
        lemma_nops(ssa, places, (n - 1) as nat, b);
        let p = places[n - 1];
        assert(!steps::acts(ssa.op_at(p)));
        assert(steps::acts(ssa.blocks[b].instrs.last()));
    }
}

/// Code leaves a loop only for its preheader, where that leads to the header and the header does not
/// end with a switch.
pub proof fn code_moves_only_to_the_way_in<T: Target>(ssa: SsaView<T>, info: LoopView)
    requires
        ssa.loop_hoisted(info).1 > 0,
    ensures
        info.preheader is Some,
        ({
            let pre = info.preheader.unwrap();
            &&& pre < ssa.blocks.len()
            &&& info.header < ssa.blocks.len()
            &&& ssa.blocks[pre as int].instrs.len() > 0
            &&& ssa.blocks[pre as int].instrs.last().successors().contains(info.header)
            &&& ssa.blocks[info.header as int].instrs.len() > 0 ==> !(
            ssa.blocks[info.header as int].instrs.last() is Switch)
        }),
{
}

} // verus!
