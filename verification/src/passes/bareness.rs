//! Moving invariant code out of a loop keeps what phi nodes receive.
use crate::analysis::loops::LoopView;
use crate::analysis::meaning;
use crate::analysis::steps;
use crate::ir::function::SsaView;
use crate::ir::ops::OpView;
use crate::ir::variable::SsaVarId;
use crate::passes::deadcode;
use crate::passes::hoisting;
use crate::passes::licm;
use crate::seqs;
use crate::target::Target;
use vstd::prelude::*;

verus! {

/// How many of the first `n` places stand in block `b`.
spec fn in_block(places: Seq<(usize, usize)>, b: usize, n: nat) -> nat
    decreases n,
{
    if n == 0 {
        0
    } else {
        in_block(places, b, (n - 1) as nat) + (if places[n - 1].0 == b {
            1nat
        } else {
            0nat
        })
    }
}

proof fn lemma_all_leave<T: Target>(
    ssa: SsaView<T>,
    places: Seq<(usize, usize)>,
    marks: Seq<bool>,
    b: usize,
    n: nat,
)
    requires
        n <= places.len(),
        forall|k: int| 0 <= k < n && (#[trigger] places[k]).0 == b ==> marks[k],
    ensures
        ssa.leaving_block(places, marks, b, n) == in_block(places, b, n),
    decreases n,
{
    if n > 0 {
        lemma_all_leave(ssa, places, marks, b, (n - 1) as nat);
        assert(places[n - 1].0 == b ==> marks[n - 1]);
    }
}

proof fn lemma_in_block_add(a: Seq<(usize, usize)>, c: Seq<(usize, usize)>, b: usize, n: nat)
    requires
        n <= c.len(),
    ensures
        in_block(a + c, b, a.len() + n) == in_block(a, b, a.len()) + in_block(c, b, n),
    decreases n,
{
    if n == 0 {
        lemma_in_block_prefix(a, a + c, b, a.len());
    } else {
        lemma_in_block_add(a, c, b, (n - 1) as nat);
        assert((a + c)[a.len() + n - 1] == c[n - 1]);
    }
}

proof fn lemma_in_block_prefix(a: Seq<(usize, usize)>, c: Seq<(usize, usize)>, b: usize, n: nat)
    requires
        n <= a.len(),
        n <= c.len(),
        forall|k: int| 0 <= k < n ==> a[k] == #[trigger] c[k],
    ensures
        in_block(a, b, n) == in_block(c, b, n),
    decreases n,
{
    if n > 0 {
        lemma_in_block_prefix(a, c, b, (n - 1) as nat);
        assert(a[n - 1] == c[n - 1]);
    }
}

/// The places of one block stand there, rise, and are as many as do something.
proof fn lemma_piece<T: Target>(ssa: SsaView<T>, b: usize, n: nat)
    requires
        n <= ssa.blocks[b as int].instrs.len() <= usize::MAX,
        b < ssa.blocks.len(),
    ensures
        ({
            let piece = seqs::flat(ssa.working_place(b as int), n);
            &&& forall|k: int|
                0 <= k < piece.len() ==> (#[trigger] piece[k]).0 == b && piece[k].1 < n
            &&& forall|j: int, k: int|
                0 <= j < k < piece.len() ==> (#[trigger] piece[j]).1 < (#[trigger] piece[k]).1
            &&& in_block(piece, b, piece.len()) == piece.len()
            &&& piece.len() == deadcode::total(ssa.blocks[b as int].working_at(), n)
        }),
    decreases n,
{
    if n > 0 {
        let before = seqs::flat(ssa.working_place(b as int), (n - 1) as nat);
        let last = (ssa.working_place(b as int))(n - 1);
        let piece = seqs::flat(ssa.working_place(b as int), n);
        lemma_piece(ssa, b, (n - 1) as nat);
        assert(piece == before + last);
        lemma_in_block_add(before, last, b, last.len());
        reveal_with_fuel(in_block, 2);
    }
}

proof fn lemma_pieces<T: Target>(ssa: SsaView<T>, body: Seq<bool>, b: usize, n: nat)
    requires
        hoisting::is_countable(ssa),
        n <= ssa.blocks.len(),
        b < ssa.blocks.len(),
        b < body.len(),
        body[b as int],
    ensures
        ({
            let places = seqs::flat(ssa.working_places_in(body), n);
            &&& forall|k: int| 0 <= k < places.len() ==> (#[trigger] places[k]).0 < n
            &&& forall|j: int, k: int|
                0 <= j < k < places.len() ==> (#[trigger] places[j]) != (#[trigger] places[k])
            &&& b < n ==> in_block(places, b, places.len()) >= deadcode::total(
                ssa.blocks[b as int].working_at(),
                ssa.blocks[b as int].instrs.len(),
            )
        }),
    decreases n,
{
    if n > 0 {
        lemma_pieces(ssa, body, b, (n - 1) as nat);
        let c = (n - 1) as usize;
        let before = seqs::flat(ssa.working_places_in(body), (n - 1) as nat);
        let piece = (ssa.working_places_in(body))(n - 1);
        let places = seqs::flat(ssa.working_places_in(body), n);
        assert(places == before + piece);
        assert(ssa.blocks[n - 1].instrs.len() <= usize::MAX);
        if n - 1 < body.len() && body[n - 1] {
            lemma_piece(ssa, c, ssa.blocks[n - 1].instrs.len());
        }
        lemma_in_block_add(before, piece, b, piece.len());
        assert forall|j: int, k: int|
            0 <= j < k < places.len() implies (#[trigger] places[j]) != (
        #[trigger] places[k]) by {
            if k < before.len() {
                assert(before[j] != before[k]);
            } else if j < before.len() {
                assert(before[j].0 < n - 1);
                assert(piece[k - before.len()].0 == c);
            } else {
                assert(piece[j - before.len()].1 < piece[k - before.len()].1);
            }
        }
        assert forall|k: int| 0 <= k < places.len() implies (#[trigger] places[k]).0 < n by {
            if k < before.len() {
                assert(before[k].0 < n - 1);
            } else {
                assert(piece[k - before.len()].0 == c);
            }
        }
    }
}

/// Where every place of a block of the loop moves, the block leads to no phi nodes.
proof fn lemma_emptied_blocks_lead_to_no_phis<T: Target>(
    ssa: SsaView<T>,
    info: LoopView,
    pre: usize,
    b: usize,
)
    requires
        hoisting::is_countable(ssa),
        b < ssa.blocks.len(),
        SsaView::<T>::leaves_block(ssa.moving(info, pre), b as int),
        forall|k: int|
            0 <= k < ssa.working_places(info.body).len() && (
            #[trigger] ssa.working_places(info.body)[k]).0 == b ==> ssa.moving(
                info,
                pre,
            ).contains(ssa.working_places(info.body)[k]),
    ensures
        !ssa.leads_to_phis(b),
{
    let places = ssa.working_places(info.body);
    let none = licm::none_placed(places.len());
    let steady = ssa.invariant_marks(info, places, none);
    let candidates = Seq::new(
        places.len(),
        |k: int| steady[k] && ssa.can_hoist(info, places[k]),
    );
    let marks = ssa.hoistable_marks(info, pre, places, candidates);
    let moving = ssa.moving(info, pre);
    let m = choose|m: int| 0 <= m < moving.len() && (#[trigger] moving[m]).0 == b;
    assert(moving.contains(moving[m]));
    let _ = hoisting::hoisted_instructions_are_invariant(ssa, info, pre, moving[m]);
    lemma_pieces(ssa, info.body, b, ssa.blocks.len());
    let j = seqs::lemma_flat_source(ssa.moving_at(places, marks), places.len(), moving[m]);
    assert(places[j] == moving[m] && !ssa.would_be_bare(places, marks, b));
    assert forall|k: int| 0 <= k < places.len() && (#[trigger] places[k]).0 == b implies marks[k] by {
        let l = seqs::lemma_flat_source(ssa.moving_at(places, marks), places.len(), places[k]);
        assert(places[l] == places[k] && marks[l]);
        if l < k {
            assert(places[l] != places[k]);
        } else if k < l {
            assert(places[k] != places[l]);
        }
    }
    lemma_all_leave(ssa, places, marks, b, places.len());
}

proof fn lemma_no_phis_to_move<T: Target>(
    ssa: SsaView<T>,
    targets: Seq<usize>,
    from: usize,
    to: usize,
    n: nat,
    c: int,
)
    requires
        n <= targets.len(),
        0 <= c < ssa.blocks.len(),
        forall|k: int|
            0 <= k < targets.len() && (#[trigger] targets[k]) < ssa.blocks.len()
                ==> ssa.blocks[targets[k] as int].phis.len() == 0,
    ensures
        ({
            let next = ssa.with_moved_phis(targets, from, to, n);
            &&& next.blocks.len() == ssa.blocks.len()
            &&& next.blocks[c].phis == ssa.blocks[c].phis
            &&& next.blocks[c].instrs == ssa.blocks[c].instrs
        }),
    decreases n,
{
    if n > 0 {
        lemma_no_phis_to_move(ssa, targets, from, to, (n - 1) as nat, c);
        let before = ssa.with_moved_phis(targets, from, to, (n - 1) as nat);
        let t = targets[n - 1];
        if t < before.blocks.len() && t == c {
            assert(ssa.blocks[t as int].phis.len() == 0);
            assert(before.blocks[t as int].moved(from, to).phis =~= before.blocks[t as int].phis);
        }
    }
}

proof fn lemma_nop_source<T: Target>(
    ssa: SsaView<T>,
    places: Seq<(usize, usize)>,
    n: nat,
    b: usize,
    i: usize,
)
    requires
        n <= places.len(),
        hoisting::name_idle(ssa, places),
        ssa.has_instr(b as int, i as int),
    ensures
        ssa.with_nops(places, n).blocks.len() == ssa.blocks.len(),
        ssa.with_nops(places, n).blocks[b as int].phis == ssa.blocks[b as int].phis,
        ssa.with_nops(places, n).blocks[b as int].instrs[i as int]
            != ssa.blocks[b as int].instrs[i as int] ==> places.contains((b, i)),
    decreases n,
{
    if n > 0 {
        lemma_nop_source(ssa, places, (n - 1) as nat, b, i);
        hoisting::lemma_nops(ssa, places, (n - 1) as nat, b as int);
        let p = places[n - 1];
        assert(p.0 < ssa.blocks.len());
        if p == (b, i) {
            assert(places.contains(p));
        }
    }
}

proof fn lemma_nops_keep_phis<T: Target>(
    ssa: SsaView<T>,
    places: Seq<(usize, usize)>,
    n: nat,
    c: int,
)
    requires
        n <= places.len(),
        hoisting::name_idle(ssa, places),
        0 <= c < ssa.blocks.len(),
    ensures
        ssa.with_nops(places, n).blocks[c].phis == ssa.blocks[c].phis,
    decreases n,
{
    if n > 0 {
        lemma_nops_keep_phis(ssa, places, (n - 1) as nat, c);
        hoisting::lemma_nops(ssa, places, (n - 1) as nat, c);
        assert(places[n - 1].0 < ssa.blocks.len());
    }
}

proof fn lemma_nothing_bypassed<T: Target>(
    ssa: SsaView<T>,
    placed: SsaView<T>,
    info: LoopView,
    pre: usize,
    n: nat,
    c: int,
)
    requires
        hoisting::is_countable(ssa),
        pre < ssa.blocks.len(),
        hoisting::name_idle(ssa, ssa.moving(info, pre)),
        placed.blocks.len() == ssa.blocks.len(),
        n <= ssa.blocks.len(),
        0 <= c < ssa.blocks.len(),
        forall|b: int|
            0 <= b < ssa.blocks.len() ==> (#[trigger] placed.blocks[b]).phis == ssa.blocks[b].phis,
        forall|b: int|
            0 <= b < ssa.blocks.len() && b != pre ==> (#[trigger] placed.blocks[b]).instrs
                == ssa.with_nops(
                ssa.moving(info, pre),
                ssa.moving(info, pre).len(),
            ).blocks[b].instrs,
        ssa.moving(info, pre).len() > 0 ==> !placed.blocks[pre as int].only_ends(),
    ensures
        ({
            let next = placed.with_bare_blocks_bypassed(ssa.moving(info, pre), pre, n);
            &&& next.blocks.len() == ssa.blocks.len()
            &&& next.blocks[c].phis == ssa.blocks[c].phis
            &&& next.blocks[c].instrs == placed.blocks[c].instrs
        }),
    decreases n,
{
    if n > 0 {
        let places = ssa.moving(info, pre);
        let m = (n - 1) as nat;
        let b = (n - 1) as usize;
        lemma_nothing_bypassed(ssa, placed, info, pre, m, c);
        lemma_nothing_bypassed(ssa, placed, info, pre, m, b as int);
        let before = placed.with_bare_blocks_bypassed(places, pre, m);
        if SsaView::<T>::leaves_block(places, b as int) && before.blocks[b as int].only_ends() {
            assert(b != pre);
            let emptied = ssa.with_nops(places, places.len());
            hoisting::lemma_nops(ssa, places, places.len(), b as int);
            let instrs = before.blocks[b as int].instrs;
            assert(placed.blocks[b as int].instrs == emptied.blocks[b as int].instrs);
            let working = ssa.working_places(info.body);
            assert forall|k: int| 0 <= k < working.len() && (#[trigger] working[k]).0 == b implies
                places.contains(working[k]) by {
                hoisting::lemma_working_place(ssa, info.body, k);
                let i = working[k].1;
                assert(instrs[i as int].ends_block() || instrs[i as int] is Nop);
                lemma_nop_source(ssa, places, places.len(), b, i);
            }
            lemma_emptied_blocks_lead_to_no_phis(ssa, info, pre, b);
            let targets = before.last_targets(b as int);
            assert forall|k: int|
                0 <= k < targets.len() && (#[trigger] targets[k])
                    < before.blocks.len() implies before.blocks[targets[k] as int].phis.len()
                == 0 by {
                let t = targets[k];
                lemma_nothing_bypassed(ssa, placed, info, pre, m, t as int);
                let last = instrs.last();
                assert(last.ends_block());
                assert(emptied.blocks[b as int].instrs[instrs.len() - 1] == ssa.blocks[b as int].instrs[instrs.len() - 1]
                    || emptied.blocks[b as int].instrs[instrs.len() - 1] is Nop);
                assert(last == ssa.blocks[b as int].instrs.last());
                assert(ssa.blocks[b as int].successors()[k] == t);
            }
            lemma_no_phis_to_move(before, targets, b, pre, targets.len(), c);
        }
    }
}

/// Moving invariant code to the preheader leaves every phi node as it was.
pub proof fn hoisting_keeps_phis<T: Target>(ssa: SsaView<T>, info: LoopView, pre: usize, c: int)
    requires
        hoisting::is_countable(ssa),
        pre < ssa.blocks.len(),
        0 <= c < ssa.blocks.len(),
    ensures
        ssa.hoisted(ssa.moving(info, pre), pre).blocks[c].phis == ssa.blocks[c].phis,
{
    let places = ssa.moving(info, pre);
    assert forall|j: int| 0 <= j < places.len() implies (#[trigger] places[j]).0 < ssa.blocks.len()
        && places[j].1 < ssa.blocks[places[j].0 as int].instrs.len() && !steps::acts(
        ssa.op_at(places[j]),
    ) by {
        assert(places.contains(places[j]));
        let _ = hoisting::hoisted_instructions_are_invariant(ssa, info, pre, places[j]);
    }
    let emptied = ssa.with_nops(places, places.len());
    hoisting::lemma_nops(ssa, places, places.len(), pre as int);
    hoisting::lemma_hoisted_block(ssa, places, pre, pre as int);
    let at = ssa.blocks[pre as int].insertion_point();
    let block = emptied.blocks[pre as int];
    let placed = emptied.with_block(
        pre as int,
        block.with_instrs(
            block.instrs.take(at) + ssa.ordered_ops(places) + block.instrs.skip(at),
        ),
    );
    assert forall|b: int| 0 <= b < ssa.blocks.len() implies (#[trigger] placed.blocks[b]).phis
        == ssa.blocks[b].phis by {
        lemma_nops_keep_phis(ssa, places, places.len(), b);
    }
    if places.len() > 0 {
        let op = ssa.op_at(places[0]);
        assert(places.contains(places[0]));
        let _ = hoisting::hoisted_instructions_are_invariant(ssa, info, pre, places[0]);
        hoisting::hoisted_instructions_arrive(ssa, info, pre, 0);
        let instrs = placed.blocks[pre as int].instrs;
        let k = choose|k: int| 0 <= k < instrs.len() && instrs[k] == op;
        assert(!op.ends_block());
        lemma_not_nop(op);
        assert(!(instrs[k].ends_block() || instrs[k] is Nop));
    }
    lemma_nothing_bypassed(ssa, placed, info, pre, ssa.blocks.len(), c);
}

proof fn lemma_not_nop<T: Target>(op: OpView<T>)
    requires
        steps::always_computes(op) || op is LoadLocal || op is LoadLocalAddr || op is LoadToken,
    ensures
        !(op is Nop),
{
    if op is Nop {
        let env = |v: SsaVarId| 0u64;
        let args = |i: usize| 0u64;
        assert(meaning::result(op, env, args) is None);
    }
}

} // verus!
