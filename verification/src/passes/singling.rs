//! A function that is rebuilt assigns every variable once.
use crate::analysis::assignments;
use crate::analysis::dominance;
use crate::ir::defects;
use crate::ir::edit;
use crate::ir::function::SsaView;
use crate::ir::ops::OpView;
use crate::ir::phi::PhiView;
use crate::ir::renaming;
use crate::ir::variable::SsaVarId;
use crate::passes::mending;
use crate::passes::rebuild;
use crate::target::Target;
use vstd::prelude::*;

verus! {

/// How often `w` stands in a list.
spec fn occurrences(s: Seq<SsaVarId>, w: SsaVarId) -> nat
    decreases s.len(),
{
    if s.len() == 0 {
        0
    } else {
        occurrences(s.drop_last(), w) + if s.last() == w {
            1nat
        } else {
            0
        }
    }
}

proof fn lemma_occurrences_add(s: Seq<SsaVarId>, t: Seq<SsaVarId>, w: SsaVarId)
    ensures
        occurrences(s + t, w) == occurrences(s, w) + occurrences(t, w),
    decreases t.len(),
{
    if t.len() == 0 {
        assert(s + t =~= s);
    } else {
        assert((s + t).drop_last() =~= s + t.drop_last());
        assert((s + t).last() == t.last());
        lemma_occurrences_add(s, t.drop_last(), w);
    }
}

proof fn lemma_occurs(s: Seq<SsaVarId>, w: SsaVarId)
    ensures
        s.contains(w) <==> occurrences(s, w) > 0,
        defects::is_repeated(s, w) <==> occurrences(s, w) > 1,
    decreases s.len(),
{
    if s.len() > 0 {
        let t = s.drop_last();
        let n = s.len() - 1;
        lemma_occurs(t, w);
        if t.contains(w) {
            let k = choose|k: int| 0 <= k < t.len() && t[k] == w;
            assert(s[k] == w);
            if s.last() == w {
                assert(s[k] == w && s[n] == w);
                assert(defects::is_repeated(s, w));
            }
        }
        if s.contains(w) && s.last() != w {
            let k = choose|k: int| 0 <= k < s.len() && s[k] == w;
            assert(t[k] == w);
        }
        if s.last() == w {
            assert(s[n] == w);
        }
        if defects::is_repeated(t, w) {
            let (i, j) = choose|i: int, j: int|
                0 <= i < j < t.len() && #[trigger] t[i] == w && #[trigger] t[j] == w;
            assert(s[i] == w && s[j] == w);
        }
        if defects::is_repeated(s, w) {
            let (i, j) = choose|i: int, j: int|
                0 <= i < j < s.len() && #[trigger] s[i] == w && #[trigger] s[j] == w;
            assert(t[i] == w);
            if j < n {
                assert(t[j] == w);
            }
        }
    }
}

proof fn lemma_single_occurrences(s: Seq<SsaVarId>)
    requires
        forall|w: SsaVarId| #[trigger] occurrences(s, w) <= 1,
    ensures
        s.no_duplicates(),
{
    assert forall|i: int, j: int| 0 <= i < s.len() && 0 <= j < s.len() && i != j implies s[i]
        != s[j] by {
        if s[i] == s[j] {
            let w = s[i];
            lemma_occurs(s, w);
            assert(occurrences(s, w) <= 1);
            if i < j {
                assert(s[i] == w && s[j] == w);
            } else {
                assert(s[j] == w && s[i] == w);
            }
            assert(defects::is_repeated(s, w));
        }
    }
}

/// What becomes of the occurrences of `w` where `v` is split: its own are gone, those of others stay,
/// and each of the numbers from `low` to below `high` occurs once.
spec fn after_split(
    old_count: nat,
    v: SsaVarId,
    w: SsaVarId,
    base: nat,
    low: nat,
    high: nat,
) -> nat {
    if w == v {
        0
    } else if w.0 < base {
        old_count
    } else if low <= w.0 < high {
        1
    } else {
        0
    }
}

proof fn lemma_split_phi_defs<T: Target>(ssa: SsaView<T>, v: SsaVarId, b: int, n: nat, w: SsaVarId)
    requires
        0 <= b < ssa.blocks.len(),
        n <= ssa.blocks[b].phis.len(),
        v.0 < ssa.vars.len(),
        ssa.block_in_range(b),
        ssa.vars.len() + ssa.parts(v, b as nat) + ssa.placed(v, b) + rebuild::phi_count(
            ssa.blocks[b].phis,
            v,
            n,
        ) <= usize::MAX,
    ensures
        ({
            let low = ssa.vars.len() + ssa.parts(v, b as nat) + ssa.placed(v, b);
            let phis = Seq::new(ssa.blocks[b].phis.len(), |p: int| ssa.split_phi(v, b, p));
            occurrences(edit::phi_defs(phis, n), w) == after_split(
                occurrences(edit::phi_defs(ssa.blocks[b].phis, n), w),
                v,
                w,
                ssa.vars.len(),
                low,
                low + rebuild::phi_count(ssa.blocks[b].phis, v, n),
            )
        }),
    decreases n,
{
    let phis = Seq::new(ssa.blocks[b].phis.len(), |p: int| ssa.split_phi(v, b, p));
    let was = ssa.blocks[b].phis;
    if n > 0 {
        let m = (n - 1) as nat;
        lemma_split_phi_defs(ssa, v, b, m, w);
        assert(ssa.phi_in_range(was[n - 1]));
        let a = edit::phi_defs(phis, m);
        let o = edit::phi_defs(was, m);
        assert(edit::phi_defs(phis, n).drop_last() =~= a);
        assert(edit::phi_defs(was, n).drop_last() =~= o);
        assert(edit::phi_defs(phis, n).last() == ssa.split_phi(v, b, n - 1).result);
        assert(edit::phi_defs(was, n).last() == was[n - 1].result);
    } else {
        assert(edit::phi_defs(phis, 0).len() == 0);
        assert(edit::phi_defs(was, 0).len() == 0);
    }
}

proof fn lemma_renamed_defs<T: Target>(
    op: OpView<T>,
    v: SsaVarId,
    read: SsaVarId,
    new: SsaVarId,
    w: SsaVarId,
)
    requires
        new != v,
        !op.defs().contains(new),
    ensures
        ({
            let made = op.reading(v, read).assigning(v, new);
            &&& occurrences(made.defs(), w) == (if w == v {
                0
            } else if w == new {
                occurrences(op.defs(), v)
            } else {
                occurrences(op.defs(), w)
            })
            &&& made.successors() == op.successors()
            &&& made.uses() == op.reading(v, read).uses()
        }),
{
    renaming::lemma_reading(op, v, read);
    renaming::lemma_assigning(op.reading(v, read), v, new);
    renaming::lemma_not_assigned(op, new);
    let made = op.reading(v, read).assigning(v, new);
    reveal_with_fuel(occurrences, 3);
    match (op.result(), op.flags_result()) {
        (Some(r), Some(f)) => {
            assert(op.defs() =~= seq![r, f]);
            assert(seq![r, f].drop_last() =~= seq![r]);
            let (r2, f2) = (made.result().unwrap(), made.flags_result().unwrap());
            assert(made.defs() =~= seq![r2, f2]);
            assert(seq![r2, f2].drop_last() =~= seq![r2]);
            assert(seq![r].drop_last() =~= Seq::empty());
            assert(seq![r2].drop_last() =~= Seq::empty());
        },
        (Some(r), None) => {
            assert(op.defs() =~= seq![r]);
            let r2 = made.result().unwrap();
            assert(made.defs() =~= seq![r2]);
            assert(seq![r].drop_last() =~= Seq::empty());
            assert(seq![r2].drop_last() =~= Seq::empty());
        },
        (None, Some(f)) => {
            assert(op.defs() =~= seq![f]);
            let f2 = made.flags_result().unwrap();
            assert(made.defs() =~= seq![f2]);
            assert(seq![f].drop_last() =~= Seq::empty());
            assert(seq![f2].drop_last() =~= Seq::empty());
        },
        (None, None) => {
            assert(op.defs() =~= Seq::empty());
            assert(made.defs() =~= Seq::empty());
        },
    }
}

proof fn lemma_split_instr_defs<T: Target>(
    ssa: SsaView<T>,
    v: SsaVarId,
    b: int,
    n: nat,
    w: SsaVarId,
)
    requires
        0 <= b < ssa.blocks.len(),
        n <= ssa.blocks[b].instrs.len(),
        v.0 < ssa.vars.len(),
        ssa.block_in_range(b),
        forall|i: int|
            0 <= i < ssa.blocks[b].instrs.len() ==> occurrences(
                (#[trigger] ssa.blocks[b].instrs[i]).defs(),
                v,
            ) <= 1,
        ssa.vars.len() + ssa.parts(v, b as nat) + ssa.placed(v, b) + ssa.count_in(v, b)
            <= usize::MAX,
    ensures
        ({
            let low = ssa.vars.len() + ssa.parts(v, b as nat) + ssa.placed(v, b)
                + rebuild::phi_count(ssa.blocks[b].phis, v, ssa.blocks[b].phis.len());
            let instrs = Seq::new(ssa.blocks[b].instrs.len(), |i: int| ssa.split_op(v, b, i));
            occurrences(edit::instr_defs(instrs, n), w) == after_split(
                occurrences(edit::instr_defs(ssa.blocks[b].instrs, n), w),
                v,
                w,
                ssa.vars.len(),
                low,
                low + rebuild::instr_count(ssa.blocks[b].instrs, v, n),
            )
        }),
    decreases n,
{
    let instrs = Seq::new(ssa.blocks[b].instrs.len(), |i: int| ssa.split_op(v, b, i));
    let was = ssa.blocks[b].instrs;
    if n > 0 {
        let m = (n - 1) as nat;
        lemma_split_instr_defs(ssa, v, b, m, w);
        let op = was[n - 1];
        assert(ssa.op_in_range(op));
        let j = ssa.count_before(v, b, n - 1) as int;
        rebuild::lemma_instr_count(was, v, m, was.len());
        rebuild::lemma_instr_count(was, v, n, was.len());
        let new = ssa.part(v, b, j);
        lemma_occurs(op.defs(), v);
        lemma_occurs(op.defs(), w);
        if op.defs().contains(v) {
            assert(new.0 == ssa.vars.len() + ssa.parts(v, b as nat) + ssa.placed(v, b) + j);
            assert(!op.defs().contains(new)) by {
                if op.defs().contains(new) {
                    let k = choose|k: int| 0 <= k < op.defs().len() && op.defs()[k] == new;
                    assert(op.defs()[k].0 < ssa.vars.len());
                }
            }
            lemma_renamed_defs(op, v, ssa.part_after(v, b, j), new, w);
        } else {
            renaming::lemma_reading(op, v, ssa.part_after(v, b, j));
            renaming::lemma_not_assigned(op, v);
            renaming::lemma_nothing_assigned(op.reading(v, ssa.part_after(v, b, j)), v, new);
        }
        if w.0 >= ssa.vars.len() {
            assert(!op.defs().contains(w)) by {
                if op.defs().contains(w) {
                    let k = choose|k: int| 0 <= k < op.defs().len() && op.defs()[k] == w;
                    assert(op.defs()[k].0 < ssa.vars.len());
                }
            }
        }
        lemma_occurrences_add(edit::instr_defs(instrs, m), instrs[n - 1].defs(), w);
        lemma_occurrences_add(edit::instr_defs(was, m), op.defs(), w);
    }
}

proof fn lemma_phi_defs_after(first: PhiView, phis: Seq<PhiView>, n: nat)
    requires
        n <= phis.len(),
    ensures
        edit::phi_defs(seq![first] + phis, n + 1) == seq![first.result] + edit::phi_defs(phis, n),
    decreases n,
{
    let all = seq![first] + phis;
    if n == 0 {
        assert(edit::phi_defs(all, 0) =~= Seq::empty());
        assert(edit::phi_defs(all, 1) =~= seq![first.result] + edit::phi_defs(phis, 0));
    } else {
        lemma_phi_defs_after(first, phis, (n - 1) as nat);
        assert(all[n as int] == phis[n - 1]);
        assert(edit::phi_defs(all, n + 1) =~= seq![first.result] + edit::phi_defs(phis, n));
    }
}

/// Every instruction assigns a variable once at most.
spec fn assigns_apart<T: Target>(ssa: SsaView<T>, v: SsaVarId) -> bool {
    forall|b: int, i: int|
        0 <= b < ssa.blocks.len() && 0 <= i < ssa.blocks[b].instrs.len() ==> occurrences(
            (#[trigger] ssa.blocks[b].instrs[i]).defs(),
            v,
        ) <= 1
}

proof fn lemma_split_defs<T: Target>(ssa: SsaView<T>, v: SsaVarId, n: nat, w: SsaVarId)
    requires
        n <= ssa.blocks.len(),
        v.0 < ssa.vars.len(),
        forall|b: int| 0 <= b < ssa.blocks.len() ==> #[trigger] ssa.block_in_range(b),
        assigns_apart(ssa, v),
        ssa.vars.len() + ssa.parts(v, n) <= usize::MAX,
    ensures
        occurrences(edit::block_defs(ssa.split(v).blocks, n), w) == after_split(
            occurrences(edit::block_defs(ssa.blocks, n), w),
            v,
            w,
            ssa.vars.len(),
            ssa.vars.len(),
            ssa.vars.len() + ssa.parts(v, n),
        ),
    decreases n,
{
    if n > 0 {
        let m = (n - 1) as nat;
        let b = n - 1;
        lemma_split_defs(ssa, v, m, w);
        let was = ssa.blocks[b];
        let now = ssa.split(v).blocks[b];
        assert(now == ssa.split_block(v, b));
        assert(ssa.block_in_range(b));
        let phis = Seq::new(was.phis.len(), |p: int| ssa.split_phi(v, b, p));
        lemma_split_phi_defs(ssa, v, b, was.phis.len(), w);
        lemma_split_instr_defs(ssa, v, b, was.instrs.len(), w);
        let phi_defs = edit::phi_defs(now.phis, now.phis.len());
        let instr_defs = edit::instr_defs(now.instrs, now.instrs.len());
        let before = edit::block_defs(ssa.split(v).blocks, m);
        lemma_occurrences_add(before, phi_defs, w);
        lemma_occurrences_add(before + phi_defs, instr_defs, w);
        let old_phis = edit::phi_defs(was.phis, was.phis.len());
        let old_instrs = edit::instr_defs(was.instrs, was.instrs.len());
        let old_before = edit::block_defs(ssa.blocks, m);
        lemma_occurrences_add(old_before, old_phis, w);
        lemma_occurrences_add(old_before + old_phis, old_instrs, w);
        if ssa.needs_phi(v, b as usize) {
            let placed = ssa.placed_phi(v, b);
            lemma_phi_defs_after(placed, phis, phis.len());
            lemma_occurrences_add(
                seq![placed.result],
                edit::phi_defs(phis, phis.len()),
                w,
            );
            reveal_with_fuel(occurrences, 2);
            assert(seq![placed.result].drop_last() =~= Seq::empty());
            assert(placed.result.0 == ssa.vars.len() + ssa.parts(v, b as nat));
        }
        lemma_none_beyond(ssa, m, w);
        lemma_none_beyond(ssa, n, w);
    }
}

/// Nothing is assigned that the function does not have.
proof fn lemma_none_beyond<T: Target>(ssa: SsaView<T>, n: nat, w: SsaVarId)
    requires
        n <= ssa.blocks.len(),
        forall|b: int| 0 <= b < ssa.blocks.len() ==> #[trigger] ssa.block_in_range(b),
    ensures
        w.0 >= ssa.vars.len() ==> occurrences(edit::block_defs(ssa.blocks, n), w) == 0,
{
    let defs = edit::block_defs(ssa.blocks, n);
    lemma_occurs(defs, w);
    if defs.contains(w) {
        let k = choose|k: int| 0 <= k < defs.len() && defs[k] == w;
        assignments::lemma_assigned_below(ssa, n, k);
    }
}

proof fn lemma_parts_grow<T: Target>(ssa: SsaView<T>, v: SsaVarId, m: nat, n: nat)
    requires
        m <= n,
    ensures
        ssa.parts(v, m) <= ssa.parts(v, n),
    decreases n,
{
    if m < n {
        lemma_parts_grow(ssa, v, m, (n - 1) as nat);
    }
}

/// What holds the value of `v` is a variable of the function that is split.
proof fn lemma_value_in_range<T: Target>(ssa: SsaView<T>, v: SsaVarId, b: int, j: int)
    requires
        0 <= b < ssa.blocks.len() <= usize::MAX,
        0 <= j <= ssa.count_in(v, b),
        v.0 < ssa.vars.len(),
        ssa.vars.len() + ssa.parts(v, ssa.blocks.len()) <= usize::MAX,
    ensures
        ssa.part_after(v, b, j).0 < ssa.vars.len() + ssa.parts(v, ssa.blocks.len()),
        j < ssa.count_in(v, b) ==> ssa.part(v, b, j).0 < ssa.vars.len() + ssa.parts(
            v,
            ssa.blocks.len(),
        ),
        ssa.needs_phi(v, b as usize) ==> ssa.phi_part(v, b).0 < ssa.vars.len() + ssa.parts(
            v,
            ssa.blocks.len(),
        ),
{
    let n = ssa.blocks.len();
    lemma_parts_grow(ssa, v, (b + 1) as nat, n);
    if j == 0 && !ssa.needs_phi(v, b as usize) {
        if let Some(m) = ssa.nearest(v, b as usize) {
            assert(ssa.is_nearest(v, b as usize, m));
            rebuild::lemma_marked(ssa, v, m);
            lemma_parts_grow(ssa, v, (m + 1) as nat, n);
        }
    }
}

proof fn lemma_split_op_in_range<T: Target>(ssa: SsaView<T>, v: SsaVarId, b: int, i: int)
    requires
        0 <= b < ssa.blocks.len() <= usize::MAX,
        0 <= i < ssa.blocks[b].instrs.len(),
        v.0 < ssa.vars.len(),
        ssa.block_in_range(b),
        ssa.vars.len() + ssa.parts(v, ssa.blocks.len()) <= usize::MAX,
    ensures
        ssa.split(v).op_in_range(ssa.split_op(v, b, i)),
{
    let next = ssa.split(v);
    let op = ssa.blocks[b].instrs[i];
    let j = ssa.count_before(v, b, i) as int;
    let read = ssa.part_after(v, b, j);
    let new = ssa.part(v, b, j);
    let instrs = ssa.blocks[b].instrs;
    assert(ssa.op_in_range(op));
    rebuild::lemma_instr_count(instrs, v, i as nat, instrs.len());
    rebuild::lemma_instr_count(instrs, v, (i + 1) as nat, instrs.len());
    lemma_value_in_range(ssa, v, b, j);
    let middle = op.reading(v, read);
    let made = middle.assigning(v, new);
    assert(made == ssa.split_op(v, b, i));
    renaming::lemma_reading(op, v, read);
    renaming::lemma_reading_uses(op, v, read);
    renaming::lemma_assigning(middle, v, new);
    assert forall|k: int| 0 <= k < made.uses().len() implies (#[trigger] made.uses()[k]).0
        < next.vars.len() by {
        assert(op.uses()[k].0 < ssa.vars.len());
    }
    if !op.defs().contains(v) {
        renaming::lemma_not_assigned(op, v);
        renaming::lemma_nothing_assigned(middle, v, new);
    }
    assert forall|k: int| 0 <= k < made.defs().len() implies (#[trigger] made.defs()[k]).0
        < next.vars.len() by {
        assert(op.defs()[k].0 < ssa.vars.len());
    }
}

proof fn lemma_split_in_range<T: Target>(ssa: SsaView<T>, v: SsaVarId)
    requires
        ssa.blocks.len() <= usize::MAX,
        v.0 < ssa.vars.len(),
        forall|b: int| 0 <= b < ssa.blocks.len() ==> #[trigger] ssa.block_in_range(b),
        ssa.vars.len() + ssa.parts(v, ssa.blocks.len()) <= usize::MAX,
    ensures
        forall|b: int|
            0 <= b < ssa.split(v).blocks.len() ==> #[trigger] ssa.split(v).block_in_range(b),
{
    let next = ssa.split(v);
    assert forall|b: int| 0 <= b < next.blocks.len() implies #[trigger] next.block_in_range(b) by {
        assert(ssa.block_in_range(b));
        assert(next.blocks[b] == ssa.split_block(v, b));
        let join = ssa.needs_phi(v, b as usize);
        assert forall|p: int| 0 <= p < next.blocks[b].phis.len() implies next.phi_in_range(
            #[trigger] next.blocks[b].phis[p],
        ) by {
            lemma_value_in_range(ssa, v, b, 0);
            if join && p == 0 {
                let from = ssa.predecessors(b as usize);
                let phi = ssa.placed_phi(v, b);
                assert(next.blocks[b].phis[p] == phi);
                assert forall|k: int| 0 <= k < phi.operands.len() implies (
                #[trigger] phi.operands[k]).value.0 < next.vars.len()
                    && phi.operands[k].predecessor < next.blocks.len() by {
                    assert(from.contains(from[k]));
                    dominance::predecessors_have_edges(ssa, b as usize, from[k]);
                    lemma_value_in_range(
                        ssa,
                        v,
                        from[k] as int,
                        ssa.count_in(v, from[k] as int) as int,
                    );
                }
            } else {
                let q: int = if join {
                    p - 1
                } else {
                    p
                };
                let was = ssa.blocks[b].phis[q];
                let phi = ssa.split_phi(v, b, q);
                assert(next.blocks[b].phis[p] == phi);
                assert(ssa.phi_in_range(was));
                rebuild::lemma_phi_count(ssa.blocks[b].phis, v, q as nat, ssa.blocks[b].phis.len());
                rebuild::lemma_phi_count(
                    ssa.blocks[b].phis,
                    v,
                    (q + 1) as nat,
                    ssa.blocks[b].phis.len(),
                );
                lemma_value_in_range(
                    ssa,
                    v,
                    b,
                    rebuild::phi_count(ssa.blocks[b].phis, v, q as nat) as int,
                );
                assert forall|k: int| 0 <= k < phi.operands.len() implies (
                #[trigger] phi.operands[k]).value.0 < next.vars.len()
                    && phi.operands[k].predecessor < next.blocks.len() by {
                    let o = was.operands[k];
                    assert(o.value.0 < ssa.vars.len() && o.predecessor < ssa.blocks.len());
                    lemma_value_in_range(
                        ssa,
                        v,
                        o.predecessor as int,
                        ssa.count_in(v, o.predecessor as int) as int,
                    );
                }
            }
        }
        assert forall|i: int| 0 <= i < next.blocks[b].instrs.len() implies next.op_in_range(
            #[trigger] next.blocks[b].instrs[i],
        ) by {
            lemma_split_op_in_range(ssa, v, b, i);
        }
    }
}

proof fn lemma_split_apart<T: Target>(ssa: SsaView<T>, v: SsaVarId, w: SsaVarId)
    requires
        ssa.blocks.len() <= usize::MAX,
        v.0 < ssa.vars.len(),
        w.0 < ssa.vars.len(),
        forall|b: int| 0 <= b < ssa.blocks.len() ==> #[trigger] ssa.block_in_range(b),
        assigns_apart(ssa, w),
        ssa.vars.len() + ssa.parts(v, ssa.blocks.len()) <= usize::MAX,
    ensures
        assigns_apart(ssa.split(v), w),
{
    let next = ssa.split(v);
    assert forall|b: int, i: int|
        0 <= b < next.blocks.len() && 0 <= i < next.blocks[b].instrs.len() implies occurrences(
        (#[trigger] next.blocks[b].instrs[i]).defs(),
        w,
    ) <= 1 by {
        assert(ssa.block_in_range(b));
        let op = ssa.blocks[b].instrs[i];
        assert(ssa.op_in_range(op));
        assert(occurrences(op.defs(), w) <= 1);
        let instrs = ssa.blocks[b].instrs;
        let j = ssa.count_before(v, b, i) as int;
        let read = ssa.part_after(v, b, j);
        let new = ssa.part(v, b, j);
        assert(next.blocks[b].instrs[i] == ssa.split_op(v, b, i));
        if op.defs().contains(v) {
            rebuild::lemma_instr_count(instrs, v, (i + 1) as nat, instrs.len());
            lemma_parts_grow(ssa, v, (b + 1) as nat, ssa.blocks.len());
            assert(new.0 >= ssa.vars.len());
            assert(!op.defs().contains(new)) by {
                if op.defs().contains(new) {
                    let k = choose|k: int| 0 <= k < op.defs().len() && op.defs()[k] == new;
                    assert(op.defs()[k].0 < ssa.vars.len());
                }
            }
            lemma_renamed_defs(op, v, read, new, w);
        } else {
            renaming::lemma_reading(op, v, read);
            renaming::lemma_not_assigned(op, v);
            renaming::lemma_nothing_assigned(op.reading(v, read), v, new);
        }
    }
}

proof fn lemma_split_all<T: Target>(ssa: SsaView<T>, n: nat)
    requires
        ssa.blocks.len() <= usize::MAX,
        n <= ssa.vars.len(),
        forall|b: int| 0 <= b < ssa.blocks.len() ==> #[trigger] ssa.block_in_range(b),
        forall|w: SsaVarId| #[trigger] assigns_apart(ssa, w),
        ssa.split_all(edit::block_defs(ssa.blocks, ssa.blocks.len()), n).vars.len() <= usize::MAX,
    ensures
        ({
            let defs = edit::block_defs(ssa.blocks, ssa.blocks.len());
            let end = ssa.split_all(defs, n);
            let made = edit::block_defs(end.blocks, end.blocks.len());
            &&& end.blocks.len() == ssa.blocks.len()
            &&& end.vars.len() >= ssa.vars.len()
            &&& forall|b: int| 0 <= b < end.blocks.len() ==> #[trigger] end.block_in_range(b)
            &&& forall|w: SsaVarId|
                (w.0 < n || w.0 >= ssa.vars.len()) ==> #[trigger] occurrences(made, w) <= 1
            &&& forall|w: SsaVarId|
                n <= w.0 < ssa.vars.len() ==> #[trigger] occurrences(made, w) == occurrences(
                    defs,
                    w,
                )
            &&& forall|w: SsaVarId| w.0 < ssa.vars.len() ==> #[trigger] assigns_apart(end, w)
        }),
    decreases n,
{
    let defs = edit::block_defs(ssa.blocks, ssa.blocks.len());
    let end = ssa.split_all(defs, n);
    let made = edit::block_defs(end.blocks, end.blocks.len());
    if n == 0 {
        assert forall|w: SsaVarId| w.0 >= ssa.vars.len() implies #[trigger] occurrences(made, w)
            <= 1 by {
            lemma_none_beyond(ssa, ssa.blocks.len(), w);
        }
    } else {
        let m = (n - 1) as nat;
        let before = ssa.split_all(defs, m);
        let v = SsaVarId(m as usize);
        lemma_split_all(ssa, m);
        let was = edit::block_defs(before.blocks, before.blocks.len());
        lemma_occurs(defs, v);
        assert(occurrences(was, v) == occurrences(defs, v));
        if defects::is_repeated(defs, v) {
            assert(end == before.split(v));
            assert(assigns_apart(before, v));
            lemma_split_in_range(before, v);
            assert forall|w: SsaVarId| #[trigger] occurrences(made, w) == after_split(
                occurrences(was, w),
                v,
                w,
                before.vars.len(),
                before.vars.len(),
                before.vars.len() + before.parts(v, before.blocks.len()),
            ) by {
                lemma_split_defs(before, v, before.blocks.len(), w);
            }
            assert forall|w: SsaVarId| w.0 < ssa.vars.len() implies #[trigger] assigns_apart(
                end,
                w,
            ) by {
                assert(assigns_apart(before, w));
                lemma_split_apart(before, v, w);
            }
            assert forall|w: SsaVarId|
                w.0 < n || w.0 >= ssa.vars.len() implies #[trigger] occurrences(made, w) <= 1 by {
                if w != v {
                    assert(occurrences(was, w) <= 1);
                }
            }
            assert forall|w: SsaVarId|
                n <= w.0 < ssa.vars.len() implies #[trigger] occurrences(made, w) == occurrences(
                defs,
                w,
            ) by {
                assert(occurrences(was, w) == occurrences(defs, w));
            }
        } else {
            assert(end == before);
            assert forall|w: SsaVarId|
                w.0 < n || w.0 >= ssa.vars.len() implies #[trigger] occurrences(made, w) <= 1 by {
                if w != v {
                    assert(occurrences(was, w) <= 1);
                }
            }
        }
    }
}

/// A function that mentions only its own blocks and variables, and in which no instruction assigns
/// one variable both its result and its flags, is well-formed once it is rebuilt, however often its
/// variables are assigned.
pub proof fn rebuilt_functions_are_well_formed<T: Target>(ssa: SsaView<T>)
    requires
        ssa.blocks.len() <= usize::MAX,
        forall|b: int| 0 <= b < ssa.blocks.len() ==> #[trigger] ssa.block_in_range(b),
        forall|b: int, i: int|
            0 <= b < ssa.blocks.len() && 0 <= i < ssa.blocks[b].instrs.len() ==> (
            #[trigger] ssa.blocks[b].instrs[i]).defs().no_duplicates(),
        ssa.rebuilt().vars.len() <= usize::MAX,
    ensures
        ssa.rebuilt().well_formed(),
{
    let plain = ssa.repaired();
    let fed = plain.without_lost_edges();
    mending::repair_keeps_range(ssa);
    rebuild::lemma_fed_in_range(plain);
    let defs = edit::block_defs(plain.blocks, plain.blocks.len());
    rebuild::lemma_fed_defs(plain, plain.blocks.len());
    assert(defs == edit::block_defs(fed.blocks, fed.blocks.len()));
    assert forall|w: SsaVarId| #[trigger] assigns_apart(fed, w) by {
        assert forall|b: int, i: int|
            0 <= b < fed.blocks.len() && 0 <= i < fed.blocks[b].instrs.len() implies occurrences(
            (#[trigger] fed.blocks[b].instrs[i]).defs(),
            w,
        ) <= 1 by {
            let op = fed.blocks[b].instrs[i];
            assert(op == plain.blocks[b].instrs[i]);
            let k = mending::lemma_kept_instr(ssa.blocks[b].instrs, ssa.blocks[b].instrs.len(), i);
            assert(op == ssa.blocks[b].instrs[k]);
            lemma_occurs(op.defs(), w);
            if defects::is_repeated(op.defs(), w) {
                let d = op.defs();
                let (x, y) = choose|x: int, y: int|
                    0 <= x < y < d.len() && #[trigger] d[x] == w && #[trigger] d[y] == w;
                assert(d[x] == d[y]);
            }
        }
    }
    let end = fed.split_all(defs, fed.vars.len());
    assert(ssa.rebuilt().vars.len() == end.vars.len());
    lemma_split_all(fed, fed.vars.len());
    let made = edit::block_defs(end.blocks, end.blocks.len());
    assert forall|w: SsaVarId| #[trigger] occurrences(made, w) <= 1 by {}
    lemma_single_occurrences(made);
    mending::light_repair_keeps_well_formed(end);
}

} // verus!
