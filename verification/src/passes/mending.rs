//! Repairs keep a function well-formed.
use crate::analysis::assignments;
use crate::analysis::assignments::own_defs;
use crate::ir::edit;
use crate::ir::function;
use crate::ir::function::SsaView;
use crate::ir::ops::{Op, OpView};
use crate::ir::phi::{PhiOperand, PhiView};
use crate::ir::variable::SsaVarId;
use crate::passes::deadcode;
use crate::target::Target;
use vstd::prelude::*;

verus! {

proof fn lemma_defs_append<T: Target>(a: Seq<OpView<T>>, b: Seq<OpView<T>>, n: nat)
    requires
        n <= b.len(),
    ensures
        edit::instr_defs(a + b, a.len() + n) == edit::instr_defs(a, a.len()) + edit::instr_defs(
            b,
            n,
        ),
    decreases n,
{
    if n == 0 {
        lemma_defs_prefix(a, b, a.len());
        assert(edit::instr_defs(a, a.len()) + edit::instr_defs(b, 0) =~= edit::instr_defs(
            a,
            a.len(),
        ));
    } else {
        lemma_defs_append(a, b, (n - 1) as nat);
        assert((a + b)[a.len() + n - 1] == b[n - 1]);
        assert(edit::instr_defs(a, a.len()) + (edit::instr_defs(b, (n - 1) as nat) + b[n
            - 1].defs()) =~= edit::instr_defs(a, a.len()) + edit::instr_defs(b, (n - 1) as nat)
            + b[n - 1].defs());
    }
}

proof fn lemma_defs_prefix<T: Target>(a: Seq<OpView<T>>, b: Seq<OpView<T>>, n: nat)
    requires
        n <= a.len(),
    ensures
        edit::instr_defs(a + b, n) == edit::instr_defs(a, n),
    decreases n,
{
    if n > 0 {
        lemma_defs_prefix(a, b, (n - 1) as nat);
        assert((a + b)[n - 1] == a[n - 1]);
    }
}

proof fn lemma_defs_push<T: Target>(a: Seq<OpView<T>>, op: OpView<T>)
    ensures
        edit::instr_defs(a.push(op), a.len() + 1) == edit::instr_defs(a, a.len()) + op.defs(),
{
    let b = seq![op];
    assert(a.push(op) =~= a + b);
    lemma_defs_append(a, b, 1);
    assert(edit::instr_defs(b, 1) =~= op.defs()) by {
        assert(edit::instr_defs(b, 0) =~= Seq::empty());
        assert(edit::instr_defs(b, 1) =~= Seq::<SsaVarId>::empty() + b[0].defs());
    }
}

/// What does nothing assigns nothing, and everything else stays.
proof fn lemma_stripped<T: Target>(ssa: SsaView<T>, instrs: Seq<OpView<T>>, n: nat)
    requires
        n <= instrs.len(),
        forall|i: int| 0 <= i < n ==> ssa.op_in_range(#[trigger] instrs[i]),
    ensures
        ({
            let kept = function::without_nops(instrs, n);
            &&& edit::instr_defs(kept, kept.len()) == edit::instr_defs(instrs, n)
            &&& forall|i: int| 0 <= i < kept.len() ==> ssa.op_in_range(#[trigger] kept[i])
        }),
    decreases n,
{
    if n > 0 {
        let m = (n - 1) as nat;
        lemma_stripped(ssa, instrs, m);
        let before = function::without_nops(instrs, m);
        assert(ssa.op_in_range(instrs[n - 1]));
        if instrs[n - 1] is Nop {
            assert(edit::instr_defs(instrs, m) + instrs[n - 1].defs() =~= edit::instr_defs(
                instrs,
                m,
            ));
        } else {
            lemma_defs_push(before, instrs[n - 1]);
        }
    }
}

/// A repair keeps a function well-formed.
pub proof fn repair_keeps_well_formed<T: Target>(ssa: SsaView<T>)
    requires
        ssa.well_formed(),
    ensures
        ssa.repaired().well_formed(),
{
    let next = ssa.repaired();
    assert forall|b: int| 0 <= b < ssa.blocks.len() implies #[trigger] next.block_in_range(b)
        && own_defs(next.blocks, b) == own_defs(ssa.blocks, b) && own_defs(
        ssa.blocks,
        b,
    ).no_duplicates() by {
        let block = ssa.blocks[b];
        assert(ssa.block_in_range(b));
        lemma_stripped(ssa, block.instrs, block.instrs.len());
        assert(next.blocks[b].phis == block.phis);
        assert forall|p: int| 0 <= p < next.blocks[b].phis.len() implies next.phi_in_range(
            #[trigger] next.blocks[b].phis[p],
        ) by {
            assert(ssa.phi_in_range(block.phis[p]));
        }
        assert forall|i: int| 0 <= i < next.blocks[b].instrs.len() implies next.op_in_range(
            #[trigger] next.blocks[b].instrs[i],
        ) by {
            assert(ssa.op_in_range(next.blocks[b].instrs[i]));
        }
        assignments::lemma_own_defs(ssa.blocks, ssa.blocks.len(), b, SsaVarId(0));
    }
    assert forall|b: int| 0 <= b < ssa.blocks.len() implies (#[trigger] own_defs(
        next.blocks,
        b,
    )).no_duplicates() by {
        assert(next.block_in_range(b));
    }
    assert forall|b: int, d: SsaVarId|
        0 <= b < ssa.blocks.len() && #[trigger] own_defs(next.blocks, b).contains(d) implies own_defs(
        ssa.blocks,
        b,
    ).contains(d) by {
        assert(next.block_in_range(b));
    }
    assignments::fewer_assignments_stay_distinct(ssa.blocks, next.blocks, ssa.blocks.len());
}

proof fn lemma_sole_source(operands: Seq<PhiOperand>, result: SsaVarId, n: nat)
    requires
        n <= operands.len(),
    ensures
        deadcode::sole_source(operands, result, n) matches Some(Some(v)) ==> exists|k: int|
            0 <= k < n && (#[trigger] operands[k]).value == v,
    decreases n,
{
    if n > 0 {
        lemma_sole_source(operands, result, (n - 1) as nat);
        if let Some(Some(v)) = deadcode::sole_source(operands, result, n) {
            if operands[n - 1].value == v {
            } else {
                let k = choose|k: int| 0 <= k < n - 1 && (#[trigger] operands[k]).value == v;
                assert(operands[k].value == v);
            }
        }
    }
}

/// The phi nodes that stay and the copies in place of the others assign nothing twice, and only what
/// the phi nodes assigned.
proof fn lemma_sources<T: Target>(ssa: SsaView<T>, phis: Seq<PhiView>, n: nat)
    requires
        n <= phis.len(),
        edit::phi_defs(phis, n).no_duplicates(),
        forall|p: int| 0 <= p < n ==> ssa.phi_in_range(#[trigger] phis[p]),
    ensures
        ({
            let kept = deadcode::merging_phis(phis, n);
            let copies = deadcode::source_copies::<T>(phis, n);
            let all = edit::phi_defs(kept, kept.len()) + edit::instr_defs(copies, copies.len());
            &&& all.no_duplicates()
            &&& forall|d: SsaVarId| #[trigger]
                all.contains(d) ==> edit::phi_defs(phis, n).contains(d)
            &&& forall|p: int| 0 <= p < kept.len() ==> ssa.phi_in_range(#[trigger] kept[p])
            &&& forall|i: int| 0 <= i < copies.len() ==> ssa.op_in_range(#[trigger] copies[i])
        }),
    decreases n,
{
    let kept = deadcode::merging_phis(phis, n);
    let copies = deadcode::source_copies::<T>(phis, n);
    let all = edit::phi_defs(kept, kept.len()) + edit::instr_defs(copies, copies.len());
    if n > 0 {
        let m = (n - 1) as nat;
        let phi = phis[n - 1];
        let d = phi.result;
        let before = edit::phi_defs(phis, m);
        let whole = edit::phi_defs(phis, n);
        assert(whole =~= before + seq![d]);
        assert(before.no_duplicates() && !before.contains(d)) by {
            assert(seq![d][0] == d);
            assert(seq![d].contains(d));
            assignments::lemma_clash(before, seq![d], d);
        }
        assert(ssa.phi_in_range(phis[n - 1]));
        lemma_sources(ssa, phis, m);
        let kept0 = deadcode::merging_phis(phis, m);
        let copies0 = deadcode::source_copies::<T>(phis, m);
        let left = edit::phi_defs(kept0, kept0.len());
        let right = edit::instr_defs(copies0, copies0.len());
        let prior = left + right;
        assert(!prior.contains(d));
        match phi.source() {
            None => {
                lemma_phi_defs_push(kept0, phi);
                assert(all =~= left.push(d) + right);
            },
            Some(Some(src)) => {
                let op: OpView<T> = Op::Copy { dest: d, src };
                lemma_defs_push(copies0, op);
                lemma_sole_source(phi.operands, d, phi.operands.len());
                let k = choose|k: int|
                    0 <= k < phi.operands.len() && (#[trigger] phi.operands[k]).value == src;
                assert(phi.operands[k].value.0 < ssa.vars.len());
                assert(op.defs() =~= seq![d]);
                assert(op.uses() =~= seq![src]);
                assert(op.successors() =~= Seq::<usize>::empty());
                assert(ssa.op_in_range(op));
                assert(all =~= left + right.push(d));
            },
            Some(None) => {
                assert(all =~= prior);
            },
        }
        lemma_inserted(left, right, d, all);
        assert forall|e: SsaVarId| #[trigger] all.contains(e) implies whole.contains(e) by {
            if e == d {
                assert(whole[before.len() as int] == d);
            } else {
                assert(prior.contains(e));
                assert(before.contains(e));
                assignments::lemma_clash(before, seq![d], e);
            }
        }
    }
}

proof fn lemma_phi_defs_push(phis: Seq<PhiView>, phi: PhiView)
    ensures
        edit::phi_defs(phis.push(phi), phis.len() + 1) == edit::phi_defs(phis, phis.len()).push(
            phi.result,
        ),
{
    lemma_phi_defs_same(phis, phis.push(phi), phis.len());
}

proof fn lemma_phi_defs_same(a: Seq<PhiView>, b: Seq<PhiView>, n: nat)
    requires
        n <= a.len(),
        n <= b.len(),
        forall|p: int| 0 <= p < n ==> a[p] == #[trigger] b[p],
    ensures
        edit::phi_defs(a, n) == edit::phi_defs(b, n),
    decreases n,
{
    if n > 0 {
        lemma_phi_defs_same(a, b, (n - 1) as nat);
        assert(a[n - 1] == b[n - 1]);
    }
}

proof fn lemma_inserted(
    left: Seq<SsaVarId>,
    right: Seq<SsaVarId>,
    d: SsaVarId,
    all: Seq<SsaVarId>,
)
    requires
        (left + right).no_duplicates(),
        !(left + right).contains(d),
        all == left.push(d) + right || all == left + right.push(d) || all == left + right,
    ensures
        all.no_duplicates(),
        forall|e: SsaVarId| #[trigger] all.contains(e) ==> e == d || (left + right).contains(e),
{
    let base = left + right;
    let at: int = if all == left.push(d) + right {
        left.len() as int
    } else {
        base.len() as int
    };
    assert forall|k: int| 0 <= k < all.len() implies #[trigger] all[k] == (if k < at {
        base[k]
    } else if k == at {
        d
    } else {
        base[k - 1]
    }) by {}
    assert forall|k: int| 0 <= k < base.len() implies #[trigger] base[k] != d by {
        assert(base.contains(base[k]));
    }
    assert forall|e: SsaVarId| #[trigger] all.contains(e) implies e == d || base.contains(e) by {
        let k = choose|k: int| 0 <= k < all.len() && all[k] == e;
        if k < at {
            assert(base[k] == e);
        } else if k > at {
            assert(base[k - 1] == e);
        }
    }
}

/// A light repair keeps a function well-formed.
pub proof fn light_repair_keeps_well_formed<T: Target>(ssa: SsaView<T>)
    requires
        ssa.well_formed(),
    ensures
        ssa.lightly_repaired().well_formed(),
{
    let next = ssa.without_trivial_phis();
    assert forall|b: int| 0 <= b < ssa.blocks.len() implies #[trigger] next.block_in_range(b)
        && own_defs(next.blocks, b).no_duplicates() && (forall|d: SsaVarId| #[trigger]
        own_defs(next.blocks, b).contains(d) ==> own_defs(ssa.blocks, b).contains(d)) by {
        lemma_block_sources(ssa, b);
    }
    assert forall|b: int| 0 <= b < ssa.blocks.len() implies (#[trigger] own_defs(
        next.blocks,
        b,
    )).no_duplicates() by {
        assert(next.block_in_range(b));
    }
    assert forall|b: int, d: SsaVarId|
        0 <= b < ssa.blocks.len() && #[trigger] own_defs(next.blocks, b).contains(d) implies own_defs(
        ssa.blocks,
        b,
    ).contains(d) by {
        assert(next.block_in_range(b));
    }
    assignments::fewer_assignments_stay_distinct(ssa.blocks, next.blocks, ssa.blocks.len());
    repair_keeps_well_formed(next);
}

proof fn lemma_block_sources<T: Target>(ssa: SsaView<T>, b: int)
    requires
        ssa.well_formed(),
        0 <= b < ssa.blocks.len(),
    ensures
        ssa.without_trivial_phis().block_in_range(b),
        own_defs(ssa.without_trivial_phis().blocks, b).no_duplicates(),
        forall|d: SsaVarId| #[trigger]
            own_defs(ssa.without_trivial_phis().blocks, b).contains(d) ==> own_defs(
                ssa.blocks,
                b,
            ).contains(d),
{
    let next = ssa.without_trivial_phis();
    let block = ssa.blocks[b];
    let phis = block.phis;
    let instrs = block.instrs;
    let p = edit::phi_defs(phis, phis.len());
    let i = edit::instr_defs(instrs, instrs.len());
    assert(ssa.block_in_range(b));
    assignments::lemma_own_defs(ssa.blocks, ssa.blocks.len(), b, SsaVarId(0));
    assignments::lemma_clash(p, i, SsaVarId(0));
    lemma_sources(ssa, phis, phis.len());
    let kept = deadcode::merging_phis(phis, phis.len());
    let copies = deadcode::source_copies::<T>(phis, phis.len());
    let left = edit::phi_defs(kept, kept.len());
    let right = edit::instr_defs(copies, copies.len());
    let prior = left + right;
    lemma_defs_append(copies, instrs, instrs.len());
    let all = own_defs(next.blocks, b);
    assert(next.blocks[b] == block.with_sources());
    assert(all =~= prior + i);
    assert forall|x: int, y: int| 0 <= x < all.len() && 0 <= y < all.len() && x != y implies all[x]
        != all[y] by {
        if x < prior.len() && y >= prior.len() && all[x] == all[y] {
            assert(prior.contains(all[x]));
            assert(i[y - prior.len()] == all[y]);
            assert(i.contains(all[x]));
            assignments::lemma_clash(p, i, all[x]);
        } else if y < prior.len() && x >= prior.len() && all[x] == all[y] {
            assert(prior.contains(all[y]));
            assert(i[x - prior.len()] == all[x]);
            assert(i.contains(all[y]));
            assignments::lemma_clash(p, i, all[y]);
        } else if x >= prior.len() && y >= prior.len() {
            assert(i[x - prior.len()] != i[y - prior.len()]);
        } else if x < prior.len() && y < prior.len() {
            assert(prior[x] != prior[y]);
        }
    }
    assert forall|d: SsaVarId| #[trigger] all.contains(d) implies own_defs(
        ssa.blocks,
        b,
    ).contains(d) by {
        let k = choose|k: int| 0 <= k < all.len() && all[k] == d;
        if k < prior.len() {
            assert(prior[k] == d);
            assert(prior.contains(d));
        } else {
            assert(i[k - prior.len()] == d);
            assert(i.contains(d));
        }
        assignments::lemma_clash(p, i, d);
    }
    assert forall|q: int| 0 <= q < next.blocks[b].phis.len() implies next.phi_in_range(
        #[trigger] next.blocks[b].phis[q],
    ) by {
        assert(ssa.phi_in_range(kept[q]));
    }
    assert forall|j: int| 0 <= j < next.blocks[b].instrs.len() implies next.op_in_range(
        #[trigger] next.blocks[b].instrs[j],
    ) by {
        let op = next.blocks[b].instrs[j];
        if j < copies.len() {
            assert(op == copies[j]);
            assert(ssa.op_in_range(copies[j]));
        } else {
            assert(op == instrs[j - copies.len()]);
            assert(ssa.op_in_range(instrs[j - copies.len()]));
        }
    }
}

/// What is left of some instructions was among them.
pub proof fn lemma_kept_instr<T: Target>(instrs: Seq<OpView<T>>, n: nat, i: int) -> (k: int)
    requires
        n <= instrs.len(),
        0 <= i < function::without_nops(instrs, n).len(),
    ensures
        0 <= k < n,
        function::without_nops(instrs, n)[i] == instrs[k],
    decreases n,
{
    let before = function::without_nops(instrs, (n - 1) as nat);
    if i < before.len() {
        lemma_kept_instr(instrs, (n - 1) as nat, i)
    } else {
        n - 1
    }
}

/// A repair keeps a function that mentions only its own blocks and variables so.
pub proof fn repair_keeps_range<T: Target>(ssa: SsaView<T>)
    requires
        forall|b: int| 0 <= b < ssa.blocks.len() ==> #[trigger] ssa.block_in_range(b),
    ensures
        forall|b: int|
            0 <= b < ssa.repaired().blocks.len() ==> #[trigger] ssa.repaired().block_in_range(b),
        ssa.repaired().blocks.len() == ssa.blocks.len(),
        ssa.repaired().vars.len() == ssa.vars.len(),
{
    let next = ssa.repaired();
    assert forall|b: int| 0 <= b < next.blocks.len() implies #[trigger] next.block_in_range(b) by {
        let block = ssa.blocks[b];
        assert(ssa.block_in_range(b));
        lemma_stripped(ssa, block.instrs, block.instrs.len());
        assert forall|p: int| 0 <= p < next.blocks[b].phis.len() implies next.phi_in_range(
            #[trigger] next.blocks[b].phis[p],
        ) by {
            assert(ssa.phi_in_range(block.phis[p]));
        }
        assert forall|i: int| 0 <= i < next.blocks[b].instrs.len() implies next.op_in_range(
            #[trigger] next.blocks[b].instrs[i],
        ) by {
            assert(ssa.op_in_range(next.blocks[b].instrs[i]));
        }
    }
}

} // verus!
