//! Where variables are assigned.
use crate::ir::block::BlockView;
use crate::ir::edit;
use crate::ir::function::SsaView;
use crate::ir::ops::OpView;
use crate::ir::phi::PhiView;
use crate::ir::variable::SsaVarId;
use crate::target::Target;
use vstd::prelude::*;

verus! {

/// No variable is assigned in two places.
pub open spec fn assigned_once<T: Target>(ssa: SsaView<T>) -> bool {
    &&& forall|b: int, i: int, c: int, j: int|
        #![trigger ssa.blocks[b].instrs[i], ssa.blocks[c].instrs[j]]
        0 <= b < ssa.blocks.len() && 0 <= i < ssa.blocks[b].instrs.len() && 0 <= c
            < ssa.blocks.len() && 0 <= j < ssa.blocks[c].instrs.len()
            && ssa.blocks[b].instrs[i].result() is Some && ssa.blocks[b].instrs[i].result()
            == ssa.blocks[c].instrs[j].result() ==> b == c && i == j
    &&& forall|b: int, p: int, c: int, q: int|
        #![trigger ssa.blocks[b].phis[p], ssa.blocks[c].phis[q]]
        0 <= b < ssa.blocks.len() && 0 <= p < ssa.blocks[b].phis.len() && 0 <= c
            < ssa.blocks.len() && 0 <= q < ssa.blocks[c].phis.len()
            && ssa.blocks[b].phis[p].result == ssa.blocks[c].phis[q].result ==> b == c && p == q
    &&& forall|b: int, p: int, c: int, j: int|
        #![trigger ssa.blocks[b].phis[p], ssa.blocks[c].instrs[j]]
        0 <= b < ssa.blocks.len() && 0 <= p < ssa.blocks[b].phis.len() && 0 <= c
            < ssa.blocks.len() && 0 <= j < ssa.blocks[c].instrs.len()
            ==> ssa.blocks[c].instrs[j].result() != Some(ssa.blocks[b].phis[p].result)
}

pub proof fn lemma_clash(s: Seq<SsaVarId>, t: Seq<SsaVarId>, d: SsaVarId)
    ensures
        s.contains(d) && t.contains(d) ==> !(s + t).no_duplicates(),
        !s.no_duplicates() ==> !(s + t).no_duplicates(),
        !t.no_duplicates() ==> !(s + t).no_duplicates(),
        s.contains(d) ==> (s + t).contains(d),
        t.contains(d) ==> (s + t).contains(d),
{
    let all = s + t;
    if s.contains(d) {
        let i = choose|i: int| 0 <= i < s.len() && s[i] == d;
        assert(all[i] == d);
        if t.contains(d) {
            let j = choose|j: int| 0 <= j < t.len() && t[j] == d;
            assert(all[i] == all[s.len() + j]);
        }
    }
    if t.contains(d) {
        let j = choose|j: int| 0 <= j < t.len() && t[j] == d;
        assert(all[s.len() + j] == d);
    }
    if !s.no_duplicates() {
        let (i, j) = choose|i: int, j: int|
            0 <= i < s.len() && 0 <= j < s.len() && i != j && s[i] == s[j];
        assert(all[i] == all[j]);
    }
    if !t.no_duplicates() {
        let (i, j) = choose|i: int, j: int|
            0 <= i < t.len() && 0 <= j < t.len() && i != j && t[i] == t[j];
        assert(all[s.len() + i] == all[s.len() + j]);
    }
}

proof fn lemma_phi_def(phis: Seq<PhiView>, n: nat)
    requires
        n <= phis.len(),
    ensures
        edit::phi_defs(phis, n).len() == n,
        forall|p: int| 0 <= p < n ==> #[trigger] edit::phi_defs(phis, n)[p] == phis[p].result,
    decreases n,
{
    if n > 0 {
        lemma_phi_def(phis, (n - 1) as nat);
    }
}

proof fn lemma_instr_def<T: Target>(instrs: Seq<OpView<T>>, n: nat, i: int, d: SsaVarId)
    requires
        0 <= i < n <= instrs.len(),
        instrs[i].result() == Some(d),
    ensures
        edit::instr_defs(instrs, n).contains(d),
    decreases n,
{
    let before = edit::instr_defs(instrs, (n - 1) as nat);
    let own = instrs[n - 1].defs();
    if i < n - 1 {
        lemma_instr_def(instrs, (n - 1) as nat, i, d);
    } else {
        assert(own[0] == d);
        assert(own.contains(d));
    }
    lemma_clash(before, own, d);
}

proof fn lemma_instr_clash<T: Target>(instrs: Seq<OpView<T>>, n: nat, i: int, j: int, d: SsaVarId)
    requires
        0 <= i < j < n <= instrs.len(),
        instrs[i].result() == Some(d),
        instrs[j].result() == Some(d),
    ensures
        !edit::instr_defs(instrs, n).no_duplicates(),
    decreases n,
{
    let before = edit::instr_defs(instrs, (n - 1) as nat);
    let own = instrs[n - 1].defs();
    if j < n - 1 {
        lemma_instr_clash(instrs, (n - 1) as nat, i, j, d);
    } else {
        lemma_instr_def(instrs, (n - 1) as nat, i, d);
        assert(own[0] == d);
        assert(own.contains(d));
    }
    lemma_clash(before, own, d);
}

/// What block `b` assigns.
pub open spec fn own_defs<T: Target>(blocks: Seq<BlockView<T>>, b: int) -> Seq<SsaVarId> {
    edit::phi_defs(blocks[b].phis, blocks[b].phis.len()) + edit::instr_defs(
        blocks[b].instrs,
        blocks[b].instrs.len(),
    )
}

pub proof fn lemma_own_defs<T: Target>(blocks: Seq<BlockView<T>>, n: nat, b: int, d: SsaVarId)
    requires
        0 <= b < n <= blocks.len(),
    ensures
        own_defs(blocks, b).contains(d) ==> edit::block_defs(blocks, n).contains(d),
        !own_defs(blocks, b).no_duplicates() ==> !edit::block_defs(blocks, n).no_duplicates(),
    decreases n,
{
    let before = edit::block_defs(blocks, (n - 1) as nat);
    let own = own_defs(blocks, n - 1);
    assert(edit::block_defs(blocks, n) =~= before + own);
    if b < n - 1 {
        lemma_own_defs(blocks, (n - 1) as nat, b, d);
    }
    lemma_clash(before, own, d);
}

proof fn lemma_block_clash<T: Target>(
    blocks: Seq<BlockView<T>>,
    b: int,
    c: int,
    d: SsaVarId,
)
    requires
        0 <= b < c < blocks.len(),
        own_defs(blocks, b).contains(d),
        own_defs(blocks, c).contains(d),
    ensures
        !edit::block_defs(blocks, blocks.len()).no_duplicates(),
{
    let before = edit::block_defs(blocks, c as nat);
    let own = own_defs(blocks, c);
    lemma_own_defs(blocks, c as nat, b, d);
    assert(edit::block_defs(blocks, (c + 1) as nat) =~= before + own);
    lemma_clash(before, own, d);
    edit::lemma_block_defs_prefix(blocks, (c + 1) as nat, blocks.len());
}

proof fn lemma_owns<T: Target>(ssa: SsaView<T>, b: int)
    requires
        0 <= b < ssa.blocks.len(),
    ensures
        forall|i: int|
            0 <= i < ssa.blocks[b].instrs.len() && (
            #[trigger] ssa.blocks[b].instrs[i]).result() is Some ==> own_defs(
                ssa.blocks,
                b,
            ).contains(ssa.blocks[b].instrs[i].result().unwrap()),
        forall|p: int|
            0 <= p < ssa.blocks[b].phis.len() ==> own_defs(ssa.blocks, b).contains(
                (#[trigger] ssa.blocks[b].phis[p]).result,
            ),
{
    let block = ssa.blocks[b];
    let phis = edit::phi_defs(block.phis, block.phis.len());
    let instrs = edit::instr_defs(block.instrs, block.instrs.len());
    lemma_phi_def(block.phis, block.phis.len());
    assert forall|i: int|
        0 <= i < block.instrs.len() && (
        #[trigger] ssa.blocks[b].instrs[i]).result() is Some implies own_defs(
        ssa.blocks,
        b,
    ).contains(block.instrs[i].result().unwrap()) by {
        let d = block.instrs[i].result().unwrap();
        lemma_instr_def(block.instrs, block.instrs.len(), i, d);
        lemma_clash(phis, instrs, d);
    }
    assert forall|p: int| 0 <= p < block.phis.len() implies own_defs(ssa.blocks, b).contains(
        (#[trigger] ssa.blocks[b].phis[p]).result,
    ) by {
        assert(phis[p] == block.phis[p].result);
        assert(phis.contains(block.phis[p].result));
        lemma_clash(phis, instrs, block.phis[p].result);
    }
}

proof fn lemma_one_block<T: Target>(ssa: SsaView<T>, b: int, c: int, d: SsaVarId)
    requires
        ssa.well_formed(),
        0 <= b < ssa.blocks.len(),
        0 <= c < ssa.blocks.len(),
        own_defs(ssa.blocks, b).contains(d),
        own_defs(ssa.blocks, c).contains(d),
    ensures
        b == c,
        own_defs(ssa.blocks, b).no_duplicates(),
{
    lemma_own_defs(ssa.blocks, ssa.blocks.len(), b, d);
    if b < c {
        lemma_block_clash(ssa.blocks, b, c, d);
    } else if c < b {
        lemma_block_clash(ssa.blocks, c, b, d);
    }
}

/// A well-formed function assigns no variable in two places.
pub proof fn assigned_once_where_well_formed<T: Target>(ssa: SsaView<T>)
    requires
        ssa.well_formed(),
    ensures
        assigned_once(ssa),
{
    assert forall|b: int, i: int, c: int, j: int|
        #![trigger ssa.blocks[b].instrs[i], ssa.blocks[c].instrs[j]]
        0 <= b < ssa.blocks.len() && 0 <= i < ssa.blocks[b].instrs.len() && 0 <= c
            < ssa.blocks.len() && 0 <= j < ssa.blocks[c].instrs.len()
            && ssa.blocks[b].instrs[i].result() is Some && ssa.blocks[b].instrs[i].result()
            == ssa.blocks[c].instrs[j].result() implies b == c && i == j by {
        let d = ssa.blocks[b].instrs[i].result().unwrap();
        lemma_owns(ssa, b);
        lemma_owns(ssa, c);
        lemma_one_block(ssa, b, c, d);
        let block = ssa.blocks[b];
        let phis = edit::phi_defs(block.phis, block.phis.len());
        let instrs = edit::instr_defs(block.instrs, block.instrs.len());
        lemma_clash(phis, instrs, d);
        if i < j {
            lemma_instr_clash(block.instrs, block.instrs.len(), i, j, d);
        } else if j < i {
            lemma_instr_clash(block.instrs, block.instrs.len(), j, i, d);
        }
    }
    assert forall|b: int, p: int, c: int, q: int|
        #![trigger ssa.blocks[b].phis[p], ssa.blocks[c].phis[q]]
        0 <= b < ssa.blocks.len() && 0 <= p < ssa.blocks[b].phis.len() && 0 <= c
            < ssa.blocks.len() && 0 <= q < ssa.blocks[c].phis.len()
            && ssa.blocks[b].phis[p].result == ssa.blocks[c].phis[q].result implies b == c && p
        == q by {
        let d = ssa.blocks[b].phis[p].result;
        lemma_owns(ssa, b);
        lemma_owns(ssa, c);
        lemma_one_block(ssa, b, c, d);
        let block = ssa.blocks[b];
        let phis = edit::phi_defs(block.phis, block.phis.len());
        let instrs = edit::instr_defs(block.instrs, block.instrs.len());
        lemma_phi_def(block.phis, block.phis.len());
        lemma_clash(phis, instrs, d);
        assert(phis[p] == d && phis[q] == d);
    }
    assert forall|b: int, p: int, c: int, j: int|
        #![trigger ssa.blocks[b].phis[p], ssa.blocks[c].instrs[j]]
        0 <= b < ssa.blocks.len() && 0 <= p < ssa.blocks[b].phis.len() && 0 <= c
            < ssa.blocks.len() && 0 <= j
            < ssa.blocks[c].instrs.len() implies ssa.blocks[c].instrs[j].result() != Some(
        ssa.blocks[b].phis[p].result,
    ) by {
        let d = ssa.blocks[b].phis[p].result;
        if ssa.blocks[c].instrs[j].result() == Some(d) {
            lemma_owns(ssa, b);
            lemma_owns(ssa, c);
            lemma_one_block(ssa, b, c, d);
            let block = ssa.blocks[b];
            let phis = edit::phi_defs(block.phis, block.phis.len());
            let instrs = edit::instr_defs(block.instrs, block.instrs.len());
            lemma_phi_def(block.phis, block.phis.len());
            assert(phis[p] == d);
            assert(phis.contains(d));
            lemma_instr_def(block.instrs, block.instrs.len(), j, d);
            lemma_clash(phis, instrs, d);
        }
    }
}

/// A function whose blocks assign nothing twice, and nothing that they did not assign before, assigns
/// no variable twice where it did not before.
pub proof fn fewer_assignments_stay_distinct<T: Target>(
    old_blocks: Seq<BlockView<T>>,
    new_blocks: Seq<BlockView<T>>,
    n: nat,
)
    requires
        n <= old_blocks.len(),
        n <= new_blocks.len(),
        edit::block_defs(old_blocks, n).no_duplicates(),
        forall|b: int| 0 <= b < n ==> (#[trigger] own_defs(new_blocks, b)).no_duplicates(),
        forall|b: int, d: SsaVarId|
            0 <= b < n && #[trigger] own_defs(new_blocks, b).contains(d) ==> own_defs(
                old_blocks,
                b,
            ).contains(d),
    ensures
        edit::block_defs(new_blocks, n).no_duplicates(),
        forall|d: SsaVarId| #[trigger]
            edit::block_defs(new_blocks, n).contains(d) ==> edit::block_defs(
                old_blocks,
                n,
            ).contains(d),
    decreases n,
{
    if n > 0 {
        let m = (n - 1) as nat;
        let was = edit::block_defs(old_blocks, m);
        let now = edit::block_defs(new_blocks, m);
        let old_own = own_defs(old_blocks, n - 1);
        let new_own = own_defs(new_blocks, n - 1);
        assert(edit::block_defs(old_blocks, n) =~= was + old_own);
        assert(edit::block_defs(new_blocks, n) =~= now + new_own);
        assert(was.no_duplicates()) by {
            if !was.no_duplicates() {
                lemma_clash(was, old_own, SsaVarId(0));
            }
        }
        fewer_assignments_stay_distinct(old_blocks, new_blocks, m);
        let all = now + new_own;
        assert forall|i: int, j: int| 0 <= i < all.len() && 0 <= j < all.len() && i != j implies all[i]
            != all[j] by {
            if i < now.len() && j >= now.len() && all[i] == all[j] {
                assert(now.contains(all[i]));
                assert(new_own[j - now.len()] == all[j]);
                assert(new_own.contains(all[i]));
                lemma_clash(was, old_own, all[i]);
            } else if j < now.len() && i >= now.len() && all[i] == all[j] {
                assert(now.contains(all[j]));
                assert(new_own[i - now.len()] == all[i]);
                assert(new_own.contains(all[j]));
                lemma_clash(was, old_own, all[j]);
            } else if i >= now.len() && j >= now.len() {
                assert(new_own[i - now.len()] != new_own[j - now.len()]);
            }
        }
        assert forall|d: SsaVarId| #[trigger] all.contains(d) implies (was + old_own).contains(
            d,
        ) by {
            let k = choose|k: int| 0 <= k < all.len() && all[k] == d;
            if k < now.len() {
                assert(now.contains(d));
            } else {
                assert(new_own[k - now.len()] == d);
                assert(new_own.contains(d));
            }
            lemma_clash(was, old_own, d);
        }
    }
}

pub proof fn lemma_assigned_below<T: Target>(ssa: SsaView<T>, n: nat, k: int)
    requires
        n <= ssa.blocks.len(),
        forall|b: int| 0 <= b < ssa.blocks.len() ==> #[trigger] ssa.block_in_range(b),
        0 <= k < edit::block_defs(ssa.blocks, n).len(),
    ensures
        edit::block_defs(ssa.blocks, n)[k].0 < ssa.vars.len(),
    decreases n,
{
    if n > 0 {
        let b = n - 1;
        let block = ssa.blocks[b];
        let before = edit::block_defs(ssa.blocks, b as nat);
        let phis = edit::phi_defs(block.phis, block.phis.len());
        let instrs = edit::instr_defs(block.instrs, block.instrs.len());
        assert(ssa.block_in_range(b));
        if k < before.len() {
            lemma_assigned_below(ssa, b as nat, k);
        } else if k < before.len() + phis.len() {
            lemma_phi_def(block.phis, block.phis.len());
            assert(phis[k - before.len()] == block.phis[k - before.len()].result);
            assert(ssa.phi_in_range(block.phis[k - before.len()]));
        } else {
            lemma_instrs_below(ssa, b, block.instrs.len(), k - before.len() - phis.len());
        }
    }
}

proof fn lemma_instrs_below<T: Target>(ssa: SsaView<T>, b: int, n: nat, k: int)
    requires
        0 <= b < ssa.blocks.len(),
        ssa.block_in_range(b),
        n <= ssa.blocks[b].instrs.len(),
        0 <= k < edit::instr_defs(ssa.blocks[b].instrs, n).len(),
    ensures
        edit::instr_defs(ssa.blocks[b].instrs, n)[k].0 < ssa.vars.len(),
    decreases n,
{
    if n > 0 {
        let instrs = ssa.blocks[b].instrs;
        let before = edit::instr_defs(instrs, (n - 1) as nat);
        if k < before.len() {
            lemma_instrs_below(ssa, b, (n - 1) as nat, k);
        } else {
            assert(ssa.op_in_range(instrs[n - 1]));
            assert(instrs[n - 1].defs()[k - before.len()].0 < ssa.vars.len());
        }
    }
}

/// A function that mentions only its own variables assigns only those.
pub proof fn assigned_variables_are_in_range<T: Target>(ssa: SsaView<T>, k: int)
    requires
        forall|b: int| 0 <= b < ssa.blocks.len() ==> #[trigger] ssa.block_in_range(b),
        0 <= k < edit::block_defs(ssa.blocks, ssa.blocks.len()).len(),
    ensures
        edit::block_defs(ssa.blocks, ssa.blocks.len())[k].0 < ssa.vars.len(),
{
    lemma_assigned_below(ssa, ssa.blocks.len(), k);
}

} // verus!
