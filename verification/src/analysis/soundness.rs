//! How well a function is formed.
use crate::analysis::cfg;
use crate::analysis::closure;
use crate::analysis::loops;
use crate::analysis::loops::{compute_dominators, Dominators};
use crate::ir::block::SsaBlock;
use crate::ir::function::{SsaFunction, SsaView};
use crate::ir::phi::{PhiNode, PhiView};
use crate::ir::variable::SsaVarId;
use crate::target::Target;
use vstd::prelude::*;

verus! {

/// How much is asked of a function.
#[derive(Debug, Clone, Copy, PartialEq, Eq, Structural)]
pub enum VerifyLevel {
    /// It mentions only its own blocks and variables.
    Quick,
    /// It assigns no variable twice, too.
    Standard,
    /// Where control goes, phi nodes have one operand for every way in, and variables are assigned
    /// before they are read. A block need not end in a terminator: control then stops there.
    Full,
}

/// One of the phi nodes assigns `v`.
pub open spec fn phis_define(phis: Seq<PhiView>, v: SsaVarId) -> bool {
    exists|p: int| 0 <= p < phis.len() && (#[trigger] phis[p]).result == v
}

/// The operand at `k` is the first that comes from its block.
pub open spec fn is_first_from(phi: PhiView, k: int) -> bool {
    forall|j: int| 0 <= j < k ==> (#[trigger] phi.operands[j]).predecessor != phi.operands[k].predecessor
}

/// One of the operands comes from block `a`.
pub open spec fn comes_from(phi: PhiView, a: usize) -> bool {
    exists|k: int| 0 <= k < phi.operands.len() && (#[trigger] phi.operands[k]).predecessor == a
}

impl<T: Target> SsaView<T> {
    /// Control can reach block `b` from the entry.
    pub open spec fn is_entered(self, b: int) -> bool {
        self.dominates(b as usize, b as usize)
    }

    /// Every assignment to `v` in block `d` comes before instruction `i` of block `b`.
    pub open spec fn comes_before(self, d: int, v: SsaVarId, b: int, i: int) -> bool {
        &&& phis_define(self.blocks[d].phis, v) ==> self.dominates(d as usize, b as usize)
        &&& forall|j: int|
            0 <= j < self.blocks[d].instrs.len() && (
            #[trigger] self.blocks[d].instrs[j]).defs().contains(v) ==> if d == b {
                j < i
            } else {
                self.dominates(d as usize, b as usize)
            }
    }

    /// Every assignment to `v` comes before instruction `i` of block `b`, on every way there.
    pub open spec fn is_available(self, v: SsaVarId, b: int, i: int) -> bool {
        forall|d: int| 0 <= d < self.blocks.len() ==> #[trigger] self.comes_before(d, v, b, i)
    }

    /// Every variable that instruction `i` of block `b` reads is assigned before.
    pub open spec fn reads_assigned(self, b: int, i: int) -> bool {
        let uses = self.blocks[b].instrs[i].uses();
        forall|u: int| 0 <= u < uses.len() ==> self.is_available(#[trigger] uses[u], b, i)
    }

    /// The phi node has one operand for every block that control comes from, and each operand is
    /// assigned where control leaves that block.
    pub open spec fn phi_matches(self, phi: PhiView, b: int) -> bool {
        let from = self.predecessors(b as usize);
        &&& forall|a: int| 0 <= a < from.len() ==> comes_from(phi, #[trigger] from[a])
        &&& forall|k: int|
            0 <= k < phi.operands.len() ==> self.operand_matches(phi, #[trigger] phi.operands[k].predecessor, k, b)
    }

    /// The operand at `k` is the only one from block `a`, control goes from there to `b`, and where
    /// it reaches `a` the value is assigned at its end.
    pub open spec fn operand_matches(self, phi: PhiView, a: usize, k: int, b: int) -> bool {
        &&& is_first_from(phi, k)
        &&& self.predecessors(b as usize).contains(a)
        &&& self.is_entered(a as int) ==> self.is_available(
            phi.operands[k].value,
            a as int,
            self.blocks[a as int].instrs.len() as int,
        )
    }

    /// The phi nodes of the block fit the ways in, and what it reads is assigned.
    pub open spec fn block_is_sound(self, b: int) -> bool {
        &&& forall|p: int|
            0 <= p < self.blocks[b].phis.len() ==> self.phi_matches(
                #[trigger] self.blocks[b].phis[p],
                b,
            )
        &&& forall|i: int|
            0 <= i < self.blocks[b].instrs.len() ==> #[trigger] self.reads_assigned(b, i)
    }

    /// The function mentions only its own blocks and variables.
    pub open spec fn is_in_range(self) -> bool {
        forall|b: int| 0 <= b < self.blocks.len() ==> #[trigger] self.block_in_range(b)
    }

    /// The function is well-formed, and every block that control can reach is sound.
    pub open spec fn fully_formed(self) -> bool {
        &&& self.well_formed()
        &&& forall|b: int|
            0 <= b < self.blocks.len() && #[trigger] self.is_entered(b) ==> self.block_is_sound(b)
    }

    /// The function is as well formed as the level asks.
    pub open spec fn meets(self, level: VerifyLevel) -> bool {
        match level {
            VerifyLevel::Quick => self.is_in_range(),
            VerifyLevel::Standard => self.well_formed(),
            VerifyLevel::Full => self.fully_formed(),
        }
    }
}

/// What meets a level meets every lower one.
pub proof fn levels_are_nested<T: Target>(ssa: SsaView<T>)
    ensures
        ssa.meets(VerifyLevel::Full) ==> ssa.meets(VerifyLevel::Standard),
        ssa.meets(VerifyLevel::Standard) ==> ssa.meets(VerifyLevel::Quick),
{
}

/// Returns whether a list holds a variable.
fn holds_var(list: &Vec<SsaVarId>, v: SsaVarId) -> (r: bool)
    ensures
        r == list@.contains(v),
{
    let mut i: usize = 0;
    while i < list.len()
        invariant
            i <= list@.len(),
            forall|j: int| 0 <= j < i ==> #[trigger] list@[j] != v,
        decreases list@.len() - i,
    {
        if list[i].0 == v.0 {
            return true;
        }
        i = i + 1;
    }
    false
}

/// Returns whether every assignment to `v` in block `d` comes before instruction `i` of block `b`.
fn check_before<T: Target>(
    ssa: &SsaFunction<T>,
    dominators: &Dominators,
    d: usize,
    v: SsaVarId,
    b: usize,
    i: usize,
) -> (r: bool)
    requires
        dominators.describes(ssa@),
        d < ssa@.blocks.len(),
        b < ssa@.blocks.len(),
    ensures
        r == ssa@.comes_before(d as int, v, b as int, i as int),
{
    let above: bool = dominators.check(ssa, d, b);
    let block: &SsaBlock<T> = &ssa.blocks[d];
    assert(block@ == ssa@.blocks[d as int]);
    let mut p: usize = 0;
    while p < block.phis.len()
        invariant
            d < ssa@.blocks.len(),
            block@ == ssa@.blocks[d as int],
            above == ssa@.dominates(d, b),
            p <= block.phis@.len(),
            !above ==> forall|k: int| 0 <= k < p ==> (#[trigger] block@.phis[k]).result != v,
        decreases block.phis@.len() - p,
    {
        assert(block.phis@[p as int]@ == block@.phis[p as int]);
        if block.phis[p].result.0 == v.0 && !above {
            assert(block@.phis[p as int].result == v);
            return false;
        }
        p = p + 1;
    }
    let mut j: usize = 0;
    while j < block.instrs.len()
        invariant
            d < ssa@.blocks.len(),
            block@ == ssa@.blocks[d as int],
            above == ssa@.dominates(d, b),
            j <= block.instrs@.len(),
            forall|k: int|
                0 <= k < j && (#[trigger] ssa@.blocks[d as int].instrs[k]).defs().contains(v)
                    ==> if d == b {
                    k < i
                } else {
                    ssa@.dominates(d, b)
                },
        decreases block.instrs@.len() - j,
    {
        assert(block.instrs@[j as int]@ == ssa@.blocks[d as int].instrs[j as int]);
        let fine: bool = if d == b {
            j < i
        } else {
            above
        };
        if !fine {
            let defs: Vec<SsaVarId> = block.instrs[j].op.defs();
            if holds_var(&defs, v) {
                return false;
            }
        }
        j = j + 1;
    }
    true
}

/// Returns whether every assignment to `v` comes before instruction `i` of block `b`.
fn check_available<T: Target>(
    ssa: &SsaFunction<T>,
    dominators: &Dominators,
    v: SsaVarId,
    b: usize,
    i: usize,
) -> (r: bool)
    requires
        dominators.describes(ssa@),
        b < ssa@.blocks.len(),
    ensures
        r == ssa@.is_available(v, b as int, i as int),
{
    let mut d: usize = 0;
    while d < ssa.blocks.len()
        invariant
            dominators.describes(ssa@),
            b < ssa@.blocks.len(),
            d <= ssa@.blocks.len(),
            forall|k: int| 0 <= k < d ==> #[trigger] ssa@.comes_before(k, v, b as int, i as int),
        decreases ssa@.blocks.len() - d,
    {
        if !check_before(ssa, dominators, d, v, b, i) {
            assert(!ssa@.comes_before(d as int, v, b as int, i as int));
            return false;
        }
        d = d + 1;
    }
    true
}

/// Returns whether the operand at `k` is the only one from its block, and fits.
fn check_operand<T: Target>(
    ssa: &SsaFunction<T>,
    dominators: &Dominators,
    phi: &PhiNode,
    from: &Vec<usize>,
    k: usize,
    b: usize,
) -> (r: bool)
    requires
        dominators.describes(ssa@),
        b < ssa@.blocks.len(),
        k < phi@.operands.len(),
        ssa@.phi_in_range(phi@),
        from@ == ssa@.predecessors(b),
    ensures
        r == ssa@.operand_matches(phi@, phi@.operands[k as int].predecessor, k as int, b as int),
{
    let a: usize = phi.operands[k].predecessor;
    assert(phi@.operands[k as int].predecessor < ssa@.blocks.len());
    if !cfg::holds(from, a) {
        return false;
    }
    let mut j: usize = 0;
    while j < k
        invariant
            j <= k,
            k < phi@.operands.len(),
            a == phi@.operands[k as int].predecessor,
            forall|m: int| 0 <= m < j ==> (#[trigger] phi@.operands[m]).predecessor != a,
        decreases k - j,
    {
        if phi.operands[j].predecessor == a {
            assert(phi@.operands[j as int].predecessor == a);
            assert(!is_first_from(phi@, k as int));
            return false;
        }
        j = j + 1;
    }
    assert(is_first_from(phi@, k as int));
    if !dominators.check(ssa, a, a) {
        return true;
    }
    assert(ssa.blocks@[a as int]@ == ssa@.blocks[a as int]);
    let end: usize = ssa.blocks[a].instrs.len();
    check_available(ssa, dominators, phi.operands[k].value, a, end)
}

/// Returns whether the phi node has one operand for every block that control comes from.
fn check_phi<T: Target>(
    ssa: &SsaFunction<T>,
    dominators: &Dominators,
    phi: &PhiNode,
    b: usize,
) -> (r: bool)
    requires
        dominators.describes(ssa@),
        b < ssa@.blocks.len(),
        ssa@.phi_in_range(phi@),
    ensures
        r == ssa@.phi_matches(phi@, b as int),
{
    let from: Vec<usize> = ssa.block_predecessors(b);
    let mut a: usize = 0;
    while a < from.len()
        invariant
            a <= from@.len(),
            from@ == ssa@.predecessors(b),
            forall|m: int| 0 <= m < a ==> comes_from(phi@, #[trigger] from@[m]),
        decreases from@.len() - a,
    {
        let mut found: bool = false;
        let mut k: usize = 0;
        while k < phi.operands.len()
            invariant
                a < from@.len(),
                k <= phi@.operands.len(),
                found == exists|m: int|
                    0 <= m < k && (#[trigger] phi@.operands[m]).predecessor == from@[a as int],
            decreases phi@.operands.len() - k,
        {
            if phi.operands[k].predecessor == from[a] {
                assert(phi@.operands[k as int].predecessor == from@[a as int]);
                found = true;
            }
            k = k + 1;
        }
        if !found {
            let ghost all = ssa@.predecessors((b as int) as usize);
            assert(all == from@);
            assert(!comes_from(phi@, all[a as int]));
            assert(!ssa@.phi_matches(phi@, b as int));
            return false;
        }
        a = a + 1;
    }
    let mut k: usize = 0;
    while k < phi.operands.len()
        invariant
            dominators.describes(ssa@),
            b < ssa@.blocks.len(),
            ssa@.phi_in_range(phi@),
            from@ == ssa@.predecessors(b),
            k <= phi@.operands.len(),
            forall|m: int|
                0 <= m < k ==> ssa@.operand_matches(
                    phi@,
                    #[trigger] phi@.operands[m].predecessor,
                    m,
                    b as int,
                ),
        decreases phi@.operands.len() - k,
    {
        if !check_operand(ssa, dominators, phi, &from, k, b) {
            assert(!ssa@.operand_matches(
                phi@,
                phi@.operands[k as int].predecessor,
                k as int,
                b as int,
            ));
            return false;
        }
        k = k + 1;
    }
    true
}

/// Returns whether the phi nodes of the block fit the ways in, and what it reads is assigned.
fn check_block<T: Target>(ssa: &SsaFunction<T>, dominators: &Dominators, b: usize) -> (r: bool)
    requires
        dominators.describes(ssa@),
        b < ssa@.blocks.len(),
        ssa@.block_in_range(b as int),
    ensures
        r == ssa@.block_is_sound(b as int),
{
    let block: &SsaBlock<T> = &ssa.blocks[b];
    assert(block@ == ssa@.blocks[b as int]);
    let mut p: usize = 0;
    while p < block.phis.len()
        invariant
            dominators.describes(ssa@),
            b < ssa@.blocks.len(),
            ssa@.block_in_range(b as int),
            block@ == ssa@.blocks[b as int],
            p <= block.phis@.len(),
            forall|k: int|
                0 <= k < p ==> ssa@.phi_matches(
                    #[trigger] ssa@.blocks[b as int].phis[k],
                    b as int,
                ),
        decreases block.phis@.len() - p,
    {
        assert(block.phis@[p as int]@ == ssa@.blocks[b as int].phis[p as int]);
        assert(ssa@.phi_in_range(ssa@.blocks[b as int].phis[p as int]));
        if !check_phi(ssa, dominators, &block.phis[p], b) {
            return false;
        }
        p = p + 1;
    }
    let mut i: usize = 0;
    while i < block.instrs.len()
        invariant
            dominators.describes(ssa@),
            b < ssa@.blocks.len(),
            block@ == ssa@.blocks[b as int],
            i <= block.instrs@.len(),
            forall|k: int| 0 <= k < i ==> #[trigger] ssa@.reads_assigned(b as int, k),
        decreases block.instrs@.len() - i,
    {
        assert(block.instrs@[i as int]@ == ssa@.blocks[b as int].instrs[i as int]);
        let uses: Vec<SsaVarId> = block.instrs[i].op.uses();
        let mut u: usize = 0;
        while u < uses.len()
            invariant
                dominators.describes(ssa@),
                b < ssa@.blocks.len(),
                i < ssa@.blocks[b as int].instrs.len(),
                uses@ == ssa@.blocks[b as int].instrs[i as int].uses(),
                u <= uses@.len(),
                forall|k: int|
                    0 <= k < u ==> ssa@.is_available(#[trigger] uses@[k], b as int, i as int),
            decreases uses@.len() - u,
        {
            if !check_available(ssa, dominators, uses[u], b, i) {
                assert(!ssa@.is_available(uses@[u as int], b as int, i as int));
                assert(!ssa@.reads_assigned(b as int, i as int));
                return false;
            }
            u = u + 1;
        }
        assert(ssa@.reads_assigned(b as int, i as int));
        i = i + 1;
    }
    true
}

impl<T: Target> SsaFunction<T> {
    /// Returns whether the function is as well formed as the level asks.
    #[must_use]
    pub fn verify_at(&self, level: VerifyLevel) -> (r: bool)
        ensures
            r == self@.meets(level),
    {
        match level {
            VerifyLevel::Quick => self.verify_range(),
            VerifyLevel::Standard => self.verify(),
            VerifyLevel::Full => self.verify_flow(),
        }
    }

    /// Returns whether the function is well-formed, and every block that control can reach is sound.
    fn verify_flow(&self) -> (r: bool)
        ensures
            r == self@.fully_formed(),
    {
        if !self.verify() {
            return false;
        }
        let dominators: Dominators = compute_dominators(self);
        let mut b: usize = 0;
        while b < self.blocks.len()
            invariant
                dominators.describes(self@),
                self@.well_formed(),
                b <= self@.blocks.len(),
                forall|k: int|
                    0 <= k < b && #[trigger] self@.is_entered(k) ==> self@.block_is_sound(k),
            decreases self@.blocks.len() - b,
        {
            assert(self@.block_in_range(b as int));
            if dominators.check(self, b, b) {
                assert(self@.is_entered(b as int));
                if !check_block(self, &dominators, b) {
                    return false;
                }
            }
            b = b + 1;
        }
        true
    }
}

/// In a fully formed function control that reads a variable has passed the block that assigns it,
/// on every way from the entry; within one block the assignment comes first.
pub proof fn reads_follow_assignments<T: Target>(
    ssa: SsaView<T>,
    v: SsaVarId,
    d: int,
    j: int,
    b: int,
    i: int,
    way: Seq<usize>,
)
    requires
        ssa.fully_formed(),
        0 <= d < ssa.blocks.len() <= usize::MAX,
        0 <= j < ssa.blocks[d].instrs.len(),
        ssa.blocks[d].instrs[j].defs().contains(v),
        0 <= b < ssa.blocks.len(),
        0 <= i < ssa.blocks[b].instrs.len(),
        ssa.blocks[b].instrs[i].uses().contains(v),
        closure::is_walk(ssa.blocks.len(), seq![0usize], ssa.edges(), way),
        way.last() == b,
    ensures
        d == b ==> j < i,
        d != b ==> way.contains(d as usize),
{
    assert(closure::reached(ssa.blocks.len(), seq![0usize], ssa.edges(), b as usize));
    loops::dominates_itself(ssa, b as usize);
    assert(ssa.is_entered(b));
    assert(ssa.reads_assigned(b, i));
    let uses = ssa.blocks[b].instrs[i].uses();
    let u = choose|u: int| 0 <= u < uses.len() && uses[u] == v;
    assert(ssa.is_available(uses[u], b, i));
    assert(ssa.comes_before(d, v, b, i));
    if d != b {
        loops::dominators_are_passed(ssa, d as usize, b as usize, way);
    }
}

} // verus!
