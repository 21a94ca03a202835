//! Rebuilding a function so that every variable is assigned once.
//!
//! A variable that is assigned in several places is split: every assignment gets a variable of its
//! own, phi nodes are placed where assignments meet, and every read names the assignment or the phi
//! node whose value reaches it.
use crate::analysis::cfg;
use crate::analysis::closure;
use crate::analysis::dominance;
use crate::analysis::loops;
use crate::analysis::loops::{compute_dominators, Dominators};
use crate::ir::block::{BlockView, SsaBlock, SsaInstruction};
use crate::ir::defects;
use crate::ir::edit;
use crate::ir::function::{SsaFunction, SsaView};
use crate::ir::ops::{OpView, SsaOp};
use crate::ir::phi::{PhiNode, PhiOperand, PhiView};
use crate::ir::renaming;
use crate::ir::variable::{DefSite, SsaVarId, VarView, VariableOrigin};
use crate::passes::deadcode;
use crate::passes::mending;
use crate::seqs;
use crate::target::Target;
use vstd::prelude::*;

verus! {

/// How many of the first `n` phi nodes assign `v`.
pub open spec fn phi_count(phis: Seq<PhiView>, v: SsaVarId, n: nat) -> nat
    decreases n,
{
    if n == 0 {
        0
    } else {
        phi_count(phis, v, (n - 1) as nat) + if phis[n - 1].result == v {
            1nat
        } else {
            0
        }
    }
}

/// How many of the first `n` instructions assign `v`.
pub open spec fn instr_count<T: Target>(instrs: Seq<OpView<T>>, v: SsaVarId, n: nat) -> nat
    decreases n,
{
    if n == 0 {
        0
    } else {
        instr_count(instrs, v, (n - 1) as nat) + if instrs[n - 1].defs().contains(v) {
            1nat
        } else {
            0
        }
    }
}

/// The version of the variable number `k` that takes the place of one that is split.
pub open spec fn version_of(k: nat) -> u32 {
    if k < u32::MAX {
        (k + 1) as u32
    } else {
        u32::MAX
    }
}

impl<T: Target> SsaView<T> {
    /// How often block `b` assigns `v`.
    pub open spec fn count_in(self, v: SsaVarId, b: int) -> nat {
        phi_count(self.blocks[b].phis, v, self.blocks[b].phis.len()) + instr_count(
            self.blocks[b].instrs,
            v,
            self.blocks[b].instrs.len(),
        )
    }

    /// What `x` assigns may meet another assignment at the beginning of `y`: `x` dominates a block
    /// that control comes from, but not `y` itself.
    pub open spec fn on_frontier(self, x: usize, y: usize) -> bool {
        &&& exists|k: int|
            0 <= k < self.predecessors(y).len() && self.dominates(
                x,
                #[trigger] self.predecessors(y)[k],
            )
        &&& x == y || !self.dominates(x, y)
    }

    /// The frontier of block `x`, as edges.
    pub open spec fn frontier_at(self, x: int) -> spec_fn(int) -> Seq<(usize, usize)> {
        |y: int|
            if self.on_frontier(x as usize, y as usize) {
                seq![(x as usize, y as usize)]
            } else {
                Seq::empty()
            }
    }

    /// The frontier of every block, as edges.
    pub open spec fn frontier_from(self) -> spec_fn(int) -> Seq<(usize, usize)> {
        |x: int| seqs::flat(self.frontier_at(x), self.blocks.len())
    }

    /// The frontiers of all blocks, as edges.
    pub open spec fn frontier(self) -> Seq<(usize, usize)> {
        seqs::flat(self.frontier_from(), self.blocks.len())
    }

    /// Block `b`, where it assigns `v`.
    pub open spec fn assigner(self, v: SsaVarId) -> spec_fn(int) -> Seq<usize> {
        |b: int|
            if self.count_in(v, b) > 0 {
                seq![b as usize]
            } else {
                Seq::empty()
            }
    }

    /// The blocks that assign `v`.
    pub open spec fn assigners(self, v: SsaVarId) -> Seq<usize> {
        seqs::flat(self.assigner(v), self.blocks.len())
    }

    /// Block `b` assigns `v`, or assignments of `v` meet at its beginning.
    pub open spec fn is_marked(self, v: SsaVarId, b: usize) -> bool {
        closure::reached(self.blocks.len(), self.assigners(v), self.frontier(), b)
    }

    /// Assignments of `v` meet at the beginning of block `y`.
    pub open spec fn needs_phi(self, v: SsaVarId, y: usize) -> bool {
        exists|x: usize|
            x < self.blocks.len() && #[trigger] self.is_marked(v, x) && self.on_frontier(x, y)
    }

    /// `m` is the last block that every way to `b` passes, other than `b`, and where the value of `v`
    /// is settled.
    pub open spec fn is_nearest(self, v: SsaVarId, b: usize, m: usize) -> bool {
        &&& m < self.blocks.len()
        &&& m != b
        &&& self.is_marked(v, m)
        &&& self.dominates(m, b)
        &&& forall|x: usize|
            x < self.blocks.len() && x != b && #[trigger] self.is_marked(v, x) && self.dominates(
                x,
                b,
            ) ==> self.dominates(x, m)
    }

    /// The block before `b` where the value of `v` is settled.
    pub open spec fn nearest(self, v: SsaVarId, b: usize) -> Option<usize> {
        if exists|m: usize| #[trigger] self.is_nearest(v, b, m) {
            Some(choose|m: usize| #[trigger] self.is_nearest(v, b, m))
        } else {
            None
        }
    }

    /// One where a phi node for `v` is placed in block `b`, zero elsewhere.
    pub open spec fn placed(self, v: SsaVarId, b: int) -> nat {
        if self.needs_phi(v, b as usize) {
            1
        } else {
            0
        }
    }

    /// How many variables take the place of `v` in the first `n` blocks.
    pub open spec fn parts(self, v: SsaVarId, n: nat) -> nat
        decreases n,
    {
        if n == 0 {
            0
        } else {
            self.parts(v, (n - 1) as nat) + self.placed(v, n - 1) + self.count_in(v, n - 1)
        }
    }

    /// What the phi node placed for `v` in block `b` assigns.
    pub open spec fn phi_part(self, v: SsaVarId, b: int) -> SsaVarId {
        SsaVarId((self.vars.len() + self.parts(v, b as nat)) as usize)
    }

    /// What assignment number `j` of `v` in block `b` assigns.
    pub open spec fn part(self, v: SsaVarId, b: int, j: int) -> SsaVarId {
        SsaVarId((self.vars.len() + self.parts(v, b as nat) + self.placed(v, b) + j) as usize)
    }

    /// What holds the value of `v` at the end of block `m`, where it is settled there.
    pub open spec fn settled_part(self, v: SsaVarId, m: int) -> SsaVarId {
        if self.count_in(v, m) > 0 {
            self.part(v, m, self.count_in(v, m) - 1)
        } else {
            self.phi_part(v, m)
        }
    }

    /// What holds the value of `v` at the beginning of block `b`.
    pub open spec fn entering(self, v: SsaVarId, b: int) -> SsaVarId {
        if self.needs_phi(v, b as usize) {
            self.phi_part(v, b)
        } else {
            match self.nearest(v, b as usize) {
                Some(m) => self.settled_part(v, m as int),
                None => v,
            }
        }
    }

    /// What holds the value of `v` in block `b` after its first `j` assignments.
    pub open spec fn part_after(self, v: SsaVarId, b: int, j: int) -> SsaVarId {
        if j > 0 {
            self.part(v, b, j - 1)
        } else {
            self.entering(v, b)
        }
    }

    /// What holds the value of `v` at the end of block `b`.
    pub open spec fn leaving(self, v: SsaVarId, b: int) -> SsaVarId {
        self.part_after(v, b, self.count_in(v, b) as int)
    }

    /// An operand, with the value of `v` read where it leaves the block that control comes from.
    pub open spec fn split_operand(self, v: SsaVarId, o: PhiOperand) -> PhiOperand {
        if o.value == v {
            PhiOperand { value: self.leaving(v, o.predecessor as int), ..o }
        } else {
            o
        }
    }

    /// Phi node `p` of block `b`.
    pub open spec fn split_phi(self, v: SsaVarId, b: int, p: int) -> PhiView {
        let phi = self.blocks[b].phis[p];
        PhiView {
            result: if phi.result == v {
                self.part(v, b, phi_count(self.blocks[b].phis, v, p as nat) as int)
            } else {
                phi.result
            },
            operands: phi.operands.map_values(|o: PhiOperand| self.split_operand(v, o)),
            ..phi
        }
    }

    /// The phi node placed for `v` in block `b`.
    pub open spec fn placed_phi(self, v: SsaVarId, b: int) -> PhiView {
        PhiView {
            result: self.phi_part(v, b),
            origin: self.vars[v.0 as int].origin,
            operands: self.predecessors(b as usize).map_values(
                |p: usize| PhiOperand { value: self.leaving(v, p as int), predecessor: p },
            ),
        }
    }

    /// How many assignments of `v` come before instruction `i` of block `b`.
    pub open spec fn count_before(self, v: SsaVarId, b: int, i: int) -> nat {
        phi_count(self.blocks[b].phis, v, self.blocks[b].phis.len()) + instr_count(
            self.blocks[b].instrs,
            v,
            i as nat,
        )
    }

    /// Instruction `i` of block `b`: it reads what holds the value of `v`, and assigns a part of it.
    pub open spec fn split_op(self, v: SsaVarId, b: int, i: int) -> OpView<T> {
        let j = self.count_before(v, b, i) as int;
        self.blocks[b].instrs[i].reading(v, self.part_after(v, b, j)).assigning(
            v,
            self.part(v, b, j),
        )
    }

    /// Block `b`.
    pub open spec fn split_block(self, v: SsaVarId, b: int) -> BlockView<T> {
        let block = self.blocks[b];
        let phis = Seq::new(block.phis.len(), |p: int| self.split_phi(v, b, p));
        BlockView {
            phis: if self.needs_phi(v, b as usize) {
                seq![self.placed_phi(v, b)] + phis
            } else {
                phis
            },
            instrs: Seq::new(block.instrs.len(), |i: int| self.split_op(v, b, i)),
            ..block
        }
    }

    /// The variable number `k` of those that take the place of `v`.
    pub open spec fn part_var(self, v: SsaVarId, k: nat) -> VarView<T> {
        VarView {
            id: SsaVarId((self.vars.len() + k) as usize),
            version: version_of(k),
            uses: Seq::empty(),
            orphan: false,
            ..self.vars[v.0 as int]
        }
    }

    /// The function with `v` split.
    pub open spec fn split(self, v: SsaVarId) -> SsaView<T> {
        SsaView {
            blocks: Seq::new(self.blocks.len(), |b: int| self.split_block(v, b)),
            vars: self.vars + Seq::new(
                self.parts(v, self.blocks.len()),
                |k: int| self.part_var(v, k as nat),
            ),
            ..self
        }
    }
}

pub proof fn lemma_phi_count(phis: Seq<PhiView>, v: SsaVarId, m: nat, n: nat)
    requires
        m <= n,
    ensures
        phi_count(phis, v, m) <= phi_count(phis, v, n),
    decreases n,
{
    if m < n {
        lemma_phi_count(phis, v, m, (n - 1) as nat);
    }
}

pub proof fn lemma_instr_count<T: Target>(instrs: Seq<OpView<T>>, v: SsaVarId, m: nat, n: nat)
    requires
        m <= n,
    ensures
        instr_count(instrs, v, m) <= instr_count(instrs, v, n),
    decreases n,
{
    if m < n {
        lemma_instr_count(instrs, v, m, (n - 1) as nat);
    }
}

/// Returns the blocks from which control can go to each block.
fn list_predecessors<T: Target>(ssa: &SsaFunction<T>) -> (r: Vec<Vec<usize>>)
    ensures
        r@.len() == ssa@.blocks.len(),
        forall|b: int| 0 <= b < r@.len() ==> (#[trigger] r@[b])@ == ssa@.predecessors(b as usize),
{
    let mut r: Vec<Vec<usize>> = Vec::new();
    let mut b: usize = 0;
    while b < ssa.blocks.len()
        invariant
            b <= ssa@.blocks.len(),
            r@.len() == b,
            forall|c: int| 0 <= c < b ==> (#[trigger] r@[c])@ == ssa@.predecessors(c as usize),
        decreases ssa@.blocks.len() - b,
    {
        let list: Vec<usize> = ssa.block_predecessors(b);
        r.push(list);
        b = b + 1;
    }
    r
}

fn check_frontier<T: Target>(
    ssa: &SsaFunction<T>,
    dominators: &Dominators,
    from: &Vec<usize>,
    x: usize,
    y: usize,
) -> (r: bool)
    requires
        dominators.describes(ssa@),
        from@ == ssa@.predecessors(y),
        x < ssa@.blocks.len(),
        y < ssa@.blocks.len(),
    ensures
        r == ssa@.on_frontier(x, y),
{
    if x != y && dominators.check(ssa, x, y) {
        return false;
    }
    let mut k: usize = 0;
    while k < from.len()
        invariant
            dominators.describes(ssa@),
            from@ == ssa@.predecessors(y),
            x == y || !ssa@.dominates(x, y),
            k <= from@.len(),
            forall|j: int|
                0 <= j < k ==> !ssa@.dominates(x, #[trigger] ssa@.predecessors(y)[j]),
        decreases from@.len() - k,
    {
        let p: usize = from[k];
        if dominators.check(ssa, x, p) {
            assert(ssa@.dominates(x, ssa@.predecessors(y)[k as int]));
            return true;
        }
        proof {
            if ssa@.dominates(x, p) {
                dominance::dominators_are_reached(ssa@, x, p);
            }
        }
        k = k + 1;
    }
    false
}

/// Returns the frontiers of all blocks, as edges.
fn find_frontier<T: Target>(
    ssa: &SsaFunction<T>,
    dominators: &Dominators,
    preds: &Vec<Vec<usize>>,
) -> (r: Vec<(usize, usize)>)
    requires
        dominators.describes(ssa@),
        preds@.len() == ssa@.blocks.len(),
        forall|b: int|
            0 <= b < preds@.len() ==> (#[trigger] preds@[b])@ == ssa@.predecessors(b as usize),
    ensures
        r@ == ssa@.frontier(),
{
    let ghost f = ssa@.frontier_from();
    let n: usize = ssa.blocks.len();
    let mut r: Vec<(usize, usize)> = Vec::new();
    let mut x: usize = 0;
    while x < n
        invariant
            dominators.describes(ssa@),
            n == ssa@.blocks.len(),
            preds@.len() == n,
            forall|b: int|
                0 <= b < preds@.len() ==> (#[trigger] preds@[b])@ == ssa@.predecessors(b as usize),
            f == ssa@.frontier_from(),
            x <= n,
            r@ == seqs::flat(f, x as nat),
        decreases n - x,
    {
        let ghost before = r@;
        let ghost g = ssa@.frontier_at(x as int);
        assert(before + seqs::flat(g, 0) =~= before);
        let mut y: usize = 0;
        while y < n
            invariant
                dominators.describes(ssa@),
                n == ssa@.blocks.len(),
                preds@.len() == n,
                forall|b: int|
                    0 <= b < preds@.len() ==> (#[trigger] preds@[b])@ == ssa@.predecessors(
                        b as usize,
                    ),
                g == ssa@.frontier_at(x as int),
                x < n,
                y <= n,
                r@ == before + seqs::flat(g, y as nat),
            decreases n - y,
        {
            let ghost sofar = r@;
            if check_frontier(ssa, dominators, &preds[y], x, y) {
                r.push((x, y));
            }
            assert(r@ =~= sofar + g(y as int));
            assert(r@ =~= before + seqs::flat(g, (y + 1) as nat));
            y = y + 1;
        }
        assert(r@ =~= before + f(x as int));
        x = x + 1;
    }
    r
}

/// Returns whether block `b` assigns `v`.
fn check_assigns<T: Target>(ssa: &SsaFunction<T>, v: SsaVarId, b: usize) -> (r: bool)
    requires
        b < ssa@.blocks.len(),
    ensures
        r == (ssa@.count_in(v, b as int) > 0),
{
    let block: &SsaBlock<T> = &ssa.blocks[b];
    let ghost view = ssa@.blocks[b as int];
    assert(block@ == view);
    let mut p: usize = 0;
    while p < block.phis.len()
        invariant
            block@ == view,
            view == ssa@.blocks[b as int],
            p <= view.phis.len(),
            phi_count(view.phis, v, p as nat) == 0,
        decreases view.phis.len() - p,
    {
        assert(block.phis@[p as int]@ == view.phis[p as int]);
        if block.phis[p].result.0 == v.0 {
            proof {
                lemma_phi_count(view.phis, v, (p + 1) as nat, view.phis.len());
            }
            return true;
        }
        p = p + 1;
    }
    let mut i: usize = 0;
    while i < block.instrs.len()
        invariant
            block@ == view,
            view == ssa@.blocks[b as int],
            i <= view.instrs.len(),
            instr_count(view.instrs, v, i as nat) == 0,
        decreases view.instrs.len() - i,
    {
        assert(block.instrs@[i as int]@ == view.instrs[i as int]);
        if assigns(&block.instrs[i].op, v) {
            proof {
                lemma_instr_count(view.instrs, v, (i + 1) as nat, view.instrs.len());
            }
            return true;
        }
        i = i + 1;
    }
    false
}

/// Returns whether an operation assigns `v`.
fn assigns<T: Target>(op: &SsaOp<T>, v: SsaVarId) -> (r: bool)
    ensures
        r == op@.defs().contains(v),
{
    let defs: Vec<SsaVarId> = op.defs();
    let mut k: usize = 0;
    while k < defs.len()
        invariant
            k <= defs@.len(),
            defs@ == op@.defs(),
            forall|j: int| 0 <= j < k ==> #[trigger] defs@[j] != v,
        decreases defs@.len() - k,
    {
        if defs[k].0 == v.0 {
            assert(defs@[k as int] == v);
            return true;
        }
        k = k + 1;
    }
    false
}

/// Returns for each block whether it assigns `v` or assignments of `v` meet there.
fn find_marked<T: Target>(ssa: &SsaFunction<T>, frontier: &Vec<(usize, usize)>, v: SsaVarId) -> (r:
    Vec<bool>)
    requires
        frontier@ == ssa@.frontier(),
    ensures
        r@.len() == ssa@.blocks.len(),
        forall|b: int| 0 <= b < r@.len() ==> #[trigger] r@[b] == ssa@.is_marked(v, b as usize),
{
    let ghost f = ssa@.assigner(v);
    let mut roots: Vec<usize> = Vec::new();
    let n: usize = ssa.blocks.len();
    let mut b: usize = 0;
    while b < n
        invariant
            n == ssa@.blocks.len(),
            f == ssa@.assigner(v),
            b <= n,
            roots@ == seqs::flat(f, b as nat),
        decreases n - b,
    {
        let ghost before = roots@;
        if check_assigns(ssa, v, b) {
            roots.push(b);
        }
        assert(roots@ =~= before + f(b as int));
        b = b + 1;
    }
    closure::find_reached(n, &roots, frontier)
}

/// Returns for each block whether assignments of `v` meet at its beginning.
fn find_joins<T: Target>(
    ssa: &SsaFunction<T>,
    dominators: &Dominators,
    preds: &Vec<Vec<usize>>,
    marked: &Vec<bool>,
    v: SsaVarId,
) -> (r: Vec<bool>)
    requires
        dominators.describes(ssa@),
        preds@.len() == ssa@.blocks.len(),
        forall|b: int|
            0 <= b < preds@.len() ==> (#[trigger] preds@[b])@ == ssa@.predecessors(b as usize),
        marked@.len() == ssa@.blocks.len(),
        forall|b: int|
            0 <= b < marked@.len() ==> #[trigger] marked@[b] == ssa@.is_marked(v, b as usize),
    ensures
        r@.len() == ssa@.blocks.len(),
        forall|b: int| 0 <= b < r@.len() ==> #[trigger] r@[b] == ssa@.needs_phi(v, b as usize),
{
    let n: usize = ssa.blocks.len();
    let mut r: Vec<bool> = Vec::new();
    let mut y: usize = 0;
    while y < n
        invariant
            dominators.describes(ssa@),
            n == ssa@.blocks.len(),
            preds@.len() == n,
            forall|b: int|
                0 <= b < preds@.len() ==> (#[trigger] preds@[b])@ == ssa@.predecessors(b as usize),
            marked@.len() == n,
            forall|b: int|
                0 <= b < marked@.len() ==> #[trigger] marked@[b] == ssa@.is_marked(v, b as usize),
            y <= n,
            r@.len() == y,
            forall|b: int| 0 <= b < y ==> #[trigger] r@[b] == ssa@.needs_phi(v, b as usize),
        decreases n - y,
    {
        let mut found: bool = false;
        let mut x: usize = 0;
        while x < n
            invariant
                dominators.describes(ssa@),
                n == ssa@.blocks.len(),
                preds@.len() == n,
                forall|b: int|
                    0 <= b < preds@.len() ==> (#[trigger] preds@[b])@ == ssa@.predecessors(
                        b as usize,
                    ),
                marked@.len() == n,
                forall|b: int|
                    0 <= b < marked@.len() ==> #[trigger] marked@[b] == ssa@.is_marked(
                        v,
                        b as usize,
                    ),
                y < n,
                x <= n,
                found == exists|z: usize|
                    z < x && #[trigger] ssa@.is_marked(v, z) && ssa@.on_frontier(z, y),
            decreases n - x,
        {
            assert(marked@[x as int] == ssa@.is_marked(v, x));
            if marked[x] && check_frontier(ssa, dominators, &preds[y], x, y) {
                assert(ssa@.is_marked(v, x) && ssa@.on_frontier(x, y));
                found = true;
            }
            x = x + 1;
        }
        r.push(found);
        y = y + 1;
    }
    r
}

pub proof fn lemma_nearest_is_one<T: Target>(ssa: SsaView<T>, v: SsaVarId, b: usize, m: usize)
    requires
        ssa.is_nearest(v, b, m),
    ensures
        ssa.nearest(v, b) == Some(m),
{
    let other = choose|m: usize| #[trigger] ssa.is_nearest(v, b, m);
    assert(ssa.is_marked(v, m) && ssa.is_marked(v, other));
    dominance::dominance_is_antisymmetric(ssa, m, other);
}

/// Returns the block before `b` where the value of `v` is settled.
fn find_nearest<T: Target>(
    ssa: &SsaFunction<T>,
    dominators: &Dominators,
    marked: &Vec<bool>,
    v: SsaVarId,
    b: usize,
) -> (r: Option<usize>)
    requires
        dominators.describes(ssa@),
        b < ssa@.blocks.len(),
        marked@.len() == ssa@.blocks.len(),
        forall|c: int|
            0 <= c < marked@.len() ==> #[trigger] marked@[c] == ssa@.is_marked(v, c as usize),
    ensures
        r == ssa@.nearest(v, b),
        r matches Some(m) ==> m < ssa@.blocks.len(),
{
    let mut best: Option<usize> = None;
    let mut x: usize = 0;
    while x < marked.len()
        invariant
            dominators.describes(ssa@),
            b < ssa@.blocks.len(),
            marked@.len() == ssa@.blocks.len(),
            forall|c: int|
                0 <= c < marked@.len() ==> #[trigger] marked@[c] == ssa@.is_marked(v, c as usize),
            x <= marked@.len(),
            match best {
                Some(m) => {
                    &&& m < x
                    &&& m != b
                    &&& ssa@.is_marked(v, m)
                    &&& ssa@.dominates(m, b)
                    &&& forall|z: usize|
                        z < x && z != b && #[trigger] ssa@.is_marked(v, z) && ssa@.dominates(z, b)
                            ==> ssa@.dominates(z, m)
                },
                None => forall|z: usize|
                    z < x && z != b && #[trigger] ssa@.is_marked(v, z) ==> !ssa@.dominates(z, b),
            },
        decreases marked@.len() - x,
    {
        assert(marked@[x as int] == ssa@.is_marked(v, x));
        if x != b && marked[x] && dominators.check(ssa, x, b) {
            let deeper: bool = match best {
                Some(m) => dominators.check(ssa, m, x),
                None => true,
            };
            proof {
                dominance::dominators_are_reached(ssa@, x, b);
                loops::dominates_itself(ssa@, x);
                if let Some(m) = best {
                    dominance::dominators_form_a_chain(ssa@, m, x, b);
                    if deeper {
                        assert forall|z: usize|
                            z < x && z != b && #[trigger] ssa@.is_marked(v, z)
                                && ssa@.dominates(z, b) implies ssa@.dominates(z, x) by {
                            dominance::dominance_is_transitive(ssa@, z, m, x);
                        }
                    }
                }
            }
            if deeper {
                best = Some(x);
            }
        }
        x = x + 1;
    }
    proof {
        match best {
            Some(m) => {
                assert(ssa@.is_nearest(v, b, m));
                lemma_nearest_is_one(ssa@, v, b, m);
            },
            None => {
                assert forall|m: usize| !(#[trigger] ssa@.is_nearest(v, b, m)) by {
                    if ssa@.is_nearest(v, b, m) {
                        assert(ssa@.is_marked(v, m));
                    }
                }
            },
        }
    }
    best
}

/// The function with the first `k` variables that take the place of `v`.
spec fn grown<T: Target>(start: SsaView<T>, v: SsaVarId, k: nat) -> SsaView<T> {
    SsaView { vars: start.vars + Seq::new(k, |i: int| start.part_var(v, i as nat)), ..start }
}

/// Creates the next variable that takes the place of `v`.
fn create_part<T: Target>(
    ssa: &mut SsaFunction<T>,
    v: SsaVarId,
    base: usize,
    Ghost(start): Ghost<SsaView<T>>,
    Ghost(k): Ghost<nat>,
)
    requires
        base == start.vars.len(),
        v.0 < base,
        old(ssa)@ == grown(start, v, k),
    ensures
        final(ssa)@ == grown(start, v, k + 1),
{
    assert(ssa@.vars.len() == ssa.variables@.len());
    let number: usize = ssa.variables.len() - base;
    let version: u32 = if number < u32::MAX as usize {
        number as u32 + 1
    } else {
        u32::MAX
    };
    assert(number == k);
    assert(ssa.variables@[v.0 as int]@ == ssa@.vars[v.0 as int]);
    assert(ssa@.vars[v.0 as int] == start.vars[v.0 as int]);
    let origin: VariableOrigin = ssa.variables[v.0].origin;
    let def_site: DefSite = ssa.variables[v.0].def_site;
    let var_type: T::Type = ssa.variables[v.0].var_type;
    let _ = ssa.create_variable(origin, version, def_site, var_type);
    assert(ssa@.vars =~= grown(start, v, k + 1).vars);
}

/// Creates the variables that take the place of `v`, and returns for each block the number of the
/// first of its own; the last entry is the number of all variables.
fn create_parts<T: Target>(ssa: &mut SsaFunction<T>, v: SsaVarId, joins: &Vec<bool>) -> (r: Vec<
    usize,
>)
    requires
        v.0 < old(ssa)@.vars.len(),
        joins@.len() == old(ssa)@.blocks.len(),
        forall|b: int|
            0 <= b < joins@.len() ==> #[trigger] joins@[b] == old(ssa)@.needs_phi(v, b as usize),
    ensures
        final(ssa)@ == grown(old(ssa)@, v, old(ssa)@.parts(v, old(ssa)@.blocks.len())),
        r@.len() == old(ssa)@.blocks.len() + 1,
        forall|b: int|
            0 <= b < r@.len() ==> #[trigger] r@[b] == old(ssa)@.vars.len() + old(ssa)@.parts(
                v,
                b as nat,
            ),
{
    let ghost start = ssa@;
    let base: usize = ssa.variables.len();
    let n: usize = ssa.blocks.len();
    let mut firsts: Vec<usize> = Vec::new();
    assert(ssa@ == grown(start, v, 0)) by {
        assert(grown(start, v, 0).vars =~= start.vars);
    }
    let mut b: usize = 0;
    while b < n
        invariant
            n == start.blocks.len(),
            base == start.vars.len(),
            v.0 < base,
            joins@.len() == n,
            forall|c: int|
                0 <= c < joins@.len() ==> #[trigger] joins@[c] == start.needs_phi(v, c as usize),
            ssa@ == grown(start, v, start.parts(v, b as nat)),
            b <= n,
            firsts@.len() == b,
            forall|c: int|
                0 <= c < b ==> #[trigger] firsts@[c] == start.vars.len() + start.parts(
                    v,
                    c as nat,
                ),
        decreases n - b,
    {
        firsts.push(ssa.variables.len());
        assert(ssa@.vars.len() == ssa.variables@.len());
        let ghost view = start.blocks[b as int];
        let ghost mut k: nat = start.parts(v, b as nat);
        assert(joins@[b as int] == start.needs_phi(v, b));
        if joins[b] {
            create_part(ssa, v, base, Ghost(start), Ghost(k));
            proof {
                k = k + 1;
            }
        }
        let ghost placed = k;
        let count: usize = ssa.blocks[b].phis.len();
        assert(ssa.blocks@[b as int]@ == view);
        let mut p: usize = 0;
        while p < count
            invariant
                base == start.vars.len(),
                v.0 < base,
                b < start.blocks.len(),
                view == start.blocks[b as int],
                count == view.phis.len(),
                p <= count,
                k == placed + phi_count(view.phis, v, p as nat),
                ssa@ == grown(start, v, k),
            decreases count - p,
        {
            assert(ssa.blocks@[b as int]@ == view);
            assert(ssa.blocks@[b as int].phis@[p as int]@ == view.phis[p as int]);
            if ssa.blocks[b].phis[p].result.0 == v.0 {
                create_part(ssa, v, base, Ghost(start), Ghost(k));
                proof {
                    k = k + 1;
                }
            }
            p = p + 1;
        }
        let ghost middle = k;
        assert(ssa.blocks@[b as int]@ == view);
        let count: usize = ssa.blocks[b].instrs.len();
        let mut i: usize = 0;
        while i < count
            invariant
                base == start.vars.len(),
                v.0 < base,
                b < start.blocks.len(),
                view == start.blocks[b as int],
                count == view.instrs.len(),
                i <= count,
                k == middle + instr_count(view.instrs, v, i as nat),
                ssa@ == grown(start, v, k),
            decreases count - i,
        {
            assert(ssa.blocks@[b as int]@ == view);
            assert(ssa.blocks@[b as int].instrs@[i as int]@ == view.instrs[i as int]);
            if assigns(&ssa.blocks[b].instrs[i].op, v) {
                create_part(ssa, v, base, Ghost(start), Ghost(k));
                proof {
                    k = k + 1;
                }
            }
            i = i + 1;
        }
        assert(k == start.parts(v, (b + 1) as nat));
        b = b + 1;
    }
    firsts.push(ssa.variables.len());
    assert(ssa@.vars.len() == ssa.variables@.len());
    firsts
}

/// A block whose value is settled assigns the variable, or gets a phi node.
pub proof fn lemma_marked<T: Target>(ssa: SsaView<T>, v: SsaVarId, b: usize)
    requires
        ssa.is_marked(v, b),
        ssa.blocks.len() <= usize::MAX,
    ensures
        ssa.count_in(v, b as int) > 0 || ssa.needs_phi(v, b),
        b < ssa.blocks.len(),
{
    let n = ssa.blocks.len();
    let way = choose|way: Seq<usize>| #[trigger]
        closure::is_walk(n, ssa.assigners(v), ssa.frontier(), way) && way.last() == b;
    assert(way[way.len() - 1] < n);
    if way.len() == 1 {
        assert(ssa.assigners(v).contains(b));
        let a = seqs::lemma_flat_source(ssa.assigner(v), n, b);
        assert((ssa.assigner(v))(a).contains(b));
        assert(a == b);
    } else {
        let k = way.len() - 2;
        let x = way[k];
        let before = way.take(k + 1);
        assert(closure::is_walk(n, ssa.assigners(v), ssa.frontier(), before)) by {
            assert(before[0] == way[0]);
            assert forall|i: int| 0 <= i < before.len() implies (#[trigger] before[i]) < n by {
                assert(before[i] == way[i]);
            }
            assert forall|i: int, j: int|
                0 <= i < before.len() && j == i + 1 && j
                    < before.len() implies ssa.frontier().contains(
                (#[trigger] before[i], #[trigger] before[j]),
            ) by {
                assert(before[i] == way[i] && before[j] == way[j]);
            }
        }
        assert(before.last() == x);
        assert(ssa.is_marked(v, x));
        assert(ssa.frontier().contains((way[k], way[k + 1])));
        lemma_frontier_edge(ssa, x, b);
        assert(way[k] < n);
    }
}

proof fn lemma_frontier_edge<T: Target>(ssa: SsaView<T>, x: usize, y: usize)
    requires
        ssa.frontier().contains((x, y)),
        ssa.blocks.len() <= usize::MAX,
    ensures
        ssa.on_frontier(x, y),
        x < ssa.blocks.len(),
        y < ssa.blocks.len(),
{
    let n = ssa.blocks.len();
    let a = seqs::lemma_flat_source(ssa.frontier_from(), n, (x, y));
    let b = seqs::lemma_flat_source(ssa.frontier_at(a), n, (x, y));
    let list = (ssa.frontier_at(a))(b);
    let k = choose|k: int| 0 <= k < list.len() && list[k] == (x, y);
    assert(list[k] == (a as usize, b as usize));
}

/// `firsts` numbers the variables that take the place of `v`.
spec fn is_numbered<T: Target>(start: SsaView<T>, v: SsaVarId, firsts: Seq<usize>) -> bool {
    &&& firsts.len() == start.blocks.len() + 1
    &&& forall|b: int|
        0 <= b < firsts.len() ==> #[trigger] firsts[b] == start.vars.len() + start.parts(
            v,
            b as nat,
        )
}

/// Returns what holds the value of `v` at the end of block `m`, where it is settled there.
fn find_settled<T: Target>(
    firsts: &Vec<usize>,
    joins: &Vec<bool>,
    v: SsaVarId,
    m: usize,
    Ghost(start): Ghost<SsaView<T>>,
) -> (r: SsaVarId)
    requires
        is_numbered(start, v, firsts@),
        joins@.len() == start.blocks.len(),
        forall|b: int|
            0 <= b < joins@.len() ==> #[trigger] joins@[b] == start.needs_phi(v, b as usize),
        m < start.blocks.len(),
    ensures
        r == start.settled_part(v, m as int),
{
    let n: usize = joins.len();
    assert(m < n);
    let first: usize = firsts[m];
    let end: usize = firsts[m + 1];
    assert(firsts@[m as int] == first && firsts@[m + 1] == end);
    assert(end == first + start.placed(v, m as int) + start.count_in(v, m as int));
    assert(joins@[m as int] == start.needs_phi(v, m));
    let extra: usize = if joins[m] {
        1
    } else {
        0
    };
    if end - first > extra {
        SsaVarId(end - 1)
    } else {
        SsaVarId(first)
    }
}

/// Returns what holds the value of `v` at the beginning and at the end of each block.
fn find_values<T: Target>(
    ssa: &SsaFunction<T>,
    dominators: &Dominators,
    marked: &Vec<bool>,
    joins: &Vec<bool>,
    firsts: &Vec<usize>,
    v: SsaVarId,
    Ghost(start): Ghost<SsaView<T>>,
) -> (r: (Vec<SsaVarId>, Vec<SsaVarId>))
    requires
        start.blocks == ssa@.blocks,
        dominators.describes(start),
        is_numbered(start, v, firsts@),
        joins@.len() == start.blocks.len(),
        forall|b: int|
            0 <= b < joins@.len() ==> #[trigger] joins@[b] == start.needs_phi(v, b as usize),
        marked@.len() == start.blocks.len(),
        forall|b: int|
            0 <= b < marked@.len() ==> #[trigger] marked@[b] == start.is_marked(v, b as usize),
    ensures
        r.0@.len() == start.blocks.len(),
        r.1@.len() == start.blocks.len(),
        forall|b: int| 0 <= b < r.0@.len() ==> #[trigger] r.0@[b] == start.entering(v, b),
        forall|b: int| 0 <= b < r.1@.len() ==> #[trigger] r.1@[b] == start.leaving(v, b),
{
    let n: usize = ssa.blocks.len();
    assert(n == start.blocks.len());
    let mut enters: Vec<SsaVarId> = Vec::new();
    let mut leaves: Vec<SsaVarId> = Vec::new();
    proof {
        lemma_same_blocks(ssa@, start, v);
    }
    let mut b: usize = 0;
    while b < n
        invariant
            n == start.blocks.len(),
            start.blocks == ssa@.blocks,
            dominators.describes(start),
            is_numbered(start, v, firsts@),
            joins@.len() == start.blocks.len(),
            forall|c: int|
                0 <= c < joins@.len() ==> #[trigger] joins@[c] == start.needs_phi(v, c as usize),
            marked@.len() == start.blocks.len(),
            forall|c: int|
                0 <= c < marked@.len() ==> #[trigger] marked@[c] == start.is_marked(v, c as usize),
            b <= n,
            enters@.len() == b,
            leaves@.len() == b,
            forall|c: int| 0 <= c < b ==> #[trigger] enters@[c] == start.entering(v, c),
            forall|c: int| 0 <= c < b ==> #[trigger] leaves@[c] == start.leaving(v, c),
        decreases n - b,
    {
        proof {
            lemma_same_blocks(ssa@, start, v);
        }
        let first: usize = firsts[b];
        let end: usize = firsts[b + 1];
        assert(firsts@[b as int] == first && firsts@[b + 1] == end);
        assert(end == first + start.placed(v, b as int) + start.count_in(v, b as int));
        assert(joins@[b as int] == start.needs_phi(v, b));
        let extra: usize = if joins[b] {
            1
        } else {
            0
        };
        let enter: SsaVarId = if joins[b] {
            SsaVarId(first)
        } else {
            match find_nearest(ssa, dominators, marked, v, b) {
                Some(m) => find_settled::<T>(firsts, joins, v, m, Ghost(start)),
                None => v,
            }
        };
        let leave: SsaVarId = if end - first > extra {
            SsaVarId(end - 1)
        } else {
            enter
        };
        enters.push(enter);
        leaves.push(leave);
        b = b + 1;
    }
    (enters, leaves)
}

/// Where assignments meet depends on the blocks alone.
proof fn lemma_same_blocks<T: Target>(a: SsaView<T>, b: SsaView<T>, v: SsaVarId)
    requires
        a.blocks == b.blocks,
    ensures
        a.edges() == b.edges(),
        forall|x: usize, y: usize| #[trigger] a.dominates(x, y) == b.dominates(x, y),
        forall|y: usize| #[trigger] a.predecessors(y) == b.predecessors(y),
        forall|x: usize| #[trigger] a.is_marked(v, x) == b.is_marked(v, x),
        forall|y: usize| #[trigger] a.needs_phi(v, y) == b.needs_phi(v, y),
        forall|y: usize| #[trigger] a.nearest(v, y) == b.nearest(v, y),
{
    assert(a.edges_from() =~= b.edges_from());
    assert(a.edges() == b.edges());
    assert forall|x: usize, y: usize| #[trigger] a.dominates(x, y) == b.dominates(x, y) by {}
    assert forall|y: usize| #[trigger] a.predecessors(y) == b.predecessors(y) by {
        assert(a.enters(y) =~= b.enters(y));
    }
    assert forall|x: usize, y: usize| #[trigger] a.on_frontier(x, y) == b.on_frontier(x, y) by {
        assert(a.predecessors(y) == b.predecessors(y));
        assert(a.dominates(x, y) == b.dominates(x, y));
        if a.on_frontier(x, y) {
            let k = choose|k: int|
                0 <= k < a.predecessors(y).len() && a.dominates(
                    x,
                    #[trigger] a.predecessors(y)[k],
                );
            assert(b.dominates(x, b.predecessors(y)[k]));
        }
        if b.on_frontier(x, y) {
            let k = choose|k: int|
                0 <= k < b.predecessors(y).len() && b.dominates(
                    x,
                    #[trigger] b.predecessors(y)[k],
                );
            assert(a.dominates(x, a.predecessors(y)[k]));
        }
    }
    assert(a.frontier_from() =~= b.frontier_from()) by {
        assert forall|x: int| (#[trigger] (a.frontier_from())(x)) == (b.frontier_from())(x) by {
            assert(a.frontier_at(x) =~= b.frontier_at(x));
        }
    }
    assert(a.assigner(v) =~= b.assigner(v));
    assert forall|x: usize| #[trigger] a.is_marked(v, x) == b.is_marked(v, x) by {}
    assert forall|y: usize| #[trigger] a.needs_phi(v, y) == b.needs_phi(v, y) by {
        if a.needs_phi(v, y) {
            let x = choose|x: usize|
                x < a.blocks.len() && #[trigger] a.is_marked(v, x) && a.on_frontier(x, y);
            assert(b.is_marked(v, x) && b.on_frontier(x, y));
        }
        if b.needs_phi(v, y) {
            let x = choose|x: usize|
                x < b.blocks.len() && #[trigger] b.is_marked(v, x) && b.on_frontier(x, y);
            assert(a.is_marked(v, x) && a.on_frontier(x, y));
        }
    }
    assert forall|y: usize| #[trigger] a.nearest(v, y) == b.nearest(v, y) by {
        assert forall|m: usize| #[trigger] a.is_nearest(v, y, m) == b.is_nearest(v, y, m) by {
            if a.is_nearest(v, y, m) {
                assert forall|x: usize|
                    x < b.blocks.len() && x != y && #[trigger] b.is_marked(v, x) && b.dominates(
                        x,
                        y,
                    ) implies b.dominates(x, m) by {
                    assert(a.is_marked(v, x) && a.dominates(x, y));
                    assert(a.dominates(x, m));
                }
                assert(b.is_marked(v, m) && b.dominates(m, y)) by {
                    assert(a.is_marked(v, m) && a.dominates(m, y));
                }
            }
            if b.is_nearest(v, y, m) {
                assert forall|x: usize|
                    x < a.blocks.len() && x != y && #[trigger] a.is_marked(v, x) && a.dominates(
                        x,
                        y,
                    ) implies a.dominates(x, m) by {
                    assert(b.is_marked(v, x) && b.dominates(x, y));
                    assert(b.dominates(x, m));
                }
                assert(a.is_marked(v, m) && a.dominates(m, y)) by {
                    assert(b.is_marked(v, m) && b.dominates(m, y));
                }
            }
        }
        if let Some(m) = a.nearest(v, y) {
            assert(a.is_nearest(v, y, m));
            assert(b.is_nearest(v, y, m));
            lemma_nearest_is_one(b, v, y, m);
        }
        if let Some(m) = b.nearest(v, y) {
            assert(b.is_nearest(v, y, m));
            assert(a.is_nearest(v, y, m));
            lemma_nearest_is_one(a, v, y, m);
        }
    }
}

/// The operands of phi nodes come from blocks of the function.
spec fn has_phi_sources<T: Target>(ssa: SsaView<T>) -> bool {
    forall|b: int, p: int, k: int|
        0 <= b < ssa.blocks.len() && 0 <= p < ssa.blocks[b].phis.len() && 0 <= k
            < ssa.blocks[b].phis[p].operands.len() ==> (
        #[trigger] ssa.blocks[b].phis[p].operands[k]).predecessor < ssa.blocks.len()
}

/// Returns the phi node placed for `v` in block `b`.
fn place_phi<T: Target>(
    ssa: &SsaFunction<T>,
    v: SsaVarId,
    b: usize,
    first: usize,
    leaves: &Vec<SsaVarId>,
    from: &Vec<usize>,
    Ghost(start): Ghost<SsaView<T>>,
) -> (r: PhiNode)
    requires
        v.0 < start.vars.len(),
        start.vars.len() <= ssa@.vars.len(),
        ssa@.vars[v.0 as int] == start.vars[v.0 as int],
        first == start.vars.len() + start.parts(v, b as nat),
        from@ == start.predecessors(b),
        start.blocks.len() <= usize::MAX,
        leaves@.len() == start.blocks.len(),
        forall|c: int| 0 <= c < leaves@.len() ==> #[trigger] leaves@[c] == start.leaving(v, c),
    ensures
        r@ == start.placed_phi(v, b as int),
{
    assert(ssa.variables@[v.0 as int]@ == ssa@.vars[v.0 as int]);
    let mut r: PhiNode = PhiNode::new(SsaVarId(first), ssa.variables[v.0].origin);
    let mut k: usize = 0;
    while k < from.len()
        invariant
            from@ == start.predecessors(b),
            start.blocks.len() <= usize::MAX,
            leaves@.len() == start.blocks.len(),
            forall|c: int| 0 <= c < leaves@.len() ==> #[trigger] leaves@[c] == start.leaving(v, c),
            k <= from@.len(),
            r@.result == start.phi_part(v, b as int),
            r@.origin == start.vars[v.0 as int].origin,
            r@.operands.len() == k,
            forall|j: int|
                0 <= j < k ==> #[trigger] r@.operands[j] == (PhiOperand {
                    value: start.leaving(v, from@[j] as int),
                    predecessor: from@[j],
                }),
        decreases from@.len() - k,
    {
        let p: usize = from[k];
        proof {
            assert(start.predecessors(b).contains(p)) by {
                assert(start.predecessors(b)[k as int] == p);
            }
            dominance::predecessors_have_edges(start, b, p);
        }
        assert(leaves@[p as int] == start.leaving(v, p as int));
        r.add_operand(PhiOperand { value: leaves[p], predecessor: p });
        k = k + 1;
    }
    assert(r@.operands =~= start.placed_phi(v, b as int).operands);
    r
}

/// Returns block `b` with `v` split.
fn make_split_block<T: Target>(
    ssa: &SsaFunction<T>,
    v: SsaVarId,
    b: usize,
    join: bool,
    firsts: &Vec<usize>,
    enters: &Vec<SsaVarId>,
    leaves: &Vec<SsaVarId>,
    from: &Vec<usize>,
    Ghost(start): Ghost<SsaView<T>>,
) -> (r: SsaBlock<T>)
    requires
        v.0 < start.vars.len(),
        start.vars.len() <= ssa@.vars.len(),
        ssa@.vars[v.0 as int] == start.vars[v.0 as int],
        start.blocks == ssa@.blocks,
        has_phi_sources(start),
        b < start.blocks.len(),
        join == start.needs_phi(v, b),
        is_numbered(start, v, firsts@),
        from@ == start.predecessors(b),
        enters@.len() == start.blocks.len(),
        leaves@.len() == start.blocks.len(),
        forall|c: int| 0 <= c < enters@.len() ==> #[trigger] enters@[c] == start.entering(v, c),
        forall|c: int| 0 <= c < leaves@.len() ==> #[trigger] leaves@[c] == start.leaving(v, c),
    ensures
        r@ == start.split_block(v, b as int),
{
    let n: usize = leaves.len();
    let ghost view = start.blocks[b as int];
    let block: &SsaBlock<T> = &ssa.blocks[b];
    assert(block@ == view);
    let first: usize = firsts[b];
    let end: usize = firsts[b + 1];
    assert(firsts@[b as int] == first && firsts@[b + 1] == end);
    let ghost pc = phi_count(view.phis, v, view.phis.len());
    let ghost ic = instr_count(view.instrs, v, view.instrs.len());
    let ghost placed = start.placed(v, b as int);
    assert(end == first + placed + pc + ic);
    let mut phis: Vec<PhiNode> = Vec::new();
    let mut next: usize = first;
    if join {
        let phi: PhiNode = place_phi(ssa, v, b, first, leaves, from, Ghost(start));
        phis.push(phi);
        next = next + 1;
    }
    let ghost head = phis@;
    assert(enters@[b as int] == start.entering(v, b as int));
    let mut current: SsaVarId = enters[b];
    let mut p: usize = 0;
    while p < block.phis.len()
        invariant
            block@ == view,
            b < start.blocks.len(),
            view == start.blocks[b as int],
            has_phi_sources(start),
            leaves@.len() == start.blocks.len(),
            forall|c: int| 0 <= c < leaves@.len() ==> #[trigger] leaves@[c] == start.leaving(v, c),
            first == start.vars.len() + start.parts(v, b as nat),
            placed == start.placed(v, b as int),
            pc == phi_count(view.phis, v, view.phis.len()),
            end == first + placed + pc + ic,
            p <= view.phis.len(),
            next == first + placed + phi_count(view.phis, v, p as nat),
            current == start.part_after(
                v,
                b as int,
                phi_count(view.phis, v, p as nat) as int,
            ),
            phis@.len() == head.len() + p,
            forall|j: int| 0 <= j < head.len() ==> #[trigger] phis@[j] == head[j],
            forall|j: int|
                0 <= j < p ==> (#[trigger] phis@[head.len() + j])@ == start.split_phi(
                    v,
                    b as int,
                    j,
                ),
        decreases view.phis.len() - p,
    {
        let phi: &PhiNode = &block.phis[p];
        assert(block.phis@[p as int]@ == view.phis[p as int]);
        proof {
            lemma_phi_count(view.phis, v, (p + 1) as nat, view.phis.len());
        }
        let mut result: SsaVarId = phi.result;
        if phi.result.0 == v.0 {
            result = SsaVarId(next);
            current = SsaVarId(next);
            next = next + 1;
        }
        let mut made: PhiNode = PhiNode::new(result, phi.origin);
        let mut k: usize = 0;
        while k < phi.operands.len()
            invariant
                phi@ == view.phis[p as int],
                p < view.phis.len(),
                b < start.blocks.len(),
                view == start.blocks[b as int],
                has_phi_sources(start),
                leaves@.len() == start.blocks.len(),
                forall|c: int|
                    0 <= c < leaves@.len() ==> #[trigger] leaves@[c] == start.leaving(v, c),
                k <= phi@.operands.len(),
                made@.result == result,
                made@.origin == phi@.origin,
                made@.operands.len() == k,
                forall|j: int|
                    0 <= j < k ==> #[trigger] made@.operands[j] == start.split_operand(
                        v,
                        phi@.operands[j],
                    ),
            decreases phi@.operands.len() - k,
        {
            let mut operand: PhiOperand = phi.operands[k];
            assert(operand == start.blocks[b as int].phis[p as int].operands[k as int]);
            if operand.value.0 == v.0 {
                assert(leaves@[operand.predecessor as int] == start.leaving(
                    v,
                    operand.predecessor as int,
                ));
                operand = PhiOperand {
                    value: leaves[operand.predecessor],
                    predecessor: operand.predecessor,
                };
            }
            made.add_operand(operand);
            k = k + 1;
        }
        assert(made@.operands =~= start.split_phi(v, b as int, p as int).operands);
        assert(made@ == start.split_phi(v, b as int, p as int));
        phis.push(made);
        p = p + 1;
    }
    let mut instrs: Vec<SsaInstruction<T>> = Vec::new();
    let mut i: usize = 0;
    while i < block.instrs.len()
        invariant
            block@ == view,
            b < start.blocks.len(),
            view == start.blocks[b as int],
            first == start.vars.len() + start.parts(v, b as nat),
            placed == start.placed(v, b as int),
            pc == phi_count(view.phis, v, view.phis.len()),
            ic == instr_count(view.instrs, v, view.instrs.len()),
            end == first + placed + pc + ic,
            i <= view.instrs.len(),
            next == first + placed + pc + instr_count(view.instrs, v, i as nat),
            current == start.part_after(v, b as int, start.count_before(v, b as int, i as int) as int),
            instrs@.len() == i,
            forall|j: int|
                0 <= j < i ==> (#[trigger] instrs@[j])@ == start.split_op(v, b as int, j),
        decreases view.instrs.len() - i,
    {
        assert(block.instrs@[i as int]@ == view.instrs[i as int]);
        proof {
            lemma_instr_count(view.instrs, v, (i + 1) as nat, view.instrs.len());
        }
        let mut op: SsaOp<T> = block.instrs[i].op.duplicate();
        op.replace_uses(v, current);
        if assigns(&block.instrs[i].op, v) {
            op.replace_defs(v, SsaVarId(next));
            current = SsaVarId(next);
            next = next + 1;
        } else {
            proof {
                let was = view.instrs[i as int];
                assert(!was.defs().contains(v));
                renaming::lemma_not_assigned(was, v);
                renaming::lemma_reading(was, v, current);
                renaming::lemma_nothing_assigned(
                    op@,
                    v,
                    start.part(v, b as int, start.count_before(v, b as int, i as int) as int),
                );
            }
        }
        instrs.push(SsaInstruction::synthetic(op));
        i = i + 1;
    }
    let ghost made = phis@;
    let r: SsaBlock<T> = SsaBlock { id: block.id, phis, instrs };
    proof {
        let aim = start.split_block(v, b as int).phis;
        assert forall|k: int| 0 <= k < r@.phis.len() implies #[trigger] r@.phis[k] == aim[k] by {
            assert(r@.phis[k] == made[k]@);
            if k < head.len() {
                assert(made[k] == head[k]);
            } else {
                let j = k - head.len();
                assert(made[head.len() + j]@ == start.split_phi(v, b as int, j));
            }
        }
        assert(r@.phis =~= aim);
    }
    assert(r@.instrs =~= start.split_block(v, b as int).instrs);
    r
}

/// Splits `v`: every assignment gets a variable of its own, and phi nodes are placed where they meet.
fn split_variable<T: Target>(ssa: &mut SsaFunction<T>, v: SsaVarId)
    requires
        v.0 < old(ssa)@.vars.len(),
        has_phi_sources(old(ssa)@),
    ensures
        final(ssa)@ == old(ssa)@.split(v),
{
    let ghost start = ssa@;
    let n: usize = ssa.blocks.len();
    let dominators: Dominators = compute_dominators(ssa);
    let preds: Vec<Vec<usize>> = list_predecessors(ssa);
    let frontier: Vec<(usize, usize)> = find_frontier(ssa, &dominators, &preds);
    let marked: Vec<bool> = find_marked(ssa, &frontier, v);
    let joins: Vec<bool> = find_joins(ssa, &dominators, &preds, &marked, v);
    let firsts: Vec<usize> = create_parts(ssa, v, &joins);
    assert(ssa@.vars[v.0 as int] == start.vars[v.0 as int]);
    let (enters, leaves): (Vec<SsaVarId>, Vec<SsaVarId>) = find_values(
        ssa,
        &dominators,
        &marked,
        &joins,
        &firsts,
        v,
        Ghost(start),
    );
    let mut blocks: Vec<SsaBlock<T>> = Vec::new();
    let mut b: usize = 0;
    while b < n
        invariant
            n == start.blocks.len(),
            v.0 < start.vars.len(),
            start.vars.len() <= ssa@.vars.len(),
            ssa@.vars[v.0 as int] == start.vars[v.0 as int],
            start.blocks == ssa@.blocks,
            has_phi_sources(start),
            is_numbered(start, v, firsts@),
            preds@.len() == n,
            forall|c: int|
                0 <= c < preds@.len() ==> (#[trigger] preds@[c])@ == start.predecessors(c as usize),
            joins@.len() == n,
            forall|c: int|
                0 <= c < joins@.len() ==> #[trigger] joins@[c] == start.needs_phi(v, c as usize),
            enters@.len() == n,
            leaves@.len() == n,
            forall|c: int| 0 <= c < enters@.len() ==> #[trigger] enters@[c] == start.entering(v, c),
            forall|c: int| 0 <= c < leaves@.len() ==> #[trigger] leaves@[c] == start.leaving(v, c),
            b <= n,
            blocks@.len() == b,
            forall|c: int| 0 <= c < b ==> (#[trigger] blocks@[c])@ == start.split_block(v, c),
        decreases n - b,
    {
        assert(joins@[b as int] == start.needs_phi(v, b));
        assert(preds@[b as int]@ == start.predecessors(b));
        let block: SsaBlock<T> = make_split_block(
            ssa,
            v,
            b,
            joins[b],
            &firsts,
            &enters,
            &leaves,
            &preds[b],
            Ghost(start),
        );
        blocks.push(block);
        b = b + 1;
    }
    ssa.blocks = blocks;
    assert(ssa@.blocks =~= start.split(v).blocks);
    assert(ssa@.vars =~= start.split(v).vars);
}

/// Those of the first `n` operands that come from one of the blocks.
pub open spec fn operands_from(operands: Seq<PhiOperand>, from: Seq<usize>, n: nat) -> Seq<
    PhiOperand,
>
    decreases n,
{
    if n == 0 {
        Seq::empty()
    } else {
        let before = operands_from(operands, from, (n - 1) as nat);
        if from.contains(operands[n - 1].predecessor) {
            before.push(operands[n - 1])
        } else {
            before
        }
    }
}

impl PhiView {
    /// The phi node without operands from blocks that control does not come from.
    pub open spec fn fed_from(self, from: Seq<usize>) -> PhiView {
        PhiView { operands: operands_from(self.operands, from, self.operands.len()), ..self }
    }
}

impl<T: Target> SsaView<T> {
    /// Block `b` without phi operands from blocks that control does not come from.
    pub open spec fn fed_block(self, b: int) -> BlockView<T> {
        self.blocks[b].with_phis(
            self.blocks[b].phis.map_values(
                |phi: PhiView| phi.fed_from(self.predecessors(b as usize)),
            ),
        )
    }

    /// The function without phi operands from edges that are gone.
    pub open spec fn without_lost_edges(self) -> SsaView<T> {
        SsaView { blocks: Seq::new(self.blocks.len(), |b: int| self.fed_block(b)), ..self }
    }

    /// The function with those of the first `n` variables split that `defs` names twice.
    pub open spec fn split_all(self, defs: Seq<SsaVarId>, n: nat) -> SsaView<T>
        decreases n,
    {
        if n == 0 {
            self
        } else {
            let before = self.split_all(defs, (n - 1) as nat);
            let v = SsaVarId((n - 1) as usize);
            if defects::is_repeated(defs, v) {
                before.split(v)
            } else {
                before
            }
        }
    }

    /// The function rebuilt: repaired, without phi operands from edges that are gone, with every
    /// variable that is assigned more than once split, and lightly repaired.
    pub open spec fn rebuilt(self) -> SsaView<T> {
        let plain = self.repaired();
        plain.without_lost_edges().split_all(
            edit::block_defs(plain.blocks, plain.blocks.len()),
            plain.vars.len(),
        ).lightly_repaired()
    }
}

/// Returns the phi node without operands from blocks that control does not come from.
fn feed_phi(phi: &PhiNode, from: &Vec<usize>) -> (r: PhiNode)
    ensures
        r@ == phi@.fed_from(from@),
{
    let mut r: PhiNode = PhiNode::new(phi.result, phi.origin);
    let mut k: usize = 0;
    while k < phi.operands.len()
        invariant
            k <= phi@.operands.len(),
            r@.result == phi@.result,
            r@.origin == phi@.origin,
            r@.operands == operands_from(phi@.operands, from@, k as nat),
        decreases phi@.operands.len() - k,
    {
        let operand: PhiOperand = phi.operands[k];
        if cfg::holds(from, operand.predecessor) {
            r.add_operand(operand);
        }
        k = k + 1;
    }
    r
}

/// Removes phi operands from edges that are gone.
fn remove_lost_edges<T: Target>(ssa: &mut SsaFunction<T>)
    ensures
        final(ssa)@ == old(ssa)@.without_lost_edges(),
{
    let ghost start = ssa@;
    let n: usize = ssa.blocks.len();
    let preds: Vec<Vec<usize>> = list_predecessors(ssa);
    let mut blocks: Vec<SsaBlock<T>> = Vec::new();
    let mut b: usize = 0;
    while b < n
        invariant
            n == start.blocks.len(),
            ssa@ == start,
            preds@.len() == n,
            forall|c: int|
                0 <= c < preds@.len() ==> (#[trigger] preds@[c])@ == start.predecessors(c as usize),
            b <= n,
            blocks@.len() == b,
            forall|c: int| 0 <= c < b ==> (#[trigger] blocks@[c])@ == start.fed_block(c),
        decreases n - b,
    {
        let mut block: SsaBlock<T> = ssa.blocks[b].duplicate();
        let ghost view = start.blocks[b as int];
        assert(ssa.blocks@[b as int]@ == view);
        assert(preds@[b as int]@ == start.predecessors(b));
        let mut phis: Vec<PhiNode> = Vec::new();
        let mut p: usize = 0;
        while p < block.phis.len()
            invariant
                block@ == view,
                preds@.len() == n,
                b < n,
                preds@[b as int]@ == start.predecessors(b),
                p <= view.phis.len(),
                phis@.len() == p,
                forall|j: int|
                    0 <= j < p ==> (#[trigger] phis@[j])@ == view.phis[j].fed_from(
                        start.predecessors(b),
                    ),
            decreases view.phis.len() - p,
        {
            assert(block.phis@[p as int]@ == view.phis[p as int]);
            let fed: PhiNode = feed_phi(&block.phis[p], &preds[b]);
            phis.push(fed);
            p = p + 1;
        }
        block.phis = phis;
        assert(block@.phis =~= start.fed_block(b as int).phis);
        assert(block@ == start.fed_block(b as int));
        blocks.push(block);
        b = b + 1;
    }
    ssa.blocks = blocks;
    assert(ssa@.blocks =~= start.without_lost_edges().blocks);
    assert(ssa@.vars =~= start.vars);
}

proof fn lemma_fed_operands(operands: Seq<PhiOperand>, from: Seq<usize>, n: nat, k: int)
    requires
        n <= operands.len(),
        0 <= k < operands_from(operands, from, n).len(),
    ensures
        from.contains(operands_from(operands, from, n)[k].predecessor),
        exists|j: int| 0 <= j < n && operands_from(operands, from, n)[k] == #[trigger] operands[j],
    decreases n,
{
    if n > 0 {
        let before = operands_from(operands, from, (n - 1) as nat);
        if k < before.len() {
            lemma_fed_operands(operands, from, (n - 1) as nat, k);
        } else {
            assert(operands_from(operands, from, n)[k] == operands[n - 1]);
        }
    }
}

proof fn lemma_fed_sources<T: Target>(ssa: SsaView<T>)
    requires
        ssa.blocks.len() <= usize::MAX,
    ensures
        has_phi_sources(ssa.without_lost_edges()),
{
    let fed = ssa.without_lost_edges();
    assert forall|b: int, p: int, k: int|
        0 <= b < fed.blocks.len() && 0 <= p < fed.blocks[b].phis.len() && 0 <= k
            < fed.blocks[b].phis[p].operands.len() implies (
    #[trigger] fed.blocks[b].phis[p].operands[k]).predecessor < fed.blocks.len() by {
        let operands = ssa.blocks[b].phis[p].operands;
        let from = ssa.predecessors(b as usize);
        lemma_fed_operands(operands, from, operands.len(), k);
        dominance::predecessors_have_edges(
            ssa,
            b as usize,
            fed.blocks[b].phis[p].operands[k].predecessor,
        );
    }
}

proof fn lemma_split_sources<T: Target>(ssa: SsaView<T>, v: SsaVarId)
    requires
        has_phi_sources(ssa),
        ssa.blocks.len() <= usize::MAX,
    ensures
        has_phi_sources(ssa.split(v)),
        ssa.split(v).blocks.len() == ssa.blocks.len(),
        ssa.split(v).vars.len() >= ssa.vars.len(),
{
    let next = ssa.split(v);
    assert forall|b: int, p: int, k: int|
        0 <= b < next.blocks.len() && 0 <= p < next.blocks[b].phis.len() && 0 <= k
            < next.blocks[b].phis[p].operands.len() implies (
    #[trigger] next.blocks[b].phis[p].operands[k]).predecessor < next.blocks.len() by {
        let join = ssa.needs_phi(v, b as usize);
        if join && p == 0 {
            let from = ssa.predecessors(b as usize);
            assert(next.blocks[b].phis[p] == ssa.placed_phi(v, b));
            assert(from.contains(from[k]));
            dominance::predecessors_have_edges(ssa, b as usize, from[k]);
        } else {
            let q: int = if join {
                p - 1
            } else {
                p
            };
            assert(next.blocks[b].phis[p] == ssa.split_phi(v, b, q));
            assert(ssa.blocks[b].phis[q].operands[k].predecessor < ssa.blocks.len());
        }
    }
}

/// Rebuilds a function: removes phi operands from edges that are gone, splits every variable that is
/// assigned more than once, and repairs the function lightly.
pub fn rebuild_ssa<T: Target>(ssa: &mut SsaFunction<T>)
    ensures
        final(ssa)@ == old(ssa)@.rebuilt(),
{
    ssa.repair_ssa();
    let ghost start = ssa@;
    let ghost defs = edit::block_defs(start.blocks, start.blocks.len());
    let n: usize = ssa.variables.len();
    assert(n == start.vars.len());
    let count: usize = ssa.blocks.len();
    let repeated: Vec<bool> = ssa.find_repeated();
    remove_lost_edges(ssa);
    let ghost fed = ssa@;
    proof {
        lemma_fed_sources(start);
    }
    let mut k: usize = 0;
    while k < n
        invariant
            n == fed.vars.len(),
            count == ssa@.blocks.len(),
            n <= ssa@.vars.len(),
            repeated@.len() == n,
            forall|v: int|
                0 <= v < repeated@.len() ==> #[trigger] repeated@[v] == defects::is_repeated(
                    defs,
                    SsaVarId(v as usize),
                ),
            k <= n,
            has_phi_sources(ssa@),
            ssa@ == fed.split_all(defs, k as nat),
        decreases n - k,
    {
        assert(repeated@[k as int] == defects::is_repeated(defs, SsaVarId(k)));
        if repeated[k] {
            proof {
                lemma_split_sources(ssa@, SsaVarId(k));
            }
            split_variable(ssa, SsaVarId(k));
        }
        k = k + 1;
    }
    deadcode::repair_lightly(ssa);
}

proof fn lemma_nothing_split<T: Target>(ssa: SsaView<T>, defs: Seq<SsaVarId>, n: nat)
    requires
        defs.no_duplicates(),
    ensures
        ssa.split_all(defs, n) == ssa,
    decreases n,
{
    if n > 0 {
        lemma_nothing_split(ssa, defs, (n - 1) as nat);
        let v = SsaVarId((n - 1) as usize);
        if defects::is_repeated(defs, v) {
            let (i, j) = choose|i: int, j: int|
                0 <= i < j < defs.len() && #[trigger] defs[i] == v && #[trigger] defs[j] == v;
            assert(defs[i] == defs[j]);
        }
    }
}

proof fn lemma_same_phi_defs(a: Seq<PhiView>, b: Seq<PhiView>, n: nat)
    requires
        n <= a.len(),
        n <= b.len(),
        forall|p: int| 0 <= p < n ==> (#[trigger] a[p]).result == b[p].result,
    ensures
        edit::phi_defs(a, n) == edit::phi_defs(b, n),
    decreases n,
{
    if n > 0 {
        lemma_same_phi_defs(a, b, (n - 1) as nat);
        assert(a[n - 1].result == b[n - 1].result);
    }
}

pub proof fn lemma_fed_defs<T: Target>(ssa: SsaView<T>, n: nat)
    requires
        n <= ssa.blocks.len(),
    ensures
        edit::block_defs(ssa.without_lost_edges().blocks, n) == edit::block_defs(ssa.blocks, n),
    decreases n,
{
    if n > 0 {
        lemma_fed_defs(ssa, (n - 1) as nat);
        let phis = ssa.blocks[n - 1].phis;
        let fed = ssa.without_lost_edges().blocks[n - 1].phis;
        lemma_same_phi_defs(fed, phis, phis.len());
    }
}

/// What is left without the edges that are gone mentions only blocks and variables of the function.
pub proof fn lemma_fed_in_range<T: Target>(ssa: SsaView<T>)
    requires
        forall|b: int| 0 <= b < ssa.blocks.len() ==> #[trigger] ssa.block_in_range(b),
    ensures
        forall|b: int|
            0 <= b < ssa.without_lost_edges().blocks.len()
                ==> #[trigger] ssa.without_lost_edges().block_in_range(b),
{
    let fed = ssa.without_lost_edges();
    assert forall|b: int| 0 <= b < fed.blocks.len() implies #[trigger] fed.block_in_range(b) by {
        assert(ssa.block_in_range(b));
        assert forall|p: int| 0 <= p < fed.blocks[b].phis.len() implies fed.phi_in_range(
            #[trigger] fed.blocks[b].phis[p],
        ) by {
            let phi = ssa.blocks[b].phis[p];
            let from = ssa.predecessors(b as usize);
            assert(ssa.phi_in_range(phi));
            assert forall|k: int| 0 <= k < fed.blocks[b].phis[p].operands.len() implies (
            #[trigger] fed.blocks[b].phis[p].operands[k]).value.0 < fed.vars.len()
                && fed.blocks[b].phis[p].operands[k].predecessor < fed.blocks.len() by {
                lemma_fed_operands(phi.operands, from, phi.operands.len(), k);
                let j = choose|j: int|
                    0 <= j < phi.operands.len() && operands_from(
                        phi.operands,
                        from,
                        phi.operands.len(),
                    )[k] == #[trigger] phi.operands[j];
                assert(phi.operands[j].value.0 < ssa.vars.len());
            }
        }
        assert forall|i: int| 0 <= i < fed.blocks[b].instrs.len() implies fed.op_in_range(
            #[trigger] fed.blocks[b].instrs[i],
        ) by {
            assert(ssa.op_in_range(ssa.blocks[b].instrs[i]));
        }
    }
}

/// Rebuilding a well-formed function splits nothing, and keeps it well-formed.
pub proof fn rebuild_keeps_well_formed<T: Target>(ssa: SsaView<T>)
    requires
        ssa.well_formed(),
    ensures
        ssa.rebuilt() == ssa.repaired().without_lost_edges().lightly_repaired(),
        ssa.rebuilt().well_formed(),
{
    let plain = ssa.repaired();
    mending::repair_keeps_well_formed(ssa);
    lemma_nothing_split(
        plain.without_lost_edges(),
        edit::block_defs(plain.blocks, plain.blocks.len()),
        plain.vars.len(),
    );
    lemma_fed_in_range(plain);
    lemma_fed_defs(plain, plain.blocks.len());
    mending::light_repair_keeps_well_formed(plain.without_lost_edges());
}

} // verus!
