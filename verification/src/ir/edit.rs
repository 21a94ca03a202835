//! Editing a function: committing a batch of changes, or taking it back.
use crate::ir::block::{BlockView, SsaBlock, SsaInstruction};
use crate::ir::function;
use crate::ir::function::{SsaExceptionHandler, SsaFunction, SsaView};
use crate::ir::ops::{Op, OpView, SsaOp};
use crate::ir::phi::{PhiNode, PhiOperand, PhiView};
use crate::ir::variable::{DefSite, SsaVarId, SsaVariable, VariableOrigin};
use crate::target::Target;
use vstd::prelude::*;

verus! {

/// The results of the first `n` phi nodes.
pub open spec fn phi_defs(phis: Seq<PhiView>, n: nat) -> Seq<SsaVarId>
    decreases n,
{
    if n == 0 {
        Seq::empty()
    } else {
        phi_defs(phis, (n - 1) as nat).push(phis[n - 1].result)
    }
}

/// The variables defined by the first `n` instructions.
pub open spec fn instr_defs<T: Target>(instrs: Seq<OpView<T>>, n: nat) -> Seq<SsaVarId>
    decreases n,
{
    if n == 0 {
        Seq::empty()
    } else {
        instr_defs(instrs, (n - 1) as nat) + instrs[n - 1].defs()
    }
}

/// The variables defined in the first `n` blocks, in program order.
pub open spec fn block_defs<T: Target>(blocks: Seq<BlockView<T>>, n: nat) -> Seq<SsaVarId>
    decreases n,
{
    if n == 0 {
        Seq::empty()
    } else {
        let block = blocks[n - 1];
        block_defs(blocks, (n - 1) as nat) + phi_defs(block.phis, block.phis.len()) + instr_defs(
            block.instrs,
            block.instrs.len(),
        )
    }
}

/// Every entry of `s` is below `bound`.
pub open spec fn all_below(s: Seq<usize>, bound: nat) -> bool {
    forall|i: int| 0 <= i < s.len() ==> (#[trigger] s[i]) < bound
}

/// Every variable of `s` is one of the first `bound`.
pub open spec fn vars_below(s: Seq<SsaVarId>, bound: nat) -> bool {
    forall|i: int| 0 <= i < s.len() ==> (#[trigger] s[i]).0 < bound
}

impl<T: Target> SsaView<T> {
    /// The phi node mentions only blocks and variables of the function.
    pub open spec fn phi_in_range(self, phi: PhiView) -> bool {
        &&& phi.result.0 < self.vars.len()
        &&& forall|i: int|
            0 <= i < phi.operands.len() ==> (#[trigger] phi.operands[i]).value.0 < self.vars.len()
                && phi.operands[i].predecessor < self.blocks.len()
    }

    /// The operation mentions only blocks and variables of the function.
    pub open spec fn op_in_range(self, op: OpView<T>) -> bool {
        &&& vars_below(op.defs(), self.vars.len())
        &&& vars_below(op.uses(), self.vars.len())
        &&& all_below(op.successors(), self.blocks.len())
    }

    /// The block at `b` carries its index as its number, and mentions only blocks and variables
    /// of the function.
    pub open spec fn block_in_range(self, b: int) -> bool {
        &&& self.blocks[b].id == b
        &&& forall|p: int|
            0 <= p < self.blocks[b].phis.len() ==> self.phi_in_range(
                #[trigger] self.blocks[b].phis[p],
            )
        &&& forall|i: int|
            0 <= i < self.blocks[b].instrs.len() ==> self.op_in_range(
                #[trigger] self.blocks[b].instrs[i],
            )
    }

    /// The function is consistent, and assigns no variable twice.
    pub open spec fn well_formed(self) -> bool {
        &&& forall|b: int| 0 <= b < self.blocks.len() ==> #[trigger] self.block_in_range(b)
        &&& block_defs(self.blocks, self.blocks.len()).no_duplicates()
    }

    /// What becomes of a batch of changes that leads to this state: it is repaired, and stays
    /// where the result is well-formed; where it is not, `before` comes back.
    pub open spec fn committed(self, before: SsaView<T>) -> SsaView<T> {
        if self.repaired().well_formed() {
            self.repaired()
        } else {
            before
        }
    }
}

proof fn lemma_no_duplicates_push(s: Seq<SsaVarId>, v: SsaVarId)
    ensures
        s.push(v).no_duplicates() == (s.no_duplicates() && !s.contains(v)),
{
    let t = s.push(v);
    if s.no_duplicates() && !s.contains(v) {
        assert forall|i: int, j: int| 0 <= i < t.len() && 0 <= j < t.len() && i != j implies t[i]
            != t[j] by {
            if i < s.len() && j < s.len() {
            } else if i < s.len() {
                assert(s[i] != v);
            } else {
                assert(s[j] != v);
            }
        }
    }
    if t.no_duplicates() {
        assert forall|i: int, j: int| 0 <= i < s.len() && 0 <= j < s.len() && i != j implies s[i]
            != s[j] by {
            assert(t[i] != t[j]);
        }
        if s.contains(v) {
            let i = choose|i: int| 0 <= i < s.len() && s[i] == v;
            assert(t[i] == t[s.len() as int]);
        }
    }
}

proof fn lemma_duplicates_stay(s: Seq<SsaVarId>, t: Seq<SsaVarId>)
    ensures
        !s.no_duplicates() ==> !(s + t).no_duplicates(),
{
    if !s.no_duplicates() {
        let (i, j) = choose|i: int, j: int|
            0 <= i < s.len() && 0 <= j < s.len() && i != j && s[i] == s[j];
        assert((s + t)[i] == (s + t)[j]);
    }
}

pub proof fn lemma_block_defs_prefix<T: Target>(blocks: Seq<BlockView<T>>, m: nat, n: nat)
    requires
        m <= n,
    ensures
        !block_defs(blocks, m).no_duplicates() ==> !block_defs(blocks, n).no_duplicates(),
    decreases n,
{
    if m < n {
        lemma_block_defs_prefix(blocks, m, (n - 1) as nat);
        let block = blocks[n - 1];
        let s = block_defs(blocks, (n - 1) as nat);
        let p = phi_defs(block.phis, block.phis.len());
        let i = instr_defs(block.instrs, block.instrs.len());
        lemma_duplicates_stay(s, p);
        lemma_duplicates_stay(s + p, i);
    }
}

/// Notes that `v` is defined, and returns whether that is for the first time.
fn note_def(seen: &mut Vec<bool>, v: SsaVarId, Ghost(defs): Ghost<Seq<SsaVarId>>) -> (r: bool)
    requires
        v.0 < old(seen)@.len(),
        forall|k: int|
            0 <= k < old(seen)@.len() ==> #[trigger] old(seen)@[k] == defs.contains(
                SsaVarId(k as usize),
            ),
    ensures
        final(seen)@.len() == old(seen)@.len(),
        forall|k: int|
            0 <= k < final(seen)@.len() ==> #[trigger] final(seen)@[k] == defs.push(v).contains(
                SsaVarId(k as usize),
            ),
        r == !defs.contains(v),
{
    let first: bool = !seen[v.0];
    let len: usize = seen.len();
    seen.set(v.0, true);
    proof {
        let t = defs.push(v);
        assert(t[defs.len() as int] == v);
        assert forall|k: int| 0 <= k < seen@.len() implies #[trigger] seen@[k] == t.contains(
            SsaVarId(k as usize),
        ) by {
            let w = SsaVarId(k as usize);
            if defs.contains(w) {
                let i = choose|i: int| 0 <= i < defs.len() && defs[i] == w;
                assert(t[i] == w);
            }
            if t.contains(w) {
                let i = choose|i: int| 0 <= i < t.len() && t[i] == w;
                if i < defs.len() {
                    assert(defs[i] == w);
                }
            }
        }
    }
    first
}

impl<T: Target> SsaFunction<T> {
    /// Returns whether the phi node mentions only blocks and variables of the function.
    pub(crate) fn check_phi(&self, phi: &PhiNode) -> (r: bool)
        ensures
            r == self@.phi_in_range(phi@),
    {
        if phi.result.0 >= self.variables.len() {
            return false;
        }
        let mut i: usize = 0;
        while i < phi.operands.len()
            invariant
                i <= phi.operands@.len(),
                forall|j: int|
                    0 <= j < i ==> (#[trigger] phi@.operands[j]).value.0 < self@.vars.len()
                        && phi@.operands[j].predecessor < self@.blocks.len(),
            decreases phi.operands@.len() - i,
        {
            let operand: PhiOperand = phi.operands[i];
            assert(operand == phi@.operands[i as int]);
            if operand.value.0 >= self.variables.len() || operand.predecessor >= self.blocks.len() {
                return false;
            }
            i = i + 1;
        }
        true
    }

    /// Returns whether every variable of `list` is one of the function.
    fn check_vars(&self, list: &Vec<SsaVarId>) -> (r: bool)
        ensures
            r == vars_below(list@, self@.vars.len()),
    {
        let mut i: usize = 0;
        while i < list.len()
            invariant
                i <= list@.len(),
                forall|j: int| 0 <= j < i ==> (#[trigger] list@[j]).0 < self@.vars.len(),
            decreases list@.len() - i,
        {
            if list[i].0 >= self.variables.len() {
                assert(!(list@[i as int].0 < self@.vars.len()));
                return false;
            }
            i = i + 1;
        }
        true
    }

    /// Returns whether the operation mentions only blocks and variables of the function.
    pub(crate) fn check_op(&self, op: &SsaOp<T>) -> (r: bool)
        ensures
            r == self@.op_in_range(op@),
    {
        let defs: Vec<SsaVarId> = op.defs();
        let uses: Vec<SsaVarId> = op.uses();
        if !self.check_vars(&defs) || !self.check_vars(&uses) {
            return false;
        }
        let targets: Vec<usize> = op.successors();
        let mut i: usize = 0;
        while i < targets.len()
            invariant
                i <= targets@.len(),
                targets@ == op@.successors(),
                forall|j: int| 0 <= j < i ==> (#[trigger] targets@[j]) < self@.blocks.len(),
            decreases targets@.len() - i,
        {
            if targets[i] >= self.blocks.len() {
                assert(!(targets@[i as int] < self@.blocks.len()));
                return false;
            }
            i = i + 1;
        }
        true
    }

    /// Returns whether the block at `b` is numbered by its index, and mentions only blocks and
    /// variables of the function.
    fn check_block(&self, b: usize) -> (r: bool)
        requires
            b < self@.blocks.len(),
        ensures
            r == self@.block_in_range(b as int),
    {
        let block: &SsaBlock<T> = &self.blocks[b];
        assert(block@ == self@.blocks[b as int]);
        if block.id != b {
            return false;
        }
        let mut p: usize = 0;
        while p < block.phis.len()
            invariant
                b < self@.blocks.len(),
                block@ == self@.blocks[b as int],
                p <= block.phis@.len(),
                forall|j: int|
                    0 <= j < p ==> self@.phi_in_range(#[trigger] self@.blocks[b as int].phis[j]),
            decreases block.phis@.len() - p,
        {
            assert(block.phis@[p as int]@ == self@.blocks[b as int].phis[p as int]);
            if !self.check_phi(&block.phis[p]) {
                return false;
            }
            p = p + 1;
        }
        let mut i: usize = 0;
        while i < block.instrs.len()
            invariant
                b < self@.blocks.len(),
                block@ == self@.blocks[b as int],
                i <= block.instrs@.len(),
                forall|j: int|
                    0 <= j < i ==> self@.op_in_range(#[trigger] self@.blocks[b as int].instrs[j]),
            decreases block.instrs@.len() - i,
        {
            assert(block.instrs@[i as int]@ == self@.blocks[b as int].instrs[i as int]);
            if !self.check_op(&block.instrs[i].op) {
                return false;
            }
            i = i + 1;
        }
        true
    }

    /// Notes the definitions of one block in `seen`, and returns whether none repeats another.
    fn check_block_defs(
        &self,
        b: usize,
        seen: &mut Vec<bool>,
        Ghost(before): Ghost<Seq<SsaVarId>>,
    ) -> (r: bool)
        requires
            b < self@.blocks.len(),
            self@.block_in_range(b as int),
            old(seen)@.len() == self@.vars.len(),
            before.no_duplicates(),
            forall|k: int|
                0 <= k < old(seen)@.len() ==> #[trigger] old(seen)@[k] == before.contains(
                    SsaVarId(k as usize),
                ),
        ensures
            ({
                let block = self@.blocks[b as int];
                let after = before + phi_defs(block.phis, block.phis.len()) + instr_defs(
                    block.instrs,
                    block.instrs.len(),
                );
                &&& r == after.no_duplicates()
                &&& final(seen)@.len() == old(seen)@.len()
                &&& r ==> forall|k: int|
                    0 <= k < final(seen)@.len() ==> #[trigger] final(seen)@[k] == after.contains(
                        SsaVarId(k as usize),
                    )
            }),
    {
        let block: &SsaBlock<T> = &self.blocks[b];
        let ghost view = self@.blocks[b as int];
        assert(block@ == view);
        let ghost all_phis = phi_defs(view.phis, view.phis.len());
        let ghost all_instrs = instr_defs(view.instrs, view.instrs.len());
        let mut p: usize = 0;
        assert(before + phi_defs(view.phis, 0) =~= before);
        while p < block.phis.len()
            invariant
                b < self@.blocks.len(),
                self@.block_in_range(b as int),
                view == self@.blocks[b as int],
                block@ == view,
                all_phis == phi_defs(view.phis, view.phis.len()),
                all_instrs == instr_defs(view.instrs, view.instrs.len()),
                seen@.len() == self@.vars.len(),
                seen@.len() == old(seen)@.len(),
                p <= block.phis@.len(),
                (before + phi_defs(view.phis, p as nat)).no_duplicates(),
                forall|k: int|
                    0 <= k < seen@.len() ==> #[trigger] seen@[k] == (before + phi_defs(
                        view.phis,
                        p as nat,
                    )).contains(SsaVarId(k as usize)),
            decreases block.phis@.len() - p,
        {
            let result: SsaVarId = block.phis[p].result;
            let ghost defs = before + phi_defs(view.phis, p as nat);
            assert(view.phis[p as int] == block.phis@[p as int]@);
            assert(self@.phi_in_range(view.phis[p as int]));
            assert(defs.push(result) =~= before + phi_defs(view.phis, (p + 1) as nat));
            proof {
                lemma_no_duplicates_push(defs, result);
            }
            if !note_def(seen, result, Ghost(defs)) {
                proof {
                    lemma_phi_defs_prefix(view.phis, (p + 1) as nat, view.phis.len());
                    let rest = all_phis.skip(p + 1);
                    assert(before + all_phis =~= defs.push(result) + rest);
                    lemma_duplicates_stay(defs.push(result), rest);
                    lemma_duplicates_stay(before + all_phis, all_instrs);
                }
                return false;
            }
            p = p + 1;
        }
        let mut i: usize = 0;
        let ghost with_phis = before + all_phis;
        assert(with_phis + instr_defs(view.instrs, 0) =~= with_phis);
        while i < block.instrs.len()
            invariant
                b < self@.blocks.len(),
                self@.block_in_range(b as int),
                view == self@.blocks[b as int],
                block@ == view,
                all_phis == phi_defs(view.phis, view.phis.len()),
                with_phis == before + all_phis,
                all_instrs == instr_defs(view.instrs, view.instrs.len()),
                seen@.len() == self@.vars.len(),
                seen@.len() == old(seen)@.len(),
                i <= block.instrs@.len(),
                (with_phis + instr_defs(view.instrs, i as nat)).no_duplicates(),
                forall|k: int|
                    0 <= k < seen@.len() ==> #[trigger] seen@[k] == (with_phis + instr_defs(
                        view.instrs,
                        i as nat,
                    )).contains(SsaVarId(k as usize)),
            decreases block.instrs@.len() - i,
        {
            let defs: Vec<SsaVarId> = block.instrs[i].op.defs();
            assert(view.instrs[i as int] == block.instrs@[i as int]@);
            assert(self@.op_in_range(view.instrs[i as int]));
            let ghost base = with_phis + instr_defs(view.instrs, i as nat);
            let mut d: usize = 0;
            assert(base + defs@.take(0) =~= base);
            while d < defs.len()
                invariant
                    b < self@.blocks.len(),
                    view == self@.blocks[b as int],
                    i < view.instrs.len(),
                    all_phis == phi_defs(view.phis, view.phis.len()),
                    with_phis == before + all_phis,
                    all_instrs == instr_defs(view.instrs, view.instrs.len()),
                    defs@ == view.instrs[i as int].defs(),
                    vars_below(defs@, self@.vars.len()),
                    base == with_phis + instr_defs(view.instrs, i as nat),
                    seen@.len() == self@.vars.len(),
                    seen@.len() == old(seen)@.len(),
                    d <= defs@.len(),
                    (base + defs@.take(d as int)).no_duplicates(),
                    forall|k: int|
                        0 <= k < seen@.len() ==> #[trigger] seen@[k] == (base + defs@.take(
                            d as int,
                        )).contains(SsaVarId(k as usize)),
                decreases defs@.len() - d,
            {
                let ghost sofar = base + defs@.take(d as int);
                assert(sofar.push(defs@[d as int]) =~= base + defs@.take(d + 1));
                proof {
                    lemma_no_duplicates_push(sofar, defs@[d as int]);
                }
                if !note_def(seen, defs[d], Ghost(sofar)) {
                    proof {
                        lemma_instr_defs_prefix(view.instrs, (i + 1) as nat, view.instrs.len());
                        let one = instr_defs(view.instrs, (i + 1) as nat);
                        let rest = defs@.skip(d + 1) + all_instrs.skip(one.len() as int);
                        assert(with_phis + all_instrs =~= sofar.push(defs@[d as int]) + rest) by {
                            assert(one =~= instr_defs(view.instrs, i as nat) + defs@);
                            assert(all_instrs =~= one + all_instrs.skip(one.len() as int));
                        }
                        lemma_duplicates_stay(sofar.push(defs@[d as int]), rest);
                    }
                    return false;
                }
                d = d + 1;
            }
            assert(base + defs@.take(defs@.len() as int) =~= with_phis + instr_defs(
                view.instrs,
                (i + 1) as nat,
            ));
            i = i + 1;
        }
        true
    }

    /// Returns whether the function mentions only its own blocks and variables.
    pub(crate) fn verify_range(&self) -> (r: bool)
        ensures
            r == (forall|b: int| 0 <= b < self@.blocks.len() ==> #[trigger] self@.block_in_range(b)),
    {
        let mut b: usize = 0;
        while b < self.blocks.len()
            invariant
                b <= self.blocks@.len(),
                forall|j: int| 0 <= j < b ==> #[trigger] self@.block_in_range(j),
            decreases self.blocks@.len() - b,
        {
            if !self.check_block(b) {
                assert(!self@.block_in_range(b as int));
                return false;
            }
            b = b + 1;
        }
        true
    }

    /// Returns whether the function is consistent, and assigns no variable twice.
    #[must_use]
    pub fn verify(&self) -> (r: bool)
        ensures
            r == self@.well_formed(),
    {
        if !self.verify_range() {
            return false;
        }
        let mut seen: Vec<bool> = Vec::new();
        let mut k: usize = 0;
        while k < self.variables.len()
            invariant
                k <= self.variables@.len(),
                seen@.len() == k,
                forall|j: int| 0 <= j < k ==> !#[trigger] seen@[j],
            decreases self.variables@.len() - k,
        {
            seen.push(false);
            k = k + 1;
        }
        let mut b: usize = 0;
        while b < self.blocks.len()
            invariant
                b <= self.blocks@.len(),
                seen@.len() == self@.vars.len(),
                forall|j: int| 0 <= j < self@.blocks.len() ==> #[trigger] self@.block_in_range(j),
                block_defs(self@.blocks, b as nat).no_duplicates(),
                forall|j: int|
                    0 <= j < seen@.len() ==> #[trigger] seen@[j] == block_defs(
                        self@.blocks,
                        b as nat,
                    ).contains(SsaVarId(j as usize)),
            decreases self.blocks@.len() - b,
        {
            let ghost before = block_defs(self@.blocks, b as nat);
            assert(self@.block_in_range(b as int));
            let fine: bool = self.check_block_defs(b, &mut seen, Ghost(before));
            if !fine {
                proof {
                    lemma_block_defs_prefix(self@.blocks, (b + 1) as nat, self@.blocks.len());
                }
                return false;
            }
            b = b + 1;
        }
        true
    }

    /// Removes operations that do nothing from one block.
    fn strip_block(&mut self, b: usize)
        requires
            b < old(self)@.blocks.len(),
        ensures
            final(self)@ == old(self)@.with_block(b as int, old(self)@.blocks[b as int].stripped()),
    {
        let ghost views = old(self)@.blocks[b as int].instrs;
        let mut kept: Vec<SsaInstruction<T>> = Vec::new();
        let mut i: usize = 0;
        while i < self.blocks[b].instrs.len()
            invariant
                b < self.blocks@.len(),
                *self == *old(self),
                views == self@.blocks[b as int].instrs,
                i <= views.len(),
                kept@.map_values(|i: SsaInstruction<T>| i@) =~= function::without_nops(
                    views,
                    i as nat,
                ),
            decreases views.len() - i,
        {
            let instr: &SsaInstruction<T> = &self.blocks[b].instrs[i];
            assert(instr@ == views[i as int]);
            let keep: bool = match &instr.op {
                Op::Nop => false,
                _ => true,
            };
            if keep {
                kept.push(instr.duplicate());
            }
            i = i + 1;
        }
        self.blocks[b].instrs = kept;
        assert(self@.blocks =~= old(self)@.with_block(
            b as int,
            old(self)@.blocks[b as int].stripped(),
        ).blocks);
        assert(self@.vars =~= old(self)@.vars);
    }

    /// Removes operations that do nothing, records the uses of every variable afresh, and drops the
    /// variables that nothing assigns or reads.
    pub fn repair_ssa(&mut self)
        ensures
            final(self)@ == old(self)@.repaired(),
    {
        let mut b: usize = 0;
        let ghost start = self@;
        while b < self.blocks.len()
            invariant
                b <= self@.blocks.len(),
                start == old(self)@,
                self@.blocks.len() == start.blocks.len(),
                self@ == (SsaView { blocks: self@.blocks, ..start }),
                forall|j: int| 0 <= j < b ==> #[trigger] self@.blocks[j] == start.blocks[j].stripped(),
                forall|j: int|
                    b <= j < self@.blocks.len() ==> #[trigger] self@.blocks[j] == start.blocks[j],
            decreases self.blocks@.len() - b,
        {
            self.strip_block(b);
            b = b + 1;
        }
        assert(self@.blocks =~= start.blocks.map_values(|b: BlockView<T>| b.stripped()));
        self.recompute_uses();
        self.compact_variables();
    }

    /// Finds the place that assigns each variable first.
    fn find_def_sites(&self) -> (r: Vec<Option<DefSite>>)
        ensures
            r@.len() == self@.vars.len(),
            forall|k: int|
                0 <= k < r@.len() ==> #[trigger] r@[k] == function::def_site_in(
                    self@.blocks,
                    SsaVarId(k as usize),
                    self@.blocks.len(),
                ),
    {
        let n: usize = self.variables.len();
        let mut sites: Vec<Option<DefSite>> = Vec::new();
        let mut k: usize = 0;
        while k < n
            invariant
                k <= n,
                sites@.len() == k,
                forall|j: int| 0 <= j < k ==> (#[trigger] sites@[j]) is None,
            decreases n - k,
        {
            sites.push(None);
            k = k + 1;
        }
        let mut b: usize = 0;
        while b < self.blocks.len()
            invariant
                n == self@.vars.len(),
                sites@.len() == n,
                b <= self@.blocks.len(),
                forall|k: int|
                    0 <= k < n ==> #[trigger] sites@[k] == function::def_site_in(
                        self@.blocks,
                        SsaVarId(k as usize),
                        b as nat,
                    ),
            decreases self@.blocks.len() - b,
        {
            let block: &SsaBlock<T> = &self.blocks[b];
            let ghost view = self@.blocks[b as int];
            let ghost start = sites@;
            assert(block@ == view);
            let mut p: usize = 0;
            while p < block.phis.len()
                invariant
                    block@ == view,
                    start.len() == n,
                    sites@.len() == n,
                    p <= view.phis.len(),
                    forall|k: int|
                        0 <= k < n ==> #[trigger] sites@[k] == function::first_site(
                            start[k],
                            function::phi_def_site(view.phis, b, SsaVarId(k as usize), p as nat),
                        ),
                decreases view.phis.len() - p,
            {
                assert(block.phis@[p as int]@ == view.phis[p as int]);
                let v: usize = block.phis[p].result.0;
                if v < n && sites[v].is_none() {
                    sites.set(v, Some(DefSite { block: b, instruction: None }));
                }
                p = p + 1;
            }
            let ghost middle = sites@;
            let mut i: usize = 0;
            while i < block.instrs.len()
                invariant
                    block@ == view,
                    middle.len() == n,
                    sites@.len() == n,
                    i <= view.instrs.len(),
                    forall|k: int|
                        0 <= k < n ==> #[trigger] sites@[k] == function::first_site(
                            middle[k],
                            function::instr_def_site(
                                view.instrs,
                                b,
                                SsaVarId(k as usize),
                                i as nat,
                            ),
                        ),
                decreases view.instrs.len() - i,
            {
                assert(block.instrs@[i as int]@ == view.instrs[i as int]);
                let defs: Vec<SsaVarId> = block.instrs[i].op.defs();
                let site: DefSite = DefSite { block: b, instruction: Some(i) };
                let ghost before = sites@;
                let mut d: usize = 0;
                while d < defs.len()
                    invariant
                        before.len() == n,
                        sites@.len() == n,
                        d <= defs@.len(),
                        forall|k: int|
                            0 <= k < n ==> #[trigger] sites@[k] == function::first_site(
                                before[k],
                                if defs@.take(d as int).contains(SsaVarId(k as usize)) {
                                    Some(site)
                                } else {
                                    None
                                },
                            ),
                    decreases defs@.len() - d,
                {
                    let v: usize = defs[d].0;
                    if v < n && sites[v].is_none() {
                        sites.set(v, Some(site));
                    }
                    proof {
                        assert(defs@.take(d + 1) =~= defs@.take(d as int).push(defs@[d as int]));
                        assert forall|k: int| 0 <= k < n implies #[trigger] sites@[k]
                            == function::first_site(
                            before[k],
                            if defs@.take(d + 1).contains(SsaVarId(k as usize)) {
                                Some(site)
                            } else {
                                None
                            },
                        ) by {
                            let w = SsaVarId(k as usize);
                            let old_part = defs@.take(d as int);
                            let new_part = defs@.take(d + 1);
                            if old_part.contains(w) {
                                let j = choose|j: int| 0 <= j < old_part.len() && old_part[j] == w;
                                assert(new_part[j] == w);
                            }
                            if new_part.contains(w) && !old_part.contains(w) {
                                let j = choose|j: int| 0 <= j < new_part.len() && new_part[j] == w;
                                if j < d {
                                    assert(old_part[j] == w);
                                }
                                assert(defs@[d as int] == w);
                            }
                            if defs@[d as int] == w {
                                assert(new_part[d as int] == w);
                            }
                        }
                    }
                    d = d + 1;
                }
                assert(defs@.take(defs@.len() as int) =~= defs@);
                i = i + 1;
            }
            b = b + 1;
        }
        sites
    }

    /// Notes the place that assigns each variable, and drops the variables that nothing assigns or
    /// reads from the table.
    pub fn compact_variables(&mut self)
        ensures
            final(self)@ == old(self)@.compacted(),
    {
        let ghost start = self@;
        let sites: Vec<Option<DefSite>> = self.find_def_sites();
        let n: usize = self.variables.len();
        let mut k: usize = 0;
        while k < n
            invariant
                start == old(self)@,
                n == start.vars.len(),
                self@ == (SsaView { vars: self@.vars, ..start }),
                self@.vars.len() == n,
                k <= n,
                sites@.len() == n,
                forall|j: int|
                    0 <= j < n ==> #[trigger] sites@[j] == function::def_site_in(
                        start.blocks,
                        SsaVarId(j as usize),
                        start.blocks.len(),
                    ),
                forall|j: int| 0 <= j < k ==> #[trigger] self@.vars[j] == start.tabled(j),
                forall|j: int| k <= j < n ==> #[trigger] self@.vars[j] == start.vars[j],
            decreases n - k,
        {
            let ghost before = self@;
            assert(self.variables@[k as int]@ == self@.vars[k as int]);
            let is_argument: bool = match self.variables[k].origin {
                VariableOrigin::Argument(_) => true,
                _ => false,
            };
            let is_read: bool = self.variables[k].uses.len() > 0;
            self.variables[k].orphan = sites[k].is_none() && !is_read && !is_argument;
            if let Some(site) = sites[k] {
                self.variables[k].def_site = site;
            }
            assert(self@.vars =~= before.vars.update(k as int, start.tabled(k as int)));
            assert(self@.blocks =~= before.blocks);
            k = k + 1;
        }
        assert(self@.vars =~= start.compacted().vars);
    }

    /// Returns an equal function.
    #[must_use]
    pub fn duplicate(&self) -> (r: Self)
        ensures
            r@ == self@,
    {
        let mut variables: Vec<SsaVariable<T>> = Vec::new();
        let mut i: usize = 0;
        while i < self.variables.len()
            invariant
                i <= self.variables@.len(),
                variables@.len() == i,
                forall|j: int| 0 <= j < i ==> (#[trigger] variables@[j])@ == self.variables@[j]@,
            decreases self.variables@.len() - i,
        {
            variables.push(self.variables[i].duplicate());
            i = i + 1;
        }
        let mut blocks: Vec<SsaBlock<T>> = Vec::new();
        let mut i: usize = 0;
        while i < self.blocks.len()
            invariant
                i <= self.blocks@.len(),
                blocks@.len() == i,
                forall|j: int| 0 <= j < i ==> (#[trigger] blocks@[j])@ == self.blocks@[j]@,
            decreases self.blocks@.len() - i,
        {
            blocks.push(self.blocks[i].duplicate());
            i = i + 1;
        }
        let mut handlers: Vec<SsaExceptionHandler> = Vec::new();
        let mut i: usize = 0;
        while i < self.handlers.len()
            invariant
                i <= self.handlers@.len(),
                handlers@ == self.handlers@.take(i as int),
            decreases self.handlers@.len() - i,
        {
            handlers.push(self.handlers[i]);
            i = i + 1;
        }
        let r = SsaFunction {
            num_args: self.num_args,
            num_locals: self.num_locals,
            variables,
            blocks,
            handlers,
        };
        assert(r@.vars =~= self@.vars);
        assert(r@.blocks =~= self@.blocks);
        assert(r@.handlers =~= self@.handlers);
        r
    }

    /// Repairs the function after a batch of changes, and takes the batch back where the result
    /// is not well-formed. Returns whether the changes stay.
    pub fn commit(&mut self, before: SsaFunction<T>) -> (r: bool)
        ensures
            r == old(self)@.repaired().well_formed(),
            final(self)@ == old(self)@.committed(before@),
    {
        self.repair_ssa();
        if self.verify() {
            true
        } else {
            *self = before;
            false
        }
    }
}

proof fn lemma_phi_defs_prefix(phis: Seq<PhiView>, m: nat, n: nat)
    requires
        m <= n,
    ensures
        phi_defs(phis, m).len() == m,
        phi_defs(phis, n).len() == n,
        phi_defs(phis, n).take(m as int) =~= phi_defs(phis, m),
    decreases n,
{
    if m < n {
        lemma_phi_defs_prefix(phis, m, (n - 1) as nat);
    } else if n > 0 {
        lemma_phi_defs_prefix(phis, (m - 1) as nat, (n - 1) as nat);
    }
}

proof fn lemma_instr_defs_prefix<T: Target>(instrs: Seq<OpView<T>>, m: nat, n: nat)
    requires
        m <= n,
    ensures
        instr_defs(instrs, m).len() <= instr_defs(instrs, n).len(),
        instr_defs(instrs, n).take(instr_defs(instrs, m).len() as int) =~= instr_defs(instrs, m),
    decreases n,
{
    if m < n {
        lemma_instr_defs_prefix(instrs, m, (n - 1) as nat);
    }
}

/// A batch of changes either stays whole or leaves no trace.
pub proof fn commit_is_all_or_nothing<T: Target>(changed: SsaView<T>, before: SsaView<T>)
    ensures
        changed.committed(before) == changed.repaired() || changed.committed(before) == before,
        changed.committed(before).well_formed() || changed.committed(before) == before,
        before.well_formed() ==> changed.committed(before).well_formed(),
{
}

proof fn lemma_no_nops_left<T: Target>(instrs: Seq<OpView<T>>, n: nat)
    requires
        n <= instrs.len(),
    ensures
        forall|i: int|
            0 <= i < function::without_nops(instrs, n).len() ==> !((#[trigger] function::without_nops(instrs, n)[i])
                is Nop),
    decreases n,
{
    if n > 0 {
        lemma_no_nops_left(instrs, (n - 1) as nat);
    }
}

proof fn lemma_nothing_to_strip<T: Target>(instrs: Seq<OpView<T>>, n: nat)
    requires
        n <= instrs.len(),
        forall|i: int| 0 <= i < instrs.len() ==> !((#[trigger] instrs[i]) is Nop),
    ensures
        function::without_nops(instrs, n) =~= instrs.take(n as int),
    decreases n,
{
    if n > 0 {
        lemma_nothing_to_strip(instrs, (n - 1) as nat);
        assert(!(instrs[n - 1] is Nop));
    }
}

/// Putting a function in order a second time changes nothing.
pub proof fn repair_is_idempotent<T: Target>(ssa: SsaView<T>)
    ensures
        ssa.repaired().repaired() == ssa.repaired(),
{
    let once = ssa.repaired();
    let twice = once.repaired();
    assert forall|b: int| 0 <= b < ssa.blocks.len() implies #[trigger] twice.blocks[b]
        == once.blocks[b] by {
        let instrs = ssa.blocks[b].instrs;
        let kept = function::without_nops(instrs, instrs.len());
        lemma_no_nops_left(instrs, instrs.len());
        lemma_nothing_to_strip(kept, kept.len());
        assert(once.blocks[b].instrs == kept);
        assert(twice.blocks[b].instrs =~= kept);
    }
    assert(twice.blocks =~= once.blocks);
    assert(twice.vars =~= once.vars);
}

/// A repair leaves exactly those variables in the table that something assigns or reads, and the
/// arguments.
pub proof fn repair_leaves_no_orphans<T: Target>(ssa: SsaView<T>, v: int)
    requires
        0 <= v < ssa.vars.len(),
    ensures
        ({
            let blocks = ssa.repaired().blocks;
            let var = SsaVarId(v as usize);
            let is_assigned = function::def_site_in(blocks, var, blocks.len()) is Some;
            let is_read = function::block_sites(blocks, var, blocks.len()).len() > 0;
            &&& ssa.repaired().vars.len() == ssa.vars.len()
            &&& ssa.repaired().vars[v].orphan == !(is_assigned || is_read
                || ssa.vars[v].origin is Argument)
        }),
{
}

} // verus!
