//! Functions in single-assignment form.
use crate::ir::block::{BlockView, SsaBlock};
use crate::ir::ops::{OpView, SsaOp};
use crate::ir::phi::PhiView;
use crate::ir::variable::{DefSite, SsaVarId, SsaVariable, UseSite, VarView, VariableOrigin};
use crate::target::Target;
use vstd::prelude::*;

verus! {

/// A protected region and its handler, by the blocks at their boundaries.
#[derive(Debug, Clone, Copy, PartialEq, Eq, Structural)]
pub struct SsaExceptionHandler {
    /// First block of the protected region.
    pub try_start_block: Option<usize>,
    /// Last block of the protected region.
    pub try_end_block: Option<usize>,
    /// First block of the handler.
    pub handler_start_block: Option<usize>,
    /// Last block of the handler.
    pub handler_end_block: Option<usize>,
    /// First block of the filter.
    pub filter_start_block: Option<usize>,
}

/// A function: its variables, its blocks in order, and its exception handlers.
///
/// Control enters at the block at index zero.
pub struct SsaFunction<T: Target> {
    pub num_args: usize,
    pub num_locals: usize,
    pub variables: Vec<SsaVariable<T>>,
    pub blocks: Vec<SsaBlock<T>>,
    pub handlers: Vec<SsaExceptionHandler>,
}

/// A function as a mathematical value.
#[verifier::ext_equal]
pub struct SsaView<T: Target> {
    pub num_args: usize,
    pub num_locals: usize,
    pub vars: Seq<VarView<T>>,
    pub blocks: Seq<BlockView<T>>,
    pub handlers: Seq<SsaExceptionHandler>,
}

impl<T: Target> View for SsaFunction<T> {
    type V = SsaView<T>;

    open spec fn view(&self) -> SsaView<T> {
        SsaView {
            num_args: self.num_args,
            num_locals: self.num_locals,
            vars: self.variables@.map_values(|v: SsaVariable<T>| v@),
            blocks: self.blocks@.map_values(|b: SsaBlock<T>| b@),
            handlers: self.handlers@,
        }
    }
}

/// `site` once for each of the first `n` entries of `reads` that is `v`.
pub open spec fn read_sites(reads: Seq<SsaVarId>, v: SsaVarId, site: UseSite, n: nat) -> Seq<UseSite>
    decreases n,
{
    if n == 0 {
        Seq::empty()
    } else {
        let before = read_sites(reads, v, site, (n - 1) as nat);
        if reads[n - 1] == v {
            before.push(site)
        } else {
            before
        }
    }
}

/// The uses of `v` by the first `n` of the phi nodes of block `b`.
pub open spec fn phi_sites(phis: Seq<PhiView>, b: usize, v: SsaVarId, n: nat) -> Seq<UseSite>
    decreases n,
{
    if n == 0 {
        Seq::empty()
    } else {
        let reads = phis[n - 1].values();
        phi_sites(phis, b, v, (n - 1) as nat) + read_sites(
            reads,
            v,
            UseSite { block: b, instruction: (n - 1) as usize, is_phi_operand: true },
            reads.len(),
        )
    }
}

/// The uses of `v` by the first `n` of the instructions of block `b`.
pub open spec fn instr_sites<T: Target>(
    instrs: Seq<OpView<T>>,
    b: usize,
    v: SsaVarId,
    n: nat,
) -> Seq<UseSite>
    decreases n,
{
    if n == 0 {
        Seq::empty()
    } else {
        let reads = instrs[n - 1].uses();
        instr_sites(instrs, b, v, (n - 1) as nat) + read_sites(
            reads,
            v,
            UseSite { block: b, instruction: (n - 1) as usize, is_phi_operand: false },
            reads.len(),
        )
    }
}

/// The uses of `v` in the first `n` blocks, phi nodes before instructions.
pub open spec fn block_sites<T: Target>(
    blocks: Seq<BlockView<T>>,
    v: SsaVarId,
    n: nat,
) -> Seq<UseSite>
    decreases n,
{
    if n == 0 {
        Seq::empty()
    } else {
        let block = blocks[n - 1];
        block_sites(blocks, v, (n - 1) as nat) + phi_sites(
            block.phis,
            (n - 1) as usize,
            v,
            block.phis.len(),
        ) + instr_sites(block.instrs, (n - 1) as usize, v, block.instrs.len())
    }
}

/// The first of two places, where there is one.
pub open spec fn first_site(a: Option<DefSite>, b: Option<DefSite>) -> Option<DefSite> {
    match a {
        Some(site) => Some(site),
        None => b,
    }
}

/// The place of the phi nodes of block `b`, where one of the first `n` assigns `v`.
pub open spec fn phi_def_site(phis: Seq<PhiView>, b: usize, v: SsaVarId, n: nat) -> Option<DefSite>
    decreases n,
{
    if n == 0 {
        None
    } else {
        first_site(
            phi_def_site(phis, b, v, (n - 1) as nat),
            if phis[n - 1].result == v {
                Some(DefSite { block: b, instruction: None })
            } else {
                None
            },
        )
    }
}

/// The place of the first of the first `n` instructions of block `b` that assigns `v`.
pub open spec fn instr_def_site<T: Target>(
    instrs: Seq<OpView<T>>,
    b: usize,
    v: SsaVarId,
    n: nat,
) -> Option<DefSite>
    decreases n,
{
    if n == 0 {
        None
    } else {
        first_site(
            instr_def_site(instrs, b, v, (n - 1) as nat),
            if instrs[n - 1].defs().contains(v) {
                Some(DefSite { block: b, instruction: Some((n - 1) as usize) })
            } else {
                None
            },
        )
    }
}

/// The place in the first `n` blocks that assigns `v` first.
pub open spec fn def_site_in<T: Target>(blocks: Seq<BlockView<T>>, v: SsaVarId, n: nat) -> Option<
    DefSite,
>
    decreases n,
{
    if n == 0 {
        None
    } else {
        let block = blocks[n - 1];
        first_site(
            first_site(
                def_site_in(blocks, v, (n - 1) as nat),
                phi_def_site(block.phis, (n - 1) as usize, v, block.phis.len()),
            ),
            instr_def_site(block.instrs, (n - 1) as usize, v, block.instrs.len()),
        )
    }
}

/// The variables among the first `n` that are in the table.
pub open spec fn kept_vars<T: Target>(vars: Seq<VarView<T>>, n: nat) -> Seq<VarView<T>>
    decreases n,
{
    if n == 0 {
        Seq::empty()
    } else {
        let before = kept_vars(vars, (n - 1) as nat);
        if vars[n - 1].orphan {
            before
        } else {
            before.push(vars[n - 1])
        }
    }
}

/// The operations among the first `n` that do something.
pub open spec fn without_nops<T: Target>(instrs: Seq<OpView<T>>, n: nat) -> Seq<OpView<T>>
    decreases n,
{
    if n == 0 {
        Seq::empty()
    } else {
        let before = without_nops(instrs, (n - 1) as nat);
        if instrs[n - 1] is Nop {
            before
        } else {
            before.push(instrs[n - 1])
        }
    }
}

impl<T: Target> BlockView<T> {
    /// The block without operations that do nothing.
    pub open spec fn stripped(self) -> BlockView<T> {
        self.with_instrs(without_nops(self.instrs, self.instrs.len()))
    }
}

impl<T: Target> SsaView<T> {
    /// The function with the block at `b` exchanged for `block`.
    pub open spec fn with_block(self, b: int, block: BlockView<T>) -> SsaView<T> {
        SsaView { blocks: self.blocks.update(b, block), ..self }
    }

    /// The function with the operation at `i` of block `b` exchanged for `op`.
    pub open spec fn with_op(self, b: int, i: int, op: OpView<T>) -> SsaView<T> {
        self.with_block(b, self.blocks[b].with_op(i, op))
    }

    /// There is an instruction at `i` of block `b`.
    pub open spec fn has_instr(self, b: int, i: int) -> bool {
        0 <= b < self.blocks.len() && 0 <= i < self.blocks[b].instrs.len()
    }

    /// The places of the instructions of block `b`, in order.
    pub open spec fn places_in(self) -> spec_fn(int) -> Seq<(usize, usize)> {
        |b: int| Seq::new(self.blocks[b].instrs.len(), |i: int| (b as usize, i as usize))
    }

    /// The places of all instructions, in program order.
    pub open spec fn places(self) -> Seq<(usize, usize)> {
        crate::seqs::flat(self.places_in(), self.blocks.len())
    }

    /// The function with the uses of every variable recorded afresh.
    pub open spec fn with_uses(self) -> SsaView<T> {
        SsaView {
            vars: Seq::new(
                self.vars.len(),
                |v: int|
                    VarView {
                        uses: block_sites(
                            self.blocks,
                            SsaVarId(v as usize),
                            self.blocks.len(),
                        ),
                        ..self.vars[v]
                    },
            ),
            ..self
        }
    }

    /// Something assigns or reads `v`: an instruction or a phi node, or the caller, where it is an
    /// argument.
    pub open spec fn is_needed(self, v: int) -> bool {
        ||| def_site_in(self.blocks, SsaVarId(v as usize), self.blocks.len()) is Some
        ||| self.vars[v].uses.len() > 0
        ||| self.vars[v].origin is Argument
    }

    /// The entry of `v` in a table that holds the variables that are needed, each with the place
    /// that assigns it.
    pub open spec fn tabled(self, v: int) -> VarView<T> {
        VarView {
            def_site: match def_site_in(
                self.blocks,
                SsaVarId(v as usize),
                self.blocks.len(),
            ) {
                Some(site) => site,
                None => self.vars[v].def_site,
            },
            orphan: !self.is_needed(v),
            ..self.vars[v]
        }
    }

    /// The function without the variables that nothing assigns or reads.
    pub open spec fn compacted(self) -> SsaView<T> {
        SsaView { vars: Seq::new(self.vars.len(), |v: int| self.tabled(v)), ..self }
    }

    /// The function without operations that do nothing, with the uses recorded afresh, and without
    /// the variables that nothing assigns or reads.
    pub open spec fn repaired(self) -> SsaView<T> {
        SsaView {
            blocks: self.blocks.map_values(|b: BlockView<T>| b.stripped()),
            ..self
        }.with_uses().compacted()
    }

    /// The slot that a variable is renamed within: arguments first, then locals, then one slot
    /// of its own for every other variable.
    pub open spec fn rename_group(self, var: SsaVarId) -> int {
        if var.0 < self.vars.len() {
            match self.vars[var.0 as int].origin {
                VariableOrigin::Argument(i) => i as int,
                VariableOrigin::Local(i) => self.num_args + i,
                _ => self.num_args + self.num_locals + var.0,
            }
        } else {
            self.num_args + self.num_locals + var.0
        }
    }
}

impl<T: Target> SsaFunction<T> {
    /// Creates a function without variables and blocks.
    #[must_use]
    pub fn new(num_args: usize, num_locals: usize) -> (r: Self)
        ensures
            r@ == (SsaView::<T> {
                num_args,
                num_locals,
                vars: Seq::empty(),
                blocks: Seq::empty(),
                handlers: Seq::empty(),
            }),
    {
        let r = SsaFunction {
            num_args,
            num_locals,
            variables: Vec::new(),
            blocks: Vec::new(),
            handlers: Vec::new(),
        };
        assert(r@.vars =~= Seq::empty());
        assert(r@.blocks =~= Seq::empty());
        assert(r@.handlers =~= Seq::empty());
        r
    }

    /// Adds a variable and returns its identifier.
    pub fn create_variable(
        &mut self,
        origin: VariableOrigin,
        version: u32,
        def_site: DefSite,
        var_type: T::Type,
    ) -> (r: SsaVarId)
        ensures
            r == SsaVarId(old(self)@.vars.len() as usize),
            r.0 == old(self)@.vars.len(),
            final(self)@ == (SsaView {
                vars: old(self)@.vars.push(
                    VarView {
                        id: r,
                        origin,
                        version,
                        def_site,
                        var_type,
                        uses: Seq::empty(),
                        orphan: false,
                    },
                ),
                ..old(self)@
            }),
    {
        let id: SsaVarId = SsaVarId(self.variables.len());
        let var = SsaVariable {
            id,
            origin,
            version,
            def_site,
            var_type,
            uses: Vec::new(),
            orphan: false,
        };
        assert(var@.uses =~= Seq::empty());
        self.variables.push(var);
        assert(self@.vars =~= old(self)@.vars.push(var@));
        id
    }

    /// Adds a block before the first block with a greater number.
    pub fn add_block(&mut self, block: SsaBlock<T>)
        ensures
            exists|p: int|
                0 <= p <= old(self)@.blocks.len() && (forall|j: int|
                    0 <= j < p ==> (#[trigger] old(self)@.blocks[j]).id <= block@.id) && (p < old(
                    self,
                )@.blocks.len() ==> old(self)@.blocks[p].id > block@.id) && final(self)@ == (
                SsaView {
                    blocks: #[trigger] old(self)@.blocks.insert(p, block@),
                    ..old(self)@
                }),
    {
        let mut p: usize = 0;
        while p < self.blocks.len() && self.blocks[p].id <= block.id
            invariant
                p <= self.blocks@.len(),
                self@ == old(self)@,
                forall|j: int| 0 <= j < p ==> (#[trigger] self@.blocks[j]).id <= block@.id,
            decreases self.blocks@.len() - p,
        {
            assert(self@.blocks[p as int].id == self.blocks@[p as int].id);
            p = p + 1;
        }
        self.blocks.insert(p, block);
        assert(self@.blocks =~= old(self)@.blocks.insert(p as int, block@));
        assert(self@ == (SsaView {
            blocks: old(self)@.blocks.insert(p as int, block@),
            ..old(self)@
        }));
    }

    /// Appends a block.
    pub fn push_block(&mut self, block: SsaBlock<T>)
        ensures
            final(self)@ == (SsaView { blocks: old(self)@.blocks.push(block@), ..old(self)@ }),
    {
        self.blocks.push(block);
        assert(self@.blocks =~= old(self)@.blocks.push(block@));
    }

    /// Adds an exception handler.
    pub fn add_exception_handler(&mut self, handler: SsaExceptionHandler)
        ensures
            final(self)@ == (SsaView {
                handlers: old(self)@.handlers.push(handler),
                ..old(self)@
            }),
    {
        self.handlers.push(handler);
        assert(self@.blocks =~= old(self)@.blocks);
        assert(self@.vars =~= old(self)@.vars);
    }

    /// Returns the number of blocks.
    #[must_use]
    pub fn block_count(&self) -> (r: usize)
        ensures
            r == self@.blocks.len(),
    {
        self.blocks.len()
    }

    /// Returns whether the function has no block.
    #[must_use]
    pub fn is_empty(&self) -> (r: bool)
        ensures
            r == (self@.blocks.len() == 0),
    {
        self.blocks.len() == 0
    }

    /// Returns the block at `index`, if there is one.
    #[must_use]
    pub fn block(&self, index: usize) -> (r: Option<&SsaBlock<T>>)
        ensures
            r is Some <==> index < self@.blocks.len(),
            r matches Some(b) ==> b@ == self@.blocks[index as int],
    {
        if index < self.blocks.len() {
            Some(&self.blocks[index])
        } else {
            None
        }
    }

    /// Returns the blocks in order.
    #[must_use]
    pub fn blocks(&self) -> (r: &Vec<SsaBlock<T>>)
        ensures
            *r == self.blocks,
    {
        &self.blocks
    }

    /// Returns the variables in the table.
    #[must_use]
    pub fn variables(&self) -> (r: Vec<&SsaVariable<T>>)
        ensures
            r@.map_values(|v: &SsaVariable<T>| v@) == kept_vars(self@.vars, self@.vars.len()),
    {
        let mut r: Vec<&SsaVariable<T>> = Vec::new();
        assert(r@.map_values(|v: &SsaVariable<T>| v@) =~= Seq::empty());
        let mut k: usize = 0;
        while k < self.variables.len()
            invariant
                k <= self.variables@.len(),
                r@.map_values(|v: &SsaVariable<T>| v@) == kept_vars(self@.vars, k as nat),
            decreases self.variables@.len() - k,
        {
            let ghost before = r@;
            assert(self.variables@[k as int]@ == self@.vars[k as int]);
            if !self.variables[k].orphan {
                r.push(&self.variables[k]);
                assert(r@.map_values(|v: &SsaVariable<T>| v@) =~= before.map_values(
                    |v: &SsaVariable<T>| v@,
                ).push(self@.vars[k as int]));
            }
            k = k + 1;
        }
        r
    }

    /// Returns the variable with identifier `id`, if it is in the table.
    #[must_use]
    pub fn variable(&self, id: SsaVarId) -> (r: Option<&SsaVariable<T>>)
        ensures
            r is Some <==> id.0 < self@.vars.len() && !self@.vars[id.0 as int].orphan,
            r matches Some(v) ==> v@ == self@.vars[id.0 as int],
    {
        if id.0 < self.variables.len() {
            assert(self.variables@[id.0 as int]@ == self@.vars[id.0 as int]);
            if !self.variables[id.0].orphan {
                return Some(&self.variables[id.0]);
            }
        }
        None
    }

    /// Returns the slot of the identifier `id`, if it was given out.
    pub(crate) fn slot(&self, id: SsaVarId) -> (r: Option<&SsaVariable<T>>)
        ensures
            r is Some <==> id.0 < self@.vars.len(),
            r matches Some(v) ==> v@ == self@.vars[id.0 as int],
    {
        if id.0 < self.variables.len() {
            Some(&self.variables[id.0])
        } else {
            None
        }
    }

    /// Returns the number of variables in the table.
    #[must_use]
    pub fn variable_count(&self) -> (r: usize)
        ensures
            r == kept_vars(self@.vars, self@.vars.len()).len(),
    {
        let kept: Vec<&SsaVariable<T>> = self.variables();
        assert(kept@.map_values(|v: &SsaVariable<T>| v@).len() == kept@.len());
        kept.len()
    }

    /// Returns a bound on the identifiers that were given out.
    #[must_use]
    pub fn var_id_capacity(&self) -> (r: usize)
        ensures
            r == self@.vars.len(),
    {
        self.variables.len()
    }

    /// Returns the exception handlers.
    #[must_use]
    pub fn exception_handlers(&self) -> (r: &Vec<SsaExceptionHandler>)
        ensures
            r@ == self@.handlers,
    {
        &self.handlers
    }

    /// Returns the places of all instructions, in program order.
    #[must_use]
    pub fn instruction_places(&self) -> (r: Vec<(usize, usize)>)
        ensures
            r@ == self@.places(),
            forall|k: int|
                0 <= k < r@.len() ==> self@.has_instr(
                    (#[trigger] r@[k]).0 as int,
                    r@[k].1 as int,
                ),
    {
        let ghost all = self@.places_in();
        let mut r: Vec<(usize, usize)> = Vec::new();
        let mut b: usize = 0;
        while b < self.blocks.len()
            invariant
                b <= self.blocks@.len(),
                all == self@.places_in(),
                r@ == crate::seqs::flat(all, b as nat),
                forall|k: int|
                    0 <= k < r@.len() ==> self@.has_instr(
                        (#[trigger] r@[k]).0 as int,
                        r@[k].1 as int,
                    ),
            decreases self.blocks@.len() - b,
        {
            let ghost before = r@;
            let n: usize = self.blocks[b].instrs.len();
            let mut i: usize = 0;
            while i < n
                invariant
                    b < self.blocks@.len(),
                    n == self@.blocks[b as int].instrs.len(),
                    i <= n,
                    r@ =~= before + Seq::new(i as nat, |j: int| (b, j as usize)),
                    forall|k: int|
                        0 <= k < r@.len() ==> self@.has_instr(
                            (#[trigger] r@[k]).0 as int,
                            r@[k].1 as int,
                        ),
                decreases n - i,
            {
                r.push((b, i));
                i = i + 1;
            }
            assert(r@ =~= before + all(b as int));
            b = b + 1;
        }
        r
    }

    /// Exchanges the operation at `instr` of block `block` for `op`.
    pub fn set_op(&mut self, block: usize, instr: usize, op: SsaOp<T>)
        requires
            old(self)@.has_instr(block as int, instr as int),
        ensures
            final(self)@ == old(self)@.with_op(block as int, instr as int, op@),
    {
        self.blocks[block].set_op(instr, op);
        assert(self@.blocks =~= old(self)@.with_op(block as int, instr as int, op@).blocks);
        assert(self@.vars =~= old(self)@.vars);
    }

    /// Exchanges the block at `index` for `block`.
    pub fn set_block(&mut self, index: usize, block: SsaBlock<T>)
        requires
            index < old(self)@.blocks.len(),
        ensures
            final(self)@ == old(self)@.with_block(index as int, block@),
    {
        self.blocks.set(index, block);
        assert(self@.blocks =~= old(self)@.with_block(index as int, block@).blocks);
    }

    /// Makes the phi operands of the block at `index` that come from `from` come from `to`.
    pub fn move_predecessor(&mut self, index: usize, from: usize, to: usize)
        requires
            index < old(self)@.blocks.len(),
        ensures
            final(self)@ == old(self)@.with_block(
                index as int,
                old(self)@.blocks[index as int].moved(from, to),
            ),
    {
        self.blocks[index].move_predecessor(from, to);
        assert(self@.blocks =~= old(self)@.with_block(
            index as int,
            old(self)@.blocks[index as int].moved(from, to),
        ).blocks);
    }

    /// Records the uses of every variable afresh.
    pub fn recompute_uses(&mut self)
        ensures
            final(self)@ == old(self)@.with_uses(),
    {
        let n: usize = self.variables.len();
        let mut k: usize = 0;
        while k < n
            invariant
                k <= n,
                n == self.variables@.len(),
                n == old(self).variables@.len(),
                self.num_args == old(self).num_args,
                self.num_locals == old(self).num_locals,
                self.blocks == old(self).blocks,
                self.handlers == old(self).handlers,
                forall|v: int|
                    0 <= v < n ==> (#[trigger] self.variables@[v])@ == (VarView {
                        uses: if v < k {
                            Seq::empty()
                        } else {
                            old(self).variables@[v]@.uses
                        },
                        ..old(self).variables@[v]@
                    }),
            decreases n - k,
        {
            self.variables[k].uses = Vec::new();
            assert(self.variables@[k as int].uses@ =~= Seq::empty());
            k = k + 1;
        }
        let ghost views = self@.blocks;
        let mut b: usize = 0;
        while b < self.blocks.len()
            invariant
                b <= self.blocks@.len(),
                views == self@.blocks,
                n == self.variables@.len(),
                n == old(self).variables@.len(),
                self.num_args == old(self).num_args,
                self.num_locals == old(self).num_locals,
                self.blocks == old(self).blocks,
                self.handlers == old(self).handlers,
                forall|v: int|
                    0 <= v < n ==> (#[trigger] self.variables@[v])@ == (VarView {
                        uses: block_sites(views, SsaVarId(v as usize), b as nat),
                        ..old(self).variables@[v]@
                    }),
            decreases self.blocks@.len() - b,
        {
            self.record_phi_uses(b);
            self.record_instr_uses(b);
            b = b + 1;
            assert forall|v: int| 0 <= v < n implies (#[trigger] self.variables@[v])@ == (VarView {
                uses: block_sites(views, SsaVarId(v as usize), b as nat),
                ..old(self).variables@[v]@
            }) by {
                assert(self.variables@[v].uses@ =~= block_sites(
                    views,
                    SsaVarId(v as usize),
                    b as nat,
                ));
            }
        }
        assert(self@.vars =~= old(self)@.with_uses().vars);
    }

    /// Appends `site` to the recorded uses of `var`.
    fn record_use(&mut self, var: SsaVarId, site: UseSite)
        ensures
            final(self).num_args == old(self).num_args,
            final(self).num_locals == old(self).num_locals,
            final(self).blocks == old(self).blocks,
            final(self).handlers == old(self).handlers,
            final(self).variables@.len() == old(self).variables@.len(),
            forall|v: int|
                0 <= v < old(self).variables@.len() ==> (#[trigger] final(self).variables@[v])@ == (
                VarView {
                    uses: if v == var.0 {
                        old(self).variables@[v]@.uses.push(site)
                    } else {
                        old(self).variables@[v]@.uses
                    },
                    ..old(self).variables@[v]@
                }),
    {
        if var.0 < self.variables.len() {
            self.variables[var.0].uses.push(site);
        }
    }

    /// Records the uses by the phi nodes of one block.
    fn record_phi_uses(&mut self, b: usize)
        requires
            b < old(self).blocks@.len(),
        ensures
            final(self).num_args == old(self).num_args,
            final(self).num_locals == old(self).num_locals,
            final(self).blocks == old(self).blocks,
            final(self).handlers == old(self).handlers,
            final(self).variables@.len() == old(self).variables@.len(),
            forall|v: int|
                0 <= v < old(self).variables@.len() ==> (#[trigger] final(self).variables@[v])@ == (
                VarView {
                    uses: old(self).variables@[v]@.uses + phi_sites(
                        old(self)@.blocks[b as int].phis,
                        b,
                        SsaVarId(v as usize),
                        old(self)@.blocks[b as int].phis.len(),
                    ),
                    ..old(self).variables@[v]@
                }),
    {
        let ghost phis = self@.blocks[b as int].phis;
        let n: usize = self.variables.len();
        let mut p: usize = 0;
        proof {
            assert forall|v: int| 0 <= v < n implies (#[trigger] self.variables@[v])@ == (VarView {
                uses: old(self).variables@[v]@.uses + phi_sites(phis, b, SsaVarId(v as usize), 0),
                ..old(self).variables@[v]@
            }) by {
                assert(self.variables@[v].uses@ + Seq::empty() =~= self.variables@[v].uses@);
            }
        }
        while p < self.blocks[b].phis.len()
            invariant
                b < self.blocks@.len(),
                p <= self.blocks@[b as int].phis@.len(),
                phis == self@.blocks[b as int].phis,
                n == self.variables@.len(),
                n == old(self).variables@.len(),
                self.num_args == old(self).num_args,
                self.num_locals == old(self).num_locals,
                self.blocks == old(self).blocks,
                self.handlers == old(self).handlers,
                forall|v: int|
                    0 <= v < n ==> (#[trigger] self.variables@[v])@ == (VarView {
                        uses: old(self).variables@[v]@.uses + phi_sites(
                            phis,
                            b,
                            SsaVarId(v as usize),
                            p as nat,
                        ),
                        ..old(self).variables@[v]@
                    }),
            decreases self.blocks@[b as int].phis@.len() - p,
        {
            let site: UseSite = UseSite { block: b, instruction: p, is_phi_operand: true };
            let ghost before = self.variables@;
            let ghost reads = phis[p as int].values();
            let mut k: usize = 0;
            proof {
                assert forall|v: int| 0 <= v < n implies (#[trigger] self.variables@[v])@ == (
                VarView {
                    uses: before[v]@.uses + read_sites(reads, SsaVarId(v as usize), site, 0),
                    ..before[v]@
                }) by {
                    assert(before[v].uses@ + Seq::empty() =~= before[v].uses@);
                }
            }
            while k < self.blocks[b].phis[p].operands.len()
                invariant
                    b < self.blocks@.len(),
                    p < self.blocks@[b as int].phis@.len(),
                    k <= self.blocks@[b as int].phis@[p as int].operands@.len(),
                    phis == self@.blocks[b as int].phis,
                    reads == phis[p as int].values(),
                    n == self.variables@.len(),
                    n == before.len(),
                    n == old(self).variables@.len(),
                    self.num_args == old(self).num_args,
                    self.num_locals == old(self).num_locals,
                    self.blocks == old(self).blocks,
                    self.handlers == old(self).handlers,
                    forall|v: int|
                        0 <= v < n ==> (#[trigger] self.variables@[v])@ == (VarView {
                            uses: before[v]@.uses + read_sites(
                                reads,
                                SsaVarId(v as usize),
                                site,
                                k as nat,
                            ),
                            ..before[v]@
                        }),
                decreases self.blocks@[b as int].phis@[p as int].operands@.len() - k,
            {
                let value: SsaVarId = self.blocks[b].phis[p].operands[k].value;
                assert(reads[k as int] == value);
                let ghost mid = self.variables@;
                self.record_use(value, site);
                k = k + 1;
                assert forall|v: int| 0 <= v < n implies (#[trigger] self.variables@[v])@ == (
                VarView {
                    uses: before[v]@.uses + read_sites(reads, SsaVarId(v as usize), site, k as nat),
                    ..before[v]@
                }) by {
                    assert(mid[v]@.uses == before[v]@.uses + read_sites(
                        reads,
                        SsaVarId(v as usize),
                        site,
                        (k - 1) as nat,
                    ));
                    assert(self.variables@[v].uses@ =~= before[v]@.uses + read_sites(
                        reads,
                        SsaVarId(v as usize),
                        site,
                        k as nat,
                    ));
                }
            }
            p = p + 1;
            assert forall|v: int| 0 <= v < n implies (#[trigger] self.variables@[v])@ == (VarView {
                uses: old(self).variables@[v]@.uses + phi_sites(
                    phis,
                    b,
                    SsaVarId(v as usize),
                    p as nat,
                ),
                ..old(self).variables@[v]@
            }) by {
                assert(before[v]@.uses == old(self).variables@[v]@.uses + phi_sites(
                    phis,
                    b,
                    SsaVarId(v as usize),
                    (p - 1) as nat,
                ));
                assert(self.variables@[v].uses@ =~= old(self).variables@[v]@.uses + phi_sites(
                    phis,
                    b,
                    SsaVarId(v as usize),
                    p as nat,
                ));
            }
        }
    }

    /// Records the uses by the instructions of one block.
    fn record_instr_uses(&mut self, b: usize)
        requires
            b < old(self).blocks@.len(),
        ensures
            final(self).num_args == old(self).num_args,
            final(self).num_locals == old(self).num_locals,
            final(self).blocks == old(self).blocks,
            final(self).handlers == old(self).handlers,
            final(self).variables@.len() == old(self).variables@.len(),
            forall|v: int|
                0 <= v < old(self).variables@.len() ==> (#[trigger] final(self).variables@[v])@ == (
                VarView {
                    uses: old(self).variables@[v]@.uses + instr_sites(
                        old(self)@.blocks[b as int].instrs,
                        b,
                        SsaVarId(v as usize),
                        old(self)@.blocks[b as int].instrs.len(),
                    ),
                    ..old(self).variables@[v]@
                }),
    {
        let ghost instrs = self@.blocks[b as int].instrs;
        let n: usize = self.variables.len();
        let mut i: usize = 0;
        proof {
            assert forall|v: int| 0 <= v < n implies (#[trigger] self.variables@[v])@ == (VarView {
                uses: old(self).variables@[v]@.uses + instr_sites(
                    instrs,
                    b,
                    SsaVarId(v as usize),
                    0,
                ),
                ..old(self).variables@[v]@
            }) by {
                assert(self.variables@[v].uses@ + Seq::empty() =~= self.variables@[v].uses@);
            }
        }
        while i < self.blocks[b].instrs.len()
            invariant
                b < self.blocks@.len(),
                i <= self.blocks@[b as int].instrs@.len(),
                instrs == self@.blocks[b as int].instrs,
                n == self.variables@.len(),
                n == old(self).variables@.len(),
                self.num_args == old(self).num_args,
                self.num_locals == old(self).num_locals,
                self.blocks == old(self).blocks,
                self.handlers == old(self).handlers,
                forall|v: int|
                    0 <= v < n ==> (#[trigger] self.variables@[v])@ == (VarView {
                        uses: old(self).variables@[v]@.uses + instr_sites(
                            instrs,
                            b,
                            SsaVarId(v as usize),
                            i as nat,
                        ),
                        ..old(self).variables@[v]@
                    }),
            decreases self.blocks@[b as int].instrs@.len() - i,
        {
            let site: UseSite = UseSite { block: b, instruction: i, is_phi_operand: false };
            let ghost before = self.variables@;
            let reads: Vec<SsaVarId> = self.blocks[b].instrs[i].op.uses();
            assert(reads@ == instrs[i as int].uses());
            let mut k: usize = 0;
            proof {
                assert forall|v: int| 0 <= v < n implies (#[trigger] self.variables@[v])@ == (
                VarView {
                    uses: before[v]@.uses + read_sites(reads@, SsaVarId(v as usize), site, 0),
                    ..before[v]@
                }) by {
                    assert(before[v].uses@ + Seq::empty() =~= before[v].uses@);
                }
            }
            while k < reads.len()
                invariant
                    k <= reads@.len(),
                    n == self.variables@.len(),
                    n == before.len(),
                    n == old(self).variables@.len(),
                    self.num_args == old(self).num_args,
                    self.num_locals == old(self).num_locals,
                    self.blocks == old(self).blocks,
                    self.handlers == old(self).handlers,
                    forall|v: int|
                        0 <= v < n ==> (#[trigger] self.variables@[v])@ == (VarView {
                            uses: before[v]@.uses + read_sites(
                                reads@,
                                SsaVarId(v as usize),
                                site,
                                k as nat,
                            ),
                            ..before[v]@
                        }),
                decreases reads@.len() - k,
            {
                let ghost mid = self.variables@;
                self.record_use(reads[k], site);
                k = k + 1;
                assert forall|v: int| 0 <= v < n implies (#[trigger] self.variables@[v])@ == (
                VarView {
                    uses: before[v]@.uses + read_sites(
                        reads@,
                        SsaVarId(v as usize),
                        site,
                        k as nat,
                    ),
                    ..before[v]@
                }) by {
                    assert(mid[v]@.uses == before[v]@.uses + read_sites(
                        reads@,
                        SsaVarId(v as usize),
                        site,
                        (k - 1) as nat,
                    ));
                    assert(self.variables@[v].uses@ =~= before[v]@.uses + read_sites(
                        reads@,
                        SsaVarId(v as usize),
                        site,
                        k as nat,
                    ));
                }
            }
            i = i + 1;
            assert forall|v: int| 0 <= v < n implies (#[trigger] self.variables@[v])@ == (VarView {
                uses: old(self).variables@[v]@.uses + instr_sites(
                    instrs,
                    b,
                    SsaVarId(v as usize),
                    i as nat,
                ),
                ..old(self).variables@[v]@
            }) by {
                assert(before[v]@.uses == old(self).variables@[v]@.uses + instr_sites(
                    instrs,
                    b,
                    SsaVarId(v as usize),
                    (i - 1) as nat,
                ));
                assert(self.variables@[v].uses@ =~= old(self).variables@[v]@.uses + instr_sites(
                    instrs,
                    b,
                    SsaVarId(v as usize),
                    i as nat,
                ));
            }
        }
    }
}

} // verus!
