//! Basic blocks.
use crate::ir::ops::{Op, OpView, SsaOp};
use crate::ir::phi::{PhiNode, PhiView};
use crate::target::Target;
use vstd::prelude::*;

verus! {

/// An instruction: an operation in its place in a block.
pub struct SsaInstruction<T: Target> {
    pub op: SsaOp<T>,
}

impl<T: Target> View for SsaInstruction<T> {
    type V = OpView<T>;

    open spec fn view(&self) -> OpView<T> {
        self.op@
    }
}

impl<T: Target> SsaInstruction<T> {
    /// Creates an instruction that stands for no instruction of the source program.
    #[must_use]
    pub fn synthetic(op: SsaOp<T>) -> (r: Self)
        ensures
            r@ == op@,
    {
        SsaInstruction { op }
    }

    /// Returns the operation.
    #[must_use]
    pub fn op(&self) -> (r: &SsaOp<T>)
        ensures
            r@ == self@,
            *r == self.op,
    {
        &self.op
    }

    /// Returns whether the operation ends a block.
    #[must_use]
    pub fn is_terminator(&self) -> (r: bool)
        ensures
            r == self@.ends_block(),
    {
        self.op.is_terminator()
    }

    /// Returns an equal instruction.
    #[must_use]
    pub fn duplicate(&self) -> (r: Self)
        ensures
            r@ == self@,
    {
        SsaInstruction { op: self.op.duplicate() }
    }
}

/// A basic block: phi nodes, then instructions.
pub struct SsaBlock<T: Target> {
    pub id: usize,
    pub phis: Vec<PhiNode>,
    pub instrs: Vec<SsaInstruction<T>>,
}

/// A basic block as a mathematical value.
#[verifier::ext_equal]
pub struct BlockView<T: Target> {
    pub id: usize,
    pub phis: Seq<PhiView>,
    pub instrs: Seq<OpView<T>>,
}

impl<T: Target> View for SsaBlock<T> {
    type V = BlockView<T>;

    open spec fn view(&self) -> BlockView<T> {
        BlockView {
            id: self.id,
            phis: self.phis@.map_values(|p: PhiNode| p@),
            instrs: self.instrs@.map_values(|i: SsaInstruction<T>| i@),
        }
    }
}

impl<T: Target> BlockView<T> {
    /// The operation that ends the block, if its last operation is one that can.
    pub open spec fn terminator(self) -> Option<OpView<T>> {
        if self.instrs.len() > 0 && self.instrs.last().ends_block() {
            Some(self.instrs.last())
        } else {
            None
        }
    }

    /// The blocks that control may continue at.
    pub open spec fn successors(self) -> Seq<usize> {
        match self.terminator() {
            Some(op) => op.successors(),
            None => Seq::empty(),
        }
    }

    /// The target of a block that holds an unconditional jump and nothing else.
    pub open spec fn trampoline(self) -> Option<usize> {
        if self.phis.len() == 0 && self.instrs.len() == 1 {
            match self.instrs[0] {
                Op::Jump { target } => Some(target),
                _ => None,
            }
        } else {
            None
        }
    }

    /// The block with the operation at `i` exchanged for `op`.
    pub open spec fn with_op(self, i: int, op: OpView<T>) -> BlockView<T> {
        BlockView { instrs: self.instrs.update(i, op), ..self }
    }

    /// The block with other instructions.
    pub open spec fn with_instrs(self, instrs: Seq<OpView<T>>) -> BlockView<T> {
        BlockView { instrs, ..self }
    }

    /// The block with other phi nodes.
    pub open spec fn with_phis(self, phis: Seq<PhiView>) -> BlockView<T> {
        BlockView { phis, ..self }
    }

    /// The block with every jump to `from` going to `to`.
    pub open spec fn redirected(self, from: usize, to: usize) -> BlockView<T> {
        self.with_instrs(self.instrs.map_values(|op: OpView<T>| op.redirected(from, to)))
    }

    /// The block with the phi operands from `from` coming from `to`.
    pub open spec fn moved(self, from: usize, to: usize) -> BlockView<T> {
        self.with_phis(self.phis.map_values(|p: PhiView| p.moved(from, to)))
    }
}

impl<T: Target> SsaBlock<T> {
    /// Creates an empty block.
    #[must_use]
    pub fn new(id: usize) -> (r: Self)
        ensures
            r@ == (BlockView::<T> { id, phis: Seq::empty(), instrs: Seq::empty() }),
    {
        let r = SsaBlock { id, phis: Vec::new(), instrs: Vec::new() };
        assert(r@.phis =~= Seq::empty());
        assert(r@.instrs =~= Seq::empty());
        r
    }

    /// Returns the number that identifies the block.
    #[must_use]
    pub fn id(&self) -> (r: usize)
        ensures
            r == self@.id,
    {
        self.id
    }

    /// Appends an instruction.
    pub fn add_instruction(&mut self, instruction: SsaInstruction<T>)
        ensures
            final(self)@ == old(self)@.with_instrs(old(self)@.instrs.push(instruction@)),
    {
        self.instrs.push(instruction);
        assert(self@.instrs =~= old(self)@.instrs.push(instruction@));
    }

    /// Appends a phi node.
    pub fn add_phi(&mut self, phi: PhiNode)
        ensures
            final(self)@ == old(self)@.with_phis(old(self)@.phis.push(phi@)),
    {
        self.phis.push(phi);
        assert(self@.phis =~= old(self)@.phis.push(phi@));
    }

    /// Returns the instructions.
    #[must_use]
    pub fn instructions(&self) -> (r: &Vec<SsaInstruction<T>>)
        ensures
            *r == self.instrs,
    {
        &self.instrs
    }

    /// Returns the phi nodes.
    #[must_use]
    pub fn phi_nodes(&self) -> (r: &Vec<PhiNode>)
        ensures
            *r == self.phis,
    {
        &self.phis
    }

    /// Returns the instruction at `index`, if there is one.
    #[must_use]
    pub fn instruction(&self, index: usize) -> (r: Option<&SsaInstruction<T>>)
        ensures
            r is Some <==> index < self@.instrs.len(),
            r matches Some(i) ==> i@ == self@.instrs[index as int],
    {
        if index < self.instrs.len() {
            Some(&self.instrs[index])
        } else {
            None
        }
    }

    /// Returns the operation that ends the block, if there is one.
    #[must_use]
    pub fn terminator_op(&self) -> (r: Option<&SsaOp<T>>)
        ensures
            r is Some <==> self@.terminator() is Some,
            r matches Some(op) ==> self@.terminator() == Some(op@),
    {
        let n: usize = self.instrs.len();
        if n == 0 {
            return None;
        }
        assert(self@.instrs.last() == self.instrs@[n - 1]@);
        if self.instrs[n - 1].is_terminator() {
            Some(self.instrs[n - 1].op())
        } else {
            None
        }
    }

    /// Returns the blocks that control may continue at.
    #[must_use]
    pub fn successors(&self) -> (r: Vec<usize>)
        ensures
            r@ == self@.successors(),
    {
        match self.terminator_op() {
            Some(op) => op.successors(),
            None => Vec::new(),
        }
    }

    /// Returns the target of a block that holds an unconditional jump and nothing else.
    #[must_use]
    pub fn is_trampoline(&self) -> (r: Option<usize>)
        ensures
            r == self@.trampoline(),
    {
        if self.phis.len() == 0 && self.instrs.len() == 1 {
            assert(self@.instrs[0] == self.instrs@[0]@);
            match &self.instrs[0].op {
                Op::Jump { target } => Some(*target),
                _ => None,
            }
        } else {
            None
        }
    }

    /// Exchanges the operation at `index` for `op`.
    pub fn set_op(&mut self, index: usize, op: SsaOp<T>)
        requires
            index < old(self)@.instrs.len(),
        ensures
            final(self)@ == old(self)@.with_op(index as int, op@),
    {
        self.instrs.set(index, SsaInstruction { op });
        assert(self@.instrs =~= old(self)@.instrs.update(index as int, op@));
    }

    /// Makes every jump to `from` go to `to`.
    pub fn redirect_target(&mut self, from: usize, to: usize)
        ensures
            final(self)@ == old(self)@.redirected(from, to),
    {
        let mut i: usize = 0;
        while i < self.instrs.len()
            invariant
                i <= self.instrs@.len(),
                self.instrs@.len() == old(self).instrs@.len(),
                self.id == old(self).id,
                self.phis == old(self).phis,
                forall|j: int|
                    0 <= j < i ==> (#[trigger] self.instrs@[j])@ == old(
                        self,
                    ).instrs@[j]@.redirected(from, to),
                forall|j: int|
                    i <= j < self.instrs@.len() ==> (#[trigger] self.instrs@[j]) == old(
                        self,
                    ).instrs@[j],
            decreases self.instrs@.len() - i,
        {
            self.instrs[i].op.redirect_target(from, to);
            i = i + 1;
        }
        assert(self@.instrs =~= old(self)@.redirected(from, to).instrs);
    }

    /// Makes the phi operands from `from` come from `to`.
    pub fn move_predecessor(&mut self, from: usize, to: usize)
        ensures
            final(self)@ == old(self)@.moved(from, to),
    {
        let mut i: usize = 0;
        while i < self.phis.len()
            invariant
                i <= self.phis@.len(),
                self.phis@.len() == old(self).phis@.len(),
                self.id == old(self).id,
                self.instrs == old(self).instrs,
                forall|j: int|
                    0 <= j < i ==> (#[trigger] self.phis@[j])@ == old(self).phis@[j]@.moved(
                        from,
                        to,
                    ),
                forall|j: int|
                    i <= j < self.phis@.len() ==> (#[trigger] self.phis@[j]) == old(self).phis@[j],
            decreases self.phis@.len() - i,
        {
            self.phis[i].move_predecessor(from, to);
            i = i + 1;
        }
        assert(self@.phis =~= old(self)@.moved(from, to).phis);
    }

    /// Removes all instructions.
    pub fn clear_instructions(&mut self)
        ensures
            final(self)@ == old(self)@.with_instrs(Seq::empty()),
    {
        self.instrs = Vec::new();
        assert(self@.instrs =~= Seq::empty());
    }

    /// Removes all phi nodes.
    pub fn clear_phis(&mut self)
        ensures
            final(self)@ == old(self)@.with_phis(Seq::empty()),
    {
        self.phis = Vec::new();
        assert(self@.phis =~= Seq::empty());
    }

    /// Returns an equal block.
    #[must_use]
    pub fn duplicate(&self) -> (r: Self)
        ensures
            r@ == self@,
    {
        let mut phis: Vec<PhiNode> = Vec::new();
        let mut i: usize = 0;
        while i < self.phis.len()
            invariant
                i <= self.phis@.len(),
                phis@.len() == i,
                forall|j: int| 0 <= j < i ==> (#[trigger] phis@[j])@ == self.phis@[j]@,
            decreases self.phis@.len() - i,
        {
            phis.push(self.phis[i].duplicate());
            i = i + 1;
        }
        let mut instrs: Vec<SsaInstruction<T>> = Vec::new();
        let mut i: usize = 0;
        while i < self.instrs.len()
            invariant
                i <= self.instrs@.len(),
                instrs@.len() == i,
                forall|j: int| 0 <= j < i ==> (#[trigger] instrs@[j])@ == self.instrs@[j]@,
            decreases self.instrs@.len() - i,
        {
            instrs.push(self.instrs[i].duplicate());
            i = i + 1;
        }
        let r = SsaBlock { id: self.id, phis, instrs };
        assert(r@.phis =~= self@.phis);
        assert(r@.instrs =~= self@.instrs);
        r
    }
}

} // verus!
