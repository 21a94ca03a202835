//! Phi nodes.
use crate::ir::variable::{SsaVarId, VariableOrigin};
use vstd::prelude::*;

verus! {

/// The value that a phi node takes when control comes from one predecessor.
#[derive(Debug, Clone, Copy, PartialEq, Eq, Hash, Structural)]
pub struct PhiOperand {
    pub value: SsaVarId,
    pub predecessor: usize,
}

impl PhiOperand {
    /// Takes `value` when control comes from `predecessor`.
    #[must_use]
    pub fn new(value: SsaVarId, predecessor: usize) -> (r: Self)
        ensures
            r == (PhiOperand { value, predecessor }),
    {
        PhiOperand { value, predecessor }
    }

    /// Returns the value taken.
    #[must_use]
    pub fn value(&self) -> (r: SsaVarId)
        ensures
            r == self.value,
    {
        self.value
    }

    /// Returns the predecessor that the value comes from.
    #[must_use]
    pub fn predecessor(&self) -> (r: usize)
        ensures
            r == self.predecessor,
    {
        self.predecessor
    }
}

/// Merges one variable per predecessor into one result.
pub struct PhiNode {
    pub result: SsaVarId,
    pub origin: VariableOrigin,
    pub operands: Vec<PhiOperand>,
}

/// A phi node as a mathematical value.
#[verifier::ext_equal]
pub struct PhiView {
    pub result: SsaVarId,
    pub origin: VariableOrigin,
    pub operands: Seq<PhiOperand>,
}

impl View for PhiNode {
    type V = PhiView;

    open spec fn view(&self) -> PhiView {
        PhiView { result: self.result, origin: self.origin, operands: self.operands@ }
    }
}

impl PhiView {
    /// The variables read, in order.
    pub open spec fn values(self) -> Seq<SsaVarId> {
        self.operands.map_values(|o: PhiOperand| o.value)
    }

    /// Some operand comes from `pred`.
    pub open spec fn has_predecessor(self, pred: usize) -> bool {
        exists|i: int| 0 <= i < self.operands.len() && #[trigger] self.operands[i].predecessor
            == pred
    }

    /// The node with every operand that comes from `from` coming from `to` in its place.
    pub open spec fn moved(self, from: usize, to: usize) -> PhiView {
        PhiView {
            operands: self.operands.map_values(
                |o: PhiOperand|
                    if o.predecessor == from {
                        PhiOperand { value: o.value, predecessor: to }
                    } else {
                        o
                    },
            ),
            ..self
        }
    }

    /// The node with every read of `old` reading `new` in its place.
    pub open spec fn reading(self, old: SsaVarId, new: SsaVarId) -> PhiView {
        PhiView {
            operands: self.operands.map_values(
                |o: PhiOperand|
                    if o.value == old {
                        PhiOperand { value: new, predecessor: o.predecessor }
                    } else {
                        o
                    },
            ),
            ..self
        }
    }
}

impl PhiNode {
    /// Creates a phi node without operands.
    #[must_use]
    pub fn new(result: SsaVarId, origin: VariableOrigin) -> (r: Self)
        ensures
            r@ == (PhiView { result, origin, operands: Seq::empty() }),
    {
        let r = PhiNode { result, origin, operands: Vec::new() };
        assert(r@.operands =~= Seq::empty());
        r
    }

    /// Appends an operand.
    pub fn add_operand(&mut self, operand: PhiOperand)
        ensures
            final(self)@ == (PhiView {
                operands: old(self)@.operands.push(operand),
                ..old(self)@
            }),
    {
        self.operands.push(operand);
    }

    /// Returns the operands.
    #[must_use]
    pub fn operands(&self) -> (r: &Vec<PhiOperand>)
        ensures
            r@ == self@.operands,
    {
        &self.operands
    }

    /// Returns the variable that the node defines.
    #[must_use]
    pub fn result(&self) -> (r: SsaVarId)
        ensures
            r == self@.result,
    {
        self.result
    }

    /// Returns where the merged value comes from.
    #[must_use]
    pub fn origin(&self) -> (r: VariableOrigin)
        ensures
            r == self@.origin,
    {
        self.origin
    }

    /// Returns whether some operand comes from `pred`.
    #[must_use]
    pub fn has_operand_from(&self, pred: usize) -> (r: bool)
        ensures
            r == self@.has_predecessor(pred),
    {
        let mut i: usize = 0;
        while i < self.operands.len()
            invariant
                i <= self.operands@.len(),
                forall|j: int| 0 <= j < i ==> (#[trigger] self@.operands[j]).predecessor != pred,
            decreases self.operands@.len() - i,
        {
            if self.operands[i].predecessor == pred {
                assert(self@.operands[i as int].predecessor == pred);
                return true;
            }
            i = i + 1;
        }
        false
    }

    /// Makes every operand that comes from `from` come from `to`.
    pub fn move_predecessor(&mut self, from: usize, to: usize)
        ensures
            final(self)@ == old(self)@.moved(from, to),
    {
        let mut i: usize = 0;
        let ghost target = old(self)@.moved(from, to).operands;
        while i < self.operands.len()
            invariant
                i <= self.operands@.len(),
                self.result == old(self).result,
                self.origin == old(self).origin,
                self.operands@.len() == old(self).operands@.len(),
                target == old(self)@.moved(from, to).operands,
                forall|j: int| 0 <= j < i ==> self.operands@[j] == #[trigger] target[j],
                forall|j: int|
                    i <= j < self.operands@.len() ==> self.operands@[j] == #[trigger] old(
                        self,
                    ).operands@[j],
            decreases self.operands@.len() - i,
        {
            let operand: PhiOperand = self.operands[i];
            assert(operand == old(self).operands@[i as int]);
            assert(target[i as int] == (if operand.predecessor == from {
                PhiOperand { value: operand.value, predecessor: to }
            } else {
                operand
            }));
            if operand.predecessor == from {
                self.operands.set(i, PhiOperand { value: operand.value, predecessor: to });
            }
            i = i + 1;
        }
        assert(self@.operands =~= target);
    }

    /// Makes every read of `old_var` read `new_var`.
    pub fn replace_uses(&mut self, old_var: SsaVarId, new_var: SsaVarId)
        ensures
            final(self)@ == old(self)@.reading(old_var, new_var),
    {
        let mut i: usize = 0;
        let ghost target = old(self)@.reading(old_var, new_var).operands;
        while i < self.operands.len()
            invariant
                i <= self.operands@.len(),
                self.result == old(self).result,
                self.origin == old(self).origin,
                self.operands@.len() == old(self).operands@.len(),
                target == old(self)@.reading(old_var, new_var).operands,
                forall|j: int| 0 <= j < i ==> self.operands@[j] == #[trigger] target[j],
                forall|j: int|
                    i <= j < self.operands@.len() ==> self.operands@[j] == #[trigger] old(
                        self,
                    ).operands@[j],
            decreases self.operands@.len() - i,
        {
            let operand: PhiOperand = self.operands[i];
            assert(operand == old(self).operands@[i as int]);
            assert(target[i as int] == (if operand.value == old_var {
                PhiOperand { value: new_var, predecessor: operand.predecessor }
            } else {
                operand
            }));
            if operand.value == old_var {
                self.operands.set(
                    i,
                    PhiOperand { value: new_var, predecessor: operand.predecessor },
                );
            }
            i = i + 1;
        }
        assert(self@.operands =~= target);
    }

    /// Returns an equal phi node.
    #[must_use]
    pub fn duplicate(&self) -> (r: Self)
        ensures
            r@ == self@,
    {
        let mut operands: Vec<PhiOperand> = Vec::new();
        let mut i: usize = 0;
        while i < self.operands.len()
            invariant
                i <= self.operands@.len(),
                operands@ == self.operands@.take(i as int),
            decreases self.operands@.len() - i,
        {
            operands.push(self.operands[i]);
            i = i + 1;
        }
        assert(operands@ =~= self.operands@);
        PhiNode { result: self.result, origin: self.origin, operands }
    }
}

} // verus!
