//! Shape of the control flow graph.
use crate::analysis::closure;
use crate::ir::function::{SsaFunction, SsaView};
use crate::ir::ops;
use crate::ir::ops::Op;
use crate::seqs;
use crate::target::Target;
use std::collections::BTreeMap;
use vstd::prelude::*;

verus! {

impl<T: Target> SsaView<T> {
    /// The blocks that only jump elsewhere, with where they jump to.
    pub open spec fn trampolines(self, skip_entry: bool) -> Map<usize, usize> {
        Map::new(
            |b: usize|
                b < self.blocks.len() && (skip_entry ==> b != 0)
                    && self.blocks[b as int].trampoline() is Some,
            |b: usize| self.blocks[b as int].trampoline()->0,
        )
    }

    /// Block `a`, where control can go from there to `b`.
    pub open spec fn enters(self, b: usize) -> spec_fn(int) -> Seq<usize> {
        |a: int|
            if self.blocks[a].successors().contains(b) {
                seq![a as usize]
            } else {
                Seq::empty()
            }
    }

    /// The edges that leave block `a`.
    pub open spec fn edges_from(self) -> spec_fn(int) -> Seq<(usize, usize)> {
        |a: int| self.blocks[a].successors().map_values(|b: usize| (a as usize, b))
    }

    /// The edges of the control flow graph.
    pub open spec fn edges(self) -> Seq<(usize, usize)> {
        seqs::flat(self.edges_from(), self.blocks.len())
    }

    /// Where the handler `h` and its filter begin.
    pub open spec fn handler_starts(self) -> spec_fn(int) -> Seq<usize> {
        |h: int|
            ops::option_seq(self.handlers[h].handler_start_block) + ops::option_seq(
                self.handlers[h].filter_start_block,
            )
    }

    /// Block `b`, where its first operation shows that it handles an exception.
    pub open spec fn handler_by_shape(self) -> spec_fn(int) -> Seq<usize> {
        |b: int|
            if self.blocks[b].instrs.len() > 0 && (self.blocks[b].instrs[0] is EndFinally
                || self.blocks[b].instrs[0] is Rethrow) {
                seq![b as usize]
            } else {
                Seq::empty()
            }
    }

    /// Where control can begin: at the entry, at a handler or a filter, and at a block whose first
    /// operation shows that it handles an exception.
    pub open spec fn code_roots(self) -> Seq<usize> {
        seq![0usize] + seqs::flat(self.handler_starts(), self.handlers.len()) + seqs::flat(
            self.handler_by_shape(),
            self.blocks.len(),
        )
    }

    /// For each block, whether control can reach it.
    pub open spec fn reachable(self) -> Seq<bool> {
        Seq::new(
            self.blocks.len(),
            |b: int|
                closure::reached(self.blocks.len(), self.code_roots(), self.edges(), b as usize),
        )
    }

    /// The blocks from which control can go to `b`, in order.
    pub open spec fn predecessors(self, b: usize) -> Seq<usize> {
        seqs::flat(self.enters(b), self.blocks.len())
    }
}

/// Returns whether a list holds a number.
#[must_use]
pub fn holds(list: &Vec<usize>, x: usize) -> (r: bool)
    ensures
        r == list@.contains(x),
{
    let mut i: usize = 0;
    while i < list.len()
        invariant
            i <= list@.len(),
            forall|j: int| 0 <= j < i ==> list@[j] != x,
        decreases list@.len() - i,
    {
        if list[i] == x {
            assert(list@[i as int] == x);
            return true;
        }
        i = i + 1;
    }
    false
}

impl<T: Target> SsaFunction<T> {
    /// Returns the blocks that only jump elsewhere, with where they jump to.
    #[must_use]
    pub fn find_trampoline_blocks(&self, skip_entry: bool) -> (r: BTreeMap<usize, usize>)
        ensures
            r@ == self@.trampolines(skip_entry),
    {
        broadcast use vstd::std_specs::btree::group_btree_axioms;

        let mut r: BTreeMap<usize, usize> = BTreeMap::new();
        let ghost all = self@.trampolines(skip_entry);
        let mut b: usize = 0;
        while b < self.blocks.len()
            invariant
                b <= self.blocks@.len(),
                all == self@.trampolines(skip_entry),
                r@ =~= Map::new(|k: usize| k < b && all.contains_key(k), |k: usize| all[k]),
            decreases self.blocks@.len() - b,
        {
            assert(self.blocks@[b as int]@ == self@.blocks[b as int]);
            if !(skip_entry && b == 0) {
                if let Some(target) = self.blocks[b].is_trampoline() {
                    r.insert(b, target);
                }
            }
            b = b + 1;
        }
        assert(r@ =~= all);
        r
    }

    /// Returns the blocks from which control can go to `target`.
    #[must_use]
    pub fn block_predecessors(&self, target: usize) -> (r: Vec<usize>)
        ensures
            r@ == self@.predecessors(target),
    {
        let mut r: Vec<usize> = Vec::new();
        let mut a: usize = 0;
        while a < self.blocks.len()
            invariant
                a <= self.blocks@.len(),
                r@ == seqs::flat(self@.enters(target), a as nat),
            decreases self.blocks@.len() - a,
        {
            assert(self.blocks@[a as int]@ == self@.blocks[a as int]);
            let ghost before = r@;
            let successors: Vec<usize> = self.blocks[a].successors();
            if holds(&successors, target) {
                r.push(a);
            }
            assert(r@ =~= before + (self@.enters(target))(a as int));
            a = a + 1;
        }
        r
    }

    /// Returns the edges of the control flow graph.
    #[must_use]
    pub fn control_edges(&self) -> (r: Vec<(usize, usize)>)
        ensures
            r@ == self@.edges(),
    {
        let mut r: Vec<(usize, usize)> = Vec::new();
        let ghost f = self@.edges_from();
        let mut a: usize = 0;
        while a < self.blocks.len()
            invariant
                a <= self.blocks@.len(),
                f == self@.edges_from(),
                r@ == seqs::flat(f, a as nat),
            decreases self.blocks@.len() - a,
        {
            assert(self.blocks@[a as int]@ == self@.blocks[a as int]);
            let successors: Vec<usize> = self.blocks[a].successors();
            let mut k: usize = 0;
            while k < successors.len()
                invariant
                    k <= successors@.len(),
                    a < self.blocks@.len(),
                    f == self@.edges_from(),
                    f(a as int) == successors@.map_values(|b: usize| (a, b)),
                    r@ =~= seqs::flat(f, a as nat) + f(a as int).take(k as int),
                decreases successors@.len() - k,
            {
                r.push((a, successors[k]));
                k = k + 1;
            }
            assert(f(a as int).take(k as int) =~= f(a as int));
            a = a + 1;
        }
        r
    }

    /// Returns where control can begin.
    fn find_code_roots(&self) -> (r: Vec<usize>)
        ensures
            r@ == self@.code_roots(),
    {
        let mut r: Vec<usize> = Vec::new();
        r.push(0);
        let ghost starts = self@.handler_starts();
        let ghost shapes = self@.handler_by_shape();
        assert(r@ =~= seq![0usize] + seqs::flat(starts, 0));
        let mut h: usize = 0;
        while h < self.handlers.len()
            invariant
                h <= self.handlers@.len(),
                starts == self@.handler_starts(),
                r@ =~= seq![0usize] + seqs::flat(starts, h as nat),
            decreases self.handlers@.len() - h,
        {
            let ghost before = r@;
            if let Some(b) = self.handlers[h].handler_start_block {
                r.push(b);
            }
            if let Some(b) = self.handlers[h].filter_start_block {
                r.push(b);
            }
            assert(r@ =~= before + starts(h as int));
            h = h + 1;
        }
        let ghost first = r@;
        assert(r@ =~= first + seqs::flat(shapes, 0));
        let mut b: usize = 0;
        while b < self.blocks.len()
            invariant
                b <= self.blocks@.len(),
                shapes == self@.handler_by_shape(),
                r@ =~= first + seqs::flat(shapes, b as nat),
            decreases self.blocks@.len() - b,
        {
            assert(self.blocks@[b as int]@ == self@.blocks[b as int]);
            let ghost before = r@;
            if self.blocks[b].instrs.len() > 0 {
                assert(self.blocks@[b as int].instrs@[0]@ == self@.blocks[b as int].instrs[0]);
                let handles: bool = match &self.blocks[b].instrs[0].op {
                    Op::EndFinally => true,
                    Op::Rethrow => true,
                    _ => false,
                };
                if handles {
                    r.push(b);
                }
            }
            assert(r@ =~= before + shapes(b as int));
            b = b + 1;
        }
        r
    }

    /// Returns, for each block, whether control can reach it.
    #[must_use]
    pub fn find_reachable_blocks(&self) -> (r: Vec<bool>)
        ensures
            r@ == self@.reachable(),
    {
        let roots: Vec<usize> = self.find_code_roots();
        let edges: Vec<(usize, usize)> = self.control_edges();
        let r: Vec<bool> = closure::find_reached(self.blocks.len(), &roots, &edges);
        assert(r@ =~= self@.reachable());
        r
    }
}

} // verus!
