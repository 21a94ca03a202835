//! The program around the functions: which methods there are and which call which.
use crate::seqs;
use crate::target::Target;
use vstd::prelude::*;

verus! {

/// The methods of a program, each known by its position.
#[verifier::ext_equal]
pub struct CallView<T: Target> {
    /// The methods.
    pub methods: Seq<T::MethodRef>,
    /// The positions of the methods at which the program can be entered.
    pub entries: Seq<usize>,
    /// For each method, the positions of the methods that it can call.
    pub callees: Seq<Seq<usize>>,
    /// For each method, whether it is marked as dead.
    pub dead: Seq<bool>,
    /// The positions of methods in the order in which they are worked on, callees before callers
    /// where the program can tell; nothing where it has no order to offer.
    pub order: Seq<usize>,
}

impl<T: Target> CallView<T> {
    /// Every method has callees and a mark, and the order names each method at most once.
    pub open spec fn well_formed(self) -> bool {
        &&& self.callees.len() == self.methods.len()
        &&& self.dead.len() == self.methods.len()
        &&& self.order.no_duplicates()
        &&& forall|k: int| 0 <= k < self.order.len() ==> #[trigger] self.order[k] < self.methods.len()
    }

    /// The calls that method `i` can make.
    pub open spec fn calls_from(self) -> spec_fn(int) -> Seq<(usize, usize)> {
        |i: int| self.callees[i].map_values(|c: usize| (i as usize, c))
    }

    /// The calls that the methods can make.
    pub open spec fn calls(self) -> Seq<(usize, usize)> {
        seqs::flat(self.calls_from(), self.methods.len())
    }
}

/// A program whose methods are known by their positions.
pub trait World<T: Target>: Sync {
    /// The program.
    spec fn program(&self) -> CallView<T>;

    /// Returns the number of methods.
    fn method_count(&self) -> (r: usize)
        ensures
            r == self.program().methods.len(),
            self.program().well_formed(),
    ;

    /// Returns the method at `index`.
    fn method(&self, index: usize) -> (r: T::MethodRef)
        requires
            index < self.program().methods.len(),
        ensures
            r == self.program().methods[index as int],
    ;

    /// Returns the positions of the methods at which the program can be entered.
    fn entry_points(&self) -> (r: Vec<usize>)
        ensures
            r@ == self.program().entries,
    ;

    /// Returns the positions of the methods that the one at `index` can call.
    fn callees(&self, index: usize) -> (r: Vec<usize>)
        requires
            index < self.program().methods.len(),
        ensures
            r@ == self.program().callees[index as int],
    ;

    /// Returns the positions of methods in the order in which they are worked on.
    fn methods_reverse_topological(&self) -> (r: Vec<usize>)
        ensures
            r@ == self.program().order,
    ;

    /// Returns whether the method at `index` is marked as dead.
    fn is_dead_at(&self, index: usize) -> (r: bool)
        requires
            index < self.program().methods.len(),
        ensures
            r == self.program().dead[index as int],
    ;

    /// Marks the method at `index` as dead.
    fn mark_dead_at(&mut self, index: usize)
        requires
            index < old(self).program().methods.len(),
        ensures
            final(self).program() == (CallView {
                dead: old(self).program().dead.update(index as int, true),
                ..old(self).program()
            }),
    ;
}

} // verus!
