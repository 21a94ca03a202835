//! What a pass leaves behind.
use crate::events::EventView;
use crate::ir::function::SsaView;
use crate::target::Target;
use vstd::prelude::*;

verus! {

/// What a run of a pass leaves behind: the function, the reported events, and whether the run
/// counts as a change.
pub struct Outcome<T: Target> {
    pub ssa: SsaView<T>,
    pub events: Seq<EventView<T>>,
    pub changed: bool,
}

impl<T: Target> SsaView<T> {
    /// Nothing happens.
    pub open spec fn untouched(self) -> Outcome<T> {
        Outcome { ssa: self, events: Seq::empty(), changed: false }
    }
}

} // verus!
