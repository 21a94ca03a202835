//! What passes report about the changes they make.
use crate::target::Target;
use vstd::prelude::*;

verus! {

/// Kind of a reported change.
#[derive(Debug, Clone, Copy, PartialEq, Eq, Hash, Structural)]
pub enum EventKind {
    /// A branch became an unconditional one, or goes elsewhere.
    BranchSimplified,
    /// A block was emptied.
    BlockRemoved,
    /// Control flow was rearranged.
    ControlFlowRestructured,
    /// An instruction was removed.
    InstructionRemoved,
    /// A copy was propagated to its uses.
    CopyPropagated,
    /// A phi node was removed or replaced.
    PhiSimplified,
    /// A method was found to be unreachable.
    MethodMarkedDead,
    /// An operation was replaced by its value, or by a simpler operation.
    ConstantFolded,
    /// A condition that always has one value was removed.
    OpaquePredicateRemoved,
    /// An operation was replaced by a cheaper one.
    StrengthReduced,
}

/// A reported change.
pub struct Event<T: Target> {
    pub kind: EventKind,
    pub method: Option<T::MethodRef>,
    pub location: Option<usize>,
    pub message: String,
}

/// A reported change as a mathematical value.
#[verifier::ext_equal]
pub struct EventView<T: Target> {
    pub kind: EventKind,
    pub method: Option<T::MethodRef>,
    pub location: Option<usize>,
    pub message: Seq<char>,
}

impl<T: Target> View for Event<T> {
    type V = EventView<T>;

    open spec fn view(&self) -> EventView<T> {
        EventView {
            kind: self.kind,
            method: self.method,
            location: self.location,
            message: self.message@,
        }
    }
}

impl<T: Target> EventView<T> {
    /// A change of `method` at `location`.
    pub open spec fn at(
        kind: EventKind,
        method: T::MethodRef,
        location: int,
        message: Seq<char>,
    ) -> EventView<T> {
        EventView { kind, method: Some(method), location: Some(location as usize), message }
    }

    /// A change of `method` as a whole.
    pub open spec fn of(
        kind: EventKind,
        method: T::MethodRef,
        message: Seq<char>,
    ) -> EventView<T> {
        EventView { kind, method: Some(method), location: None, message }
    }
}

/// The changes reported so far, in order.
pub struct EventLog<T: Target> {
    pub events: Vec<Event<T>>,
}

impl<T: Target> View for EventLog<T> {
    type V = Seq<EventView<T>>;

    open spec fn view(&self) -> Seq<EventView<T>> {
        self.events@.map_values(|e: Event<T>| e@)
    }
}

/// How many of the first `n` events are of kind `kind`.
pub open spec fn kind_count<T: Target>(log: Seq<EventView<T>>, kind: EventKind, n: nat) -> nat
    decreases n,
{
    if n == 0 {
        0
    } else {
        kind_count(log, kind, (n - 1) as nat) + (if log[n - 1].kind == kind {
            1nat
        } else {
            0nat
        })
    }
}

impl<T: Target> EventLog<T> {
    /// Creates an empty log.
    #[must_use]
    pub fn new() -> (r: Self)
        ensures
            r@ == Seq::<EventView<T>>::empty(),
    {
        let r = EventLog { events: Vec::new() };
        assert(r@ =~= Seq::empty());
        r
    }

    /// Appends an event.
    pub fn push(&mut self, event: Event<T>)
        ensures
            final(self)@ == old(self)@.push(event@),
    {
        self.events.push(event);
        assert(self@ =~= old(self)@.push(event@));
    }

    /// Appends a change of `method` at `location`.
    pub fn record_at(
        &mut self,
        kind: EventKind,
        method: &T::MethodRef,
        location: usize,
        message: String,
    )
        ensures
            final(self)@ == old(self)@.push(
                EventView::at(kind, *method, location as int, message@),
            ),
    {
        self.push(Event { kind, method: Some(*method), location: Some(location), message });
    }

    /// Appends a change of `method` as a whole.
    pub fn record(&mut self, kind: EventKind, method: &T::MethodRef, message: String)
        ensures
            final(self)@ == old(self)@.push(EventView::of(kind, *method, message@)),
    {
        self.push(Event { kind, method: Some(*method), location: None, message });
    }

    /// Appends the events of another log.
    pub fn append_all(&mut self, other: EventLog<T>)
        ensures
            final(self)@ == old(self)@ + other@,
    {
        let mut rest: Vec<Event<T>> = other.events;
        self.events.append(&mut rest);
        assert(self@ =~= old(self)@ + other@);
    }

    /// Returns the number of events.
    #[must_use]
    pub fn len(&self) -> (r: usize)
        ensures
            r == self@.len(),
    {
        self.events.len()
    }

    /// Returns whether there is no event.
    #[must_use]
    pub fn is_empty(&self) -> (r: bool)
        ensures
            r == (self@.len() == 0),
    {
        self.events.len() == 0
    }

    /// Returns how many events are of kind `kind`.
    #[must_use]
    pub fn count_kind(&self, kind: EventKind) -> (r: usize)
        ensures
            r == kind_count(self@, kind, self@.len()),
    {
        let mut n: usize = 0;
        let mut i: usize = 0;
        while i < self.events.len()
            invariant
                i <= self.events@.len(),
                n <= i,
                n == kind_count(self@, kind, i as nat),
            decreases self.events@.len() - i,
        {
            assert(self@[i as int] == self.events@[i as int]@);
            if self.events[i].kind == kind {
                n = n + 1;
            }
            i = i + 1;
        }
        n
    }

    /// Returns whether some event is of kind `kind`.
    #[must_use]
    pub fn has(&self, kind: EventKind) -> (r: bool)
        ensures
            r == (exists|i: int| 0 <= i < self@.len() && (#[trigger] self@[i]).kind == kind),
    {
        let mut i: usize = 0;
        while i < self.events.len()
            invariant
                i <= self.events@.len(),
                forall|j: int| 0 <= j < i ==> (#[trigger] self@[j]).kind != kind,
            decreases self.events@.len() - i,
        {
            assert(self@[i as int] == self.events@[i as int]@);
            if self.events[i].kind == kind {
                return true;
            }
            i = i + 1;
        }
        false
    }
}

} // verus!
