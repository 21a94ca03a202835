//! What a pass is to the pipeline.
use crate::events::{EventLog, EventView};
use crate::ir::function::{SsaFunction, SsaView};
use crate::pointer::PointerSize;
use crate::target::Target;
use crate::world::{CallView, World};
use vstd::prelude::*;

verus! {

/// How far the changes of a pass reach; it decides how much is repaired after the pass.
#[derive(Debug, Clone, Copy, PartialEq, Eq, PartialOrd, Ord, Structural)]
pub enum ModificationScope {
    /// Only reads of variables change.
    UsesOnly,
    /// Instructions change, but not the control flow.
    InstructionsOnly,
    /// The control flow may change.
    CfgModifying,
}

/// The program around the functions, with the pointer width of its runtime.
pub trait SsaPassHost<T: Target>: World<T> {
    /// Returns the pointer width, of eight bytes unless the runtime has another.
    fn ptr_size(&self) -> (r: PointerSize)
        default_ensures
            r == PointerSize::Bit64,
    {
        PointerSize::Bit64
    }
}

/// The host reports this pointer width.
pub open spec fn has_width<T: Target, H: SsaPassHost<T>>(host: H, width: PointerSize) -> bool {
    call_ensures(H::ptr_size, (&host,), width)
}

/// What a pass declares of itself.
pub struct PassProfile<T: Target> {
    /// Short name, different for every pass.
    pub name: &'static str,
    /// What the pass does, for a reader.
    pub description: &'static str,
    /// How far its changes reach.
    pub scope: ModificationScope,
    /// Whether it works on the whole program at once.
    pub is_global: bool,
    /// Whether it repairs the function itself.
    pub repairs_ssa: bool,
    /// The milestones that it reaches.
    pub provides: Vec<T::Capability>,
    /// The milestones that it relies on.
    pub needs: Vec<T::Capability>,
    /// Whether it looks at the functions of other methods.
    pub reads_peer_ssa: bool,
    /// Whether it runs on every method, not only on those that may have changed.
    pub requires_full_scan: bool,
    /// The layer in which it runs where no milestone says otherwise.
    pub fallback_layer: usize,
}

/// What a pass declares of itself, as a mathematical value.
#[verifier::ext_equal]
pub struct ProfileView<T: Target> {
    pub name: Seq<char>,
    pub description: Seq<char>,
    pub scope: ModificationScope,
    pub is_global: bool,
    pub repairs_ssa: bool,
    pub provides: Seq<T::Capability>,
    pub needs: Seq<T::Capability>,
    pub reads_peer_ssa: bool,
    pub requires_full_scan: bool,
    pub fallback_layer: usize,
}

impl<T: Target> View for PassProfile<T> {
    type V = ProfileView<T>;

    open spec fn view(&self) -> ProfileView<T> {
        ProfileView {
            name: self.name@,
            description: self.description@,
            scope: self.scope,
            is_global: self.is_global,
            repairs_ssa: self.repairs_ssa,
            provides: self.provides@,
            needs: self.needs@,
            reads_peer_ssa: self.reads_peer_ssa,
            requires_full_scan: self.requires_full_scan,
            fallback_layer: self.fallback_layer,
        }
    }
}

impl<T: Target> ProfileView<T> {
    /// What a pass with this name declares unless it says otherwise.
    pub open spec fn plain(name: Seq<char>) -> ProfileView<T> {
        ProfileView {
            name,
            description: "No description available"@,
            scope: ModificationScope::CfgModifying,
            is_global: false,
            repairs_ssa: false,
            provides: Seq::empty(),
            needs: Seq::empty(),
            reads_peer_ssa: false,
            requires_full_scan: false,
            fallback_layer: 0,
        }
    }
}

impl<T: Target> PassProfile<T> {
    /// Returns what a pass with this name declares unless it says otherwise.
    #[must_use]
    pub fn new(name: &'static str) -> (r: Self)
        ensures
            r@ == ProfileView::<T>::plain(name@),
    {
        let r = PassProfile {
            name,
            description: "No description available",
            scope: ModificationScope::CfgModifying,
            is_global: false,
            repairs_ssa: false,
            provides: Vec::new(),
            needs: Vec::new(),
            reads_peer_ssa: false,
            requires_full_scan: false,
            fallback_layer: 0,
        };
        assert(r@.provides =~= Seq::empty());
        assert(r@.needs =~= Seq::empty());
        r
    }
}

/// What a pass sees beside the function that it works on.
pub struct PassContext<'a, T: Target, W: World<T>> {
    /// The program around the function.
    pub host: &'a W,
    /// The functions of all methods as they were before the pass, each at the position of its
    /// method, for a pass that declares that it looks at them; else none.
    pub peers: &'a Vec<Option<SsaFunction<T>>>,
    /// The pointer width of the target's runtime.
    pub ptr_size: PointerSize,
}

/// What a pass sees beside the function that it works on, as a mathematical value.
#[verifier::ext_equal]
pub struct Surroundings<T: Target> {
    pub program: CallView<T>,
    pub peers: Seq<Option<SsaView<T>>>,
    pub ptr_size: PointerSize,
}

impl<'a, T: Target, W: World<T>> View for PassContext<'a, T, W> {
    type V = Surroundings<T>;

    open spec fn view(&self) -> Surroundings<T> {
        Surroundings {
            program: self.host.program(),
            peers: body_views(self.peers@),
            ptr_size: self.ptr_size,
        }
    }
}

/// A function as a mathematical value, where there is one.
pub open spec fn body_view<T: Target>(body: Option<SsaFunction<T>>) -> Option<SsaView<T>> {
    match body {
        Some(ssa) => Some(ssa@),
        None => None,
    }
}

/// Functions as mathematical values.
pub open spec fn body_views<T: Target>(bodies: Seq<Option<SsaFunction<T>>>) -> Seq<
    Option<SsaView<T>>,
> {
    bodies.map_values(|body: Option<SsaFunction<T>>| body_view(body))
}

/// What a pass makes of one method: the function, the reported events, and whether it changed
/// something or why it failed.
pub struct Attempt<T: Target> {
    pub ssa: SsaView<T>,
    pub events: Seq<EventView<T>>,
    pub result: Result<bool, Seq<char>>,
}

/// What a pass makes of the whole program: the dead methods, the reported events, and whether it
/// changed something or why it failed.
pub struct WorldAttempt<T: Target> {
    pub dead: Seq<bool>,
    pub events: Seq<EventView<T>>,
    pub result: Result<bool, Seq<char>>,
}

/// The result of an attempt as a mathematical value.
pub open spec fn result_view(r: Result<bool, String>) -> Result<bool, Seq<char>> {
    match r {
        Ok(changed) => Ok(changed),
        Err(message) => Err(message@),
    }
}

/// What a pass is after it was told that a round begins or ends, and why that failed, if it did.
pub struct Notice<S> {
    pub state: S,
    pub result: Result<(), Seq<char>>,
}

impl<S> Notice<S> {
    /// The pass takes no notice.
    pub open spec fn ignored(state: S) -> Notice<S> {
        Notice { state, result: Ok(()) }
    }
}

/// The result of a notice as a mathematical value.
pub open spec fn notice_view(r: Result<(), String>) -> Result<(), Seq<char>> {
    match r {
        Ok(_) => Ok(()),
        Err(message) => Err(message@),
    }
}

/// A transformation of functions.
pub trait SsaPass<T: Target>: Sized {
    /// What the pass remembers, as a mathematical value.
    type State;

    /// What the pass remembers.
    spec fn state(&self) -> Self::State;

    /// What the pass declares of itself.
    spec fn profiled(state: Self::State) -> ProfileView<T>;

    /// The pass runs on `method` of `program`.
    spec fn runs_on(state: Self::State, method: T::MethodRef, program: CallView<T>) -> bool;

    /// What the pass makes of the function of `method`.
    spec fn attempt(
        state: Self::State,
        ssa: SsaView<T>,
        method: T::MethodRef,
        around: Surroundings<T>,
    ) -> Attempt<T>;

    /// What the pass makes of the whole program.
    spec fn world_attempt(state: Self::State, program: CallView<T>) -> WorldAttempt<T>;

    /// What becomes of the pass where a round begins.
    spec fn initialized(state: Self::State, program: CallView<T>) -> Notice<Self::State>;

    /// What becomes of the pass where a round ends.
    spec fn finalized(state: Self::State, program: CallView<T>) -> Notice<Self::State>;

    /// Returns what the pass declares of itself.
    fn profile(&self) -> (r: PassProfile<T>)
        ensures
            r@ == Self::profiled(self.state()),
    ;

    /// Returns whether the pass runs on `method`.
    fn should_run<W: World<T>>(&self, method: &T::MethodRef, host: &W) -> (r: bool)
        ensures
            r == Self::runs_on(self.state(), *method, host.program()),
    ;

    /// Tells the pass that a round begins; it may set up what it needs.
    fn initialize<W: World<T>>(&mut self, host: &W) -> (r: Result<(), String>)
        ensures
            ({
                let notice = Self::initialized(old(self).state(), host.program());
                &&& final(self).state() == notice.state
                &&& notice_view(r) == notice.result
            }),
    ;

    /// Tells the pass that a round ends; it may drop what it set up.
    fn finalize<W: World<T>>(&mut self, host: &W) -> (r: Result<(), String>)
        ensures
            ({
                let notice = Self::finalized(old(self).state(), host.program());
                &&& final(self).state() == notice.state
                &&& notice_view(r) == notice.result
            }),
    ;

    /// Runs the pass on the function of one method.
    fn run_on_method<W: World<T>>(
        &self,
        ssa: &mut SsaFunction<T>,
        method: &T::MethodRef,
        context: &PassContext<'_, T, W>,
        events: &mut EventLog<T>,
    ) -> (r: Result<bool, String>)
        ensures
            ({
                let attempt = Self::attempt(self.state(), old(ssa)@, *method, context@);
                &&& final(ssa)@ == attempt.ssa
                &&& final(events)@ == old(events)@ + attempt.events
                &&& result_view(r) == attempt.result
            }),
    ;

    /// Runs the pass on the whole program.
    fn run_global<W: World<T>>(&self, world: &mut W, events: &mut EventLog<T>) -> (r: Result<
        bool,
        String,
    >)
        ensures
            ({
                let attempt = Self::world_attempt(self.state(), old(world).program());
                &&& final(world).program() == (CallView {
                    dead: attempt.dead,
                    ..old(world).program()
                })
                &&& final(events)@ == old(events)@ + attempt.events
                &&& result_view(r) == attempt.result
            }),
    ;
}

/// What each of some passes remembers.
pub open spec fn states<T: Target, P: SsaPass<T>>(passes: Seq<P>) -> Seq<P::State> {
    passes.map_values(|p: P| p.state())
}

} // verus!
