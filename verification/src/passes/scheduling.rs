//! The passes as the pipeline runs them.
//!
//! Structural passes run in the first layer, passes on values in the second; value numbering, copy
//! propagation and dead-code elimination normalize between their rounds.
use crate::events::EventLog;
use crate::ir::function::{SsaFunction, SsaView};
use crate::ir::variable::SsaVarId;
use crate::passes::outcome::Outcome;
pub use crate::passes::predicates::OpaquePredicatePass;
use crate::passes::{
    algebraic, blockmerge, controlflow, copying, deadcode, gvn, licm, loopcanon, predicates, ranges,
    reassociate, strength, threading,
};
use crate::scheduling::pass::{
    Attempt, ModificationScope, Notice, PassContext, PassProfile, ProfileView, SsaPass, Surroundings,
    WorldAttempt,
};
use crate::seqs;
use crate::target::Target;
use crate::world::{CallView, World};
use vstd::prelude::*;

verus! {

/// How often the passes that repeat themselves do so at most, unless told otherwise.
pub const DEFAULT_MAX_ITERATIONS: usize = 10;

/// A pass that got through.
pub open spec fn succeeded<T: Target>(outcome: Outcome<T>) -> Attempt<T> {
    Attempt { ssa: outcome.ssa, events: outcome.events, result: Ok(outcome.changed) }
}

/// A pass that does not work on the whole program.
pub open spec fn idle<T: Target>(program: CallView<T>) -> WorldAttempt<T> {
    WorldAttempt { dead: program.dead, events: Seq::empty(), result: Ok(false) }
}

/// Leaves the program as it is.
fn leave_program<T: Target, W: World<T>>(world: &mut W, events: &mut EventLog<T>) -> (r: Result<
    bool,
    String,
>)
    ensures
        final(world).program() == (CallView {
            dead: idle(old(world).program()).dead,
            ..old(world).program()
        }),
        final(events)@ == old(events)@ + Seq::empty(),
        r == Ok::<bool, String>(false),
{
    assert(events@ =~= old(events)@ + Seq::empty());
    Ok(false)
}

/// Bypasses blocks that only jump, and joins blocks that only follow each other.
#[derive(Debug, Clone, Copy)]
pub struct BlockMergingPass {
    /// How often the pass repeats itself at most.
    pub max_iterations: usize,
}

impl BlockMergingPass {
    /// Creates a pass that repeats itself at most `max_iterations` times.
    #[must_use]
    pub fn new(max_iterations: usize) -> (r: Self)
        ensures
            r.max_iterations == max_iterations,
    {
        BlockMergingPass { max_iterations }
    }
}

impl Default for BlockMergingPass {
    fn default() -> (r: Self)
        ensures
            r.max_iterations == DEFAULT_MAX_ITERATIONS,
    {
        BlockMergingPass { max_iterations: DEFAULT_MAX_ITERATIONS }
    }
}

impl<T: Target> SsaPass<T> for BlockMergingPass {
    type State = Self;

    open spec fn state(&self) -> Self {
        *self
    }

    open spec fn profiled(state: Self) -> ProfileView<T> {
        ProfileView {
            description: "Eliminate trampoline (single-jump) blocks"@,
            ..ProfileView::plain("block-merging"@)
        }
    }

    open spec fn runs_on(_state: Self, _method: T::MethodRef, _program: CallView<T>) -> bool {
        true
    }

    open spec fn attempt(
        state: Self,
        ssa: SsaView<T>,
        method: T::MethodRef,
        around: Surroundings<T>,
    ) -> Attempt<T> {
        succeeded(ssa.merged_blocks(method, state.max_iterations as nat))
    }

    open spec fn world_attempt(state: Self, program: CallView<T>) -> WorldAttempt<T> {
        idle(program)
    }

    open spec fn initialized(state: Self, _program: CallView<T>) -> Notice<Self> {
        Notice::ignored(state)
    }

    open spec fn finalized(state: Self, _program: CallView<T>) -> Notice<Self> {
        Notice::ignored(state)
    }

    fn profile(&self) -> (r: PassProfile<T>) {
        let mut profile: PassProfile<T> = PassProfile::new("block-merging");
        profile.description = "Eliminate trampoline (single-jump) blocks";
        profile
    }

    fn should_run<W: World<T>>(&self, _method: &T::MethodRef, _host: &W) -> (r: bool) {
        true
    }

    fn initialize<W: World<T>>(&mut self, _host: &W) -> (r: Result<(), String>) {
        Ok(())
    }

    fn finalize<W: World<T>>(&mut self, _host: &W) -> (r: Result<(), String>) {
        Ok(())
    }

    fn run_on_method<W: World<T>>(
        &self,
        ssa: &mut SsaFunction<T>,
        method: &T::MethodRef,
        context: &PassContext<'_, T, W>,
        events: &mut EventLog<T>,
    ) -> (r: Result<bool, String>) {
        Ok(blockmerge::run(ssa, method, events, self.max_iterations))
    }

    fn run_global<W: World<T>>(&self, world: &mut W, events: &mut EventLog<T>) -> (r: Result<
        bool,
        String,
    >) {
        leave_program(world, events)
    }
}

/// Simplifies branches and removes what follows them.
#[derive(Debug, Clone, Copy)]
pub struct ControlFlowSimplificationPass {
    /// How often the pass repeats itself at most.
    pub max_iterations: usize,
}

impl ControlFlowSimplificationPass {
    /// Creates a pass that repeats itself at most `max_iterations` times.
    #[must_use]
    pub fn new(max_iterations: usize) -> (r: Self)
        ensures
            r.max_iterations == max_iterations,
    {
        ControlFlowSimplificationPass { max_iterations }
    }
}

impl Default for ControlFlowSimplificationPass {
    fn default() -> (r: Self)
        ensures
            r.max_iterations == DEFAULT_MAX_ITERATIONS,
    {
        ControlFlowSimplificationPass { max_iterations: DEFAULT_MAX_ITERATIONS }
    }
}

impl<T: Target> SsaPass<T> for ControlFlowSimplificationPass {
    type State = Self;

    open spec fn state(&self) -> Self {
        *self
    }

    open spec fn profiled(state: Self) -> ProfileView<T> {
        ProfileView {
            description: "Simplify branches, eliminate unreachable code, fold constant predicates"@,
            ..ProfileView::plain("control-flow-simplification"@)
        }
    }

    open spec fn runs_on(_state: Self, _method: T::MethodRef, _program: CallView<T>) -> bool {
        true
    }

    open spec fn attempt(
        state: Self,
        ssa: SsaView<T>,
        method: T::MethodRef,
        around: Surroundings<T>,
    ) -> Attempt<T> {
        succeeded(ssa.flow_simplified(method, state.max_iterations as nat))
    }

    open spec fn world_attempt(state: Self, program: CallView<T>) -> WorldAttempt<T> {
        idle(program)
    }

    open spec fn initialized(state: Self, _program: CallView<T>) -> Notice<Self> {
        Notice::ignored(state)
    }

    open spec fn finalized(state: Self, _program: CallView<T>) -> Notice<Self> {
        Notice::ignored(state)
    }

    fn profile(&self) -> (r: PassProfile<T>) {
        let mut profile: PassProfile<T> = PassProfile::new("control-flow-simplification");
        profile.description = "Simplify branches, eliminate unreachable code, fold constant predicates";
        profile
    }

    fn should_run<W: World<T>>(&self, _method: &T::MethodRef, _host: &W) -> (r: bool) {
        true
    }

    fn initialize<W: World<T>>(&mut self, _host: &W) -> (r: Result<(), String>) {
        Ok(())
    }

    fn finalize<W: World<T>>(&mut self, _host: &W) -> (r: Result<(), String>) {
        Ok(())
    }

    fn run_on_method<W: World<T>>(
        &self,
        ssa: &mut SsaFunction<T>,
        method: &T::MethodRef,
        context: &PassContext<'_, T, W>,
        events: &mut EventLog<T>,
    ) -> (r: Result<bool, String>) {
        Ok(controlflow::run(ssa, method, events, self.max_iterations))
    }

    fn run_global<W: World<T>>(&self, world: &mut W, events: &mut EventLog<T>) -> (r: Result<
        bool,
        String,
    >) {
        leave_program(world, events)
    }
}

/// Replaces copies by what they copy.
#[derive(Debug, Clone, Copy)]
pub struct CopyPropagationPass {
    /// How often the pass repeats itself at most.
    pub max_iterations: usize,
}

impl CopyPropagationPass {
    /// Creates a pass that repeats itself at most `max_iterations` times.
    #[must_use]
    pub fn new(max_iterations: usize) -> (r: Self)
        ensures
            r.max_iterations == max_iterations,
    {
        CopyPropagationPass { max_iterations }
    }
}

impl Default for CopyPropagationPass {
    fn default() -> (r: Self)
        ensures
            r.max_iterations == DEFAULT_MAX_ITERATIONS,
    {
        CopyPropagationPass { max_iterations: DEFAULT_MAX_ITERATIONS }
    }
}

impl<T: Target> SsaPass<T> for CopyPropagationPass {
    type State = Self;

    open spec fn state(&self) -> Self {
        *self
    }

    open spec fn profiled(state: Self) -> ProfileView<T> {
        ProfileView {
            description: "Eliminate redundant copy operations and trivial phi nodes"@,
            scope: ModificationScope::InstructionsOnly,
            ..ProfileView::plain("copy-propagation"@)
        }
    }

    open spec fn runs_on(_state: Self, _method: T::MethodRef, _program: CallView<T>) -> bool {
        true
    }

    open spec fn attempt(
        state: Self,
        ssa: SsaView<T>,
        method: T::MethodRef,
        around: Surroundings<T>,
    ) -> Attempt<T> {
        succeeded(
            ssa.copying::<copying::NoHook>((), method, state.max_iterations as nat).outcome,
        )
    }

    open spec fn world_attempt(state: Self, program: CallView<T>) -> WorldAttempt<T> {
        idle(program)
    }

    open spec fn initialized(state: Self, _program: CallView<T>) -> Notice<Self> {
        Notice::ignored(state)
    }

    open spec fn finalized(state: Self, _program: CallView<T>) -> Notice<Self> {
        Notice::ignored(state)
    }

    fn profile(&self) -> (r: PassProfile<T>) {
        let mut profile: PassProfile<T> = PassProfile::new("copy-propagation");
        profile.description = "Eliminate redundant copy operations and trivial phi nodes";
        profile.scope = ModificationScope::InstructionsOnly;
        profile
    }

    fn should_run<W: World<T>>(&self, _method: &T::MethodRef, _host: &W) -> (r: bool) {
        true
    }

    fn initialize<W: World<T>>(&mut self, _host: &W) -> (r: Result<(), String>) {
        Ok(())
    }

    fn finalize<W: World<T>>(&mut self, _host: &W) -> (r: Result<(), String>) {
        Ok(())
    }

    fn run_on_method<W: World<T>>(
        &self,
        ssa: &mut SsaFunction<T>,
        method: &T::MethodRef,
        context: &PassContext<'_, T, W>,
        events: &mut EventLog<T>,
    ) -> (r: Result<bool, String>) {
        Ok(copying::run(ssa, method, events, self.max_iterations))
    }

    fn run_global<W: World<T>>(&self, world: &mut W, events: &mut EventLog<T>) -> (r: Result<
        bool,
        String,
    >) {
        leave_program(world, events)
    }
}

/// Removes what is never reached or never needed.
#[derive(Debug, Clone, Copy)]
pub struct DeadCodeEliminationPass {
    /// How often the pass repeats itself at most.
    pub max_iterations: usize,
}

impl DeadCodeEliminationPass {
    /// Creates a pass that repeats itself at most `max_iterations` times.
    #[must_use]
    pub fn new(max_iterations: usize) -> (r: Self)
        ensures
            r.max_iterations == max_iterations,
    {
        DeadCodeEliminationPass { max_iterations }
    }
}

impl Default for DeadCodeEliminationPass {
    fn default() -> (r: Self)
        ensures
            r.max_iterations == DEFAULT_MAX_ITERATIONS,
    {
        DeadCodeEliminationPass { max_iterations: DEFAULT_MAX_ITERATIONS }
    }
}

impl<T: Target> SsaPass<T> for DeadCodeEliminationPass {
    type State = Self;

    open spec fn state(&self) -> Self {
        *self
    }

    open spec fn profiled(state: Self) -> ProfileView<T> {
        ProfileView {
            description: "Remove unreachable blocks, unused definitions, and op-less instructions"@,
            scope: ModificationScope::InstructionsOnly,
            ..ProfileView::plain("dead-code-elimination"@)
        }
    }

    open spec fn runs_on(_state: Self, _method: T::MethodRef, _program: CallView<T>) -> bool {
        true
    }

    open spec fn attempt(
        state: Self,
        ssa: SsaView<T>,
        method: T::MethodRef,
        around: Surroundings<T>,
    ) -> Attempt<T> {
        succeeded(ssa.dead_code_removed(method, state.max_iterations as nat))
    }

    open spec fn world_attempt(state: Self, program: CallView<T>) -> WorldAttempt<T> {
        idle(program)
    }

    open spec fn initialized(state: Self, _program: CallView<T>) -> Notice<Self> {
        Notice::ignored(state)
    }

    open spec fn finalized(state: Self, _program: CallView<T>) -> Notice<Self> {
        Notice::ignored(state)
    }

    fn profile(&self) -> (r: PassProfile<T>) {
        let mut profile: PassProfile<T> = PassProfile::new("dead-code-elimination");
        profile.description = "Remove unreachable blocks, unused definitions, and op-less instructions";
        profile.scope = ModificationScope::InstructionsOnly;
        profile
    }

    fn should_run<W: World<T>>(&self, _method: &T::MethodRef, _host: &W) -> (r: bool) {
        true
    }

    fn initialize<W: World<T>>(&mut self, _host: &W) -> (r: Result<(), String>) {
        Ok(())
    }

    fn finalize<W: World<T>>(&mut self, _host: &W) -> (r: Result<(), String>) {
        Ok(())
    }

    fn run_on_method<W: World<T>>(
        &self,
        ssa: &mut SsaFunction<T>,
        method: &T::MethodRef,
        context: &PassContext<'_, T, W>,
        events: &mut EventLog<T>,
    ) -> (r: Result<bool, String>) {
        Ok(deadcode::run(ssa, method, events, self.max_iterations))
    }

    fn run_global<W: World<T>>(&self, world: &mut W, events: &mut EventLog<T>) -> (r: Result<
        bool,
        String,
    >) {
        leave_program(world, events)
    }
}

/// Marks the methods that the program can never come to call.
#[derive(Debug, Default, Clone, Copy)]
pub struct DeadMethodEliminationPass;

impl<T: Target> SsaPass<T> for DeadMethodEliminationPass {
    type State = Self;

    open spec fn state(&self) -> Self {
        *self
    }

    open spec fn profiled(state: Self) -> ProfileView<T> {
        ProfileView {
            description: "Mark methods that have no live callers and aren't entry points"@,
            is_global: true,
            ..ProfileView::plain("dead-method-elimination"@)
        }
    }

    open spec fn runs_on(_state: Self, _method: T::MethodRef, _program: CallView<T>) -> bool {
        true
    }

    open spec fn attempt(
        state: Self,
        ssa: SsaView<T>,
        method: T::MethodRef,
        around: Surroundings<T>,
    ) -> Attempt<T> {
        Attempt { ssa, events: Seq::empty(), result: Ok(false) }
    }

    open spec fn world_attempt(state: Self, program: CallView<T>) -> WorldAttempt<T> {
        WorldAttempt {
            dead: program.with_dead_marked().dead,
            events: seqs::flat(program.dead_method_event(), program.methods.len()),
            result: Ok(seqs::flat(program.dead_method_event(), program.methods.len()).len() > 0),
        }
    }

    open spec fn initialized(state: Self, _program: CallView<T>) -> Notice<Self> {
        Notice::ignored(state)
    }

    open spec fn finalized(state: Self, _program: CallView<T>) -> Notice<Self> {
        Notice::ignored(state)
    }

    fn profile(&self) -> (r: PassProfile<T>) {
        let mut profile: PassProfile<T> = PassProfile::new("dead-method-elimination");
        profile.description = "Mark methods that have no live callers and aren't entry points";
        profile.is_global = true;
        profile
    }

    fn should_run<W: World<T>>(&self, _method: &T::MethodRef, _host: &W) -> (r: bool) {
        true
    }

    fn initialize<W: World<T>>(&mut self, _host: &W) -> (r: Result<(), String>) {
        Ok(())
    }

    fn finalize<W: World<T>>(&mut self, _host: &W) -> (r: Result<(), String>) {
        Ok(())
    }

    fn run_on_method<W: World<T>>(
        &self,
        ssa: &mut SsaFunction<T>,
        method: &T::MethodRef,
        context: &PassContext<'_, T, W>,
        events: &mut EventLog<T>,
    ) -> (r: Result<bool, String>) {
        assert(events@ =~= old(events)@ + Seq::empty());
        Ok(false)
    }

    fn run_global<W: World<T>>(&self, world: &mut W, events: &mut EventLog<T>) -> (r: Result<
        bool,
        String,
    >) {
        Ok(deadcode::run_global(world, events))
    }
}

/// Computes every value once.
#[derive(Debug, Default, Clone, Copy)]
pub struct GlobalValueNumberingPass;

impl GlobalValueNumberingPass {
    /// Creates the pass.
    #[must_use]
    pub fn new() -> Self {
        GlobalValueNumberingPass
    }
}

impl<T: Target> SsaPass<T> for GlobalValueNumberingPass {
    type State = Self;

    open spec fn state(&self) -> Self {
        *self
    }

    open spec fn profiled(state: Self) -> ProfileView<T> {
        ProfileView {
            description: "Eliminate redundant computations via value numbering"@,
            scope: ModificationScope::UsesOnly,
            ..ProfileView::plain("global-value-numbering"@)
        }
    }

    open spec fn runs_on(_state: Self, _method: T::MethodRef, _program: CallView<T>) -> bool {
        true
    }

    open spec fn attempt(
        state: Self,
        ssa: SsaView<T>,
        method: T::MethodRef,
        around: Surroundings<T>,
    ) -> Attempt<T> {
        Attempt {
            ssa: ssa.value_numbered(method).ssa,
            events: ssa.value_numbered(method).events,
            result: Ok(ssa.value_numbered(method).eliminated),
        }
    }

    open spec fn world_attempt(state: Self, program: CallView<T>) -> WorldAttempt<T> {
        idle(program)
    }

    open spec fn initialized(state: Self, _program: CallView<T>) -> Notice<Self> {
        Notice::ignored(state)
    }

    open spec fn finalized(state: Self, _program: CallView<T>) -> Notice<Self> {
        Notice::ignored(state)
    }

    fn profile(&self) -> (r: PassProfile<T>) {
        let mut profile: PassProfile<T> = PassProfile::new("global-value-numbering");
        profile.description = "Eliminate redundant computations via value numbering";
        profile.scope = ModificationScope::UsesOnly;
        profile
    }

    fn should_run<W: World<T>>(&self, _method: &T::MethodRef, _host: &W) -> (r: bool) {
        true
    }

    fn initialize<W: World<T>>(&mut self, _host: &W) -> (r: Result<(), String>) {
        Ok(())
    }

    fn finalize<W: World<T>>(&mut self, _host: &W) -> (r: Result<(), String>) {
        Ok(())
    }

    fn run_on_method<W: World<T>>(
        &self,
        ssa: &mut SsaFunction<T>,
        method: &T::MethodRef,
        context: &PassContext<'_, T, W>,
        events: &mut EventLog<T>,
    ) -> (r: Result<bool, String>) {
        Ok(gvn::run(ssa, method, events))
    }

    fn run_global<W: World<T>>(&self, world: &mut W, events: &mut EventLog<T>) -> (r: Result<
        bool,
        String,
    >) {
        leave_program(world, events)
    }
}

/// Moves what a loop never changes in front of it.
#[derive(Debug, Default, Clone, Copy)]
pub struct LicmPass;

impl LicmPass {
    /// Creates the pass.
    #[must_use]
    pub fn new() -> Self {
        LicmPass
    }
}

impl<T: Target> SsaPass<T> for LicmPass {
    type State = Self;

    open spec fn state(&self) -> Self {
        *self
    }

    open spec fn profiled(state: Self) -> ProfileView<T> {
        ProfileView {
            description: "Hoist loop-invariant computations out of loops"@,
            fallback_layer: 1,
            ..ProfileView::plain("licm"@)
        }
    }

    open spec fn runs_on(_state: Self, _method: T::MethodRef, _program: CallView<T>) -> bool {
        true
    }

    open spec fn attempt(
        state: Self,
        ssa: SsaView<T>,
        method: T::MethodRef,
        around: Surroundings<T>,
    ) -> Attempt<T> {
        succeeded(ssa.invariants_hoisted(method))
    }

    open spec fn world_attempt(state: Self, program: CallView<T>) -> WorldAttempt<T> {
        idle(program)
    }

    open spec fn initialized(state: Self, _program: CallView<T>) -> Notice<Self> {
        Notice::ignored(state)
    }

    open spec fn finalized(state: Self, _program: CallView<T>) -> Notice<Self> {
        Notice::ignored(state)
    }

    fn profile(&self) -> (r: PassProfile<T>) {
        let mut profile: PassProfile<T> = PassProfile::new("licm");
        profile.description = "Hoist loop-invariant computations out of loops";
        profile.fallback_layer = 1;
        profile
    }

    fn should_run<W: World<T>>(&self, _method: &T::MethodRef, _host: &W) -> (r: bool) {
        true
    }

    fn initialize<W: World<T>>(&mut self, _host: &W) -> (r: Result<(), String>) {
        Ok(())
    }

    fn finalize<W: World<T>>(&mut self, _host: &W) -> (r: Result<(), String>) {
        Ok(())
    }

    fn run_on_method<W: World<T>>(
        &self,
        ssa: &mut SsaFunction<T>,
        method: &T::MethodRef,
        context: &PassContext<'_, T, W>,
        events: &mut EventLog<T>,
    ) -> (r: Result<bool, String>) {
        Ok(licm::run(ssa, method, events))
    }

    fn run_global<W: World<T>>(&self, world: &mut W, events: &mut EventLog<T>) -> (r: Result<
        bool,
        String,
    >) {
        leave_program(world, events)
    }
}

/// Gives each loop one way in and one way back.
#[derive(Debug, Default, Clone, Copy)]
pub struct LoopCanonicalizationPass;

impl LoopCanonicalizationPass {
    /// Creates the pass.
    #[must_use]
    pub fn new() -> Self {
        LoopCanonicalizationPass
    }
}

impl<T: Target> SsaPass<T> for LoopCanonicalizationPass {
    type State = Self;

    open spec fn state(&self) -> Self {
        *self
    }

    open spec fn profiled(state: Self) -> ProfileView<T> {
        ProfileView {
            description: "Ensure each loop has a single preheader and latch"@,
            ..ProfileView::plain("loop-canonicalization"@)
        }
    }

    open spec fn runs_on(_state: Self, _method: T::MethodRef, _program: CallView<T>) -> bool {
        true
    }

    open spec fn attempt(
        state: Self,
        ssa: SsaView<T>,
        method: T::MethodRef,
        around: Surroundings<T>,
    ) -> Attempt<T> {
        succeeded(ssa.loops_made_canonical(method))
    }

    open spec fn world_attempt(state: Self, program: CallView<T>) -> WorldAttempt<T> {
        idle(program)
    }

    open spec fn initialized(state: Self, _program: CallView<T>) -> Notice<Self> {
        Notice::ignored(state)
    }

    open spec fn finalized(state: Self, _program: CallView<T>) -> Notice<Self> {
        Notice::ignored(state)
    }

    fn profile(&self) -> (r: PassProfile<T>) {
        let mut profile: PassProfile<T> = PassProfile::new("loop-canonicalization");
        profile.description = "Ensure each loop has a single preheader and latch";
        profile
    }

    fn should_run<W: World<T>>(&self, _method: &T::MethodRef, _host: &W) -> (r: bool) {
        true
    }

    fn initialize<W: World<T>>(&mut self, _host: &W) -> (r: Result<(), String>) {
        Ok(())
    }

    fn finalize<W: World<T>>(&mut self, _host: &W) -> (r: Result<(), String>) {
        Ok(())
    }

    fn run_on_method<W: World<T>>(
        &self,
        ssa: &mut SsaFunction<T>,
        method: &T::MethodRef,
        context: &PassContext<'_, T, W>,
        events: &mut EventLog<T>,
    ) -> (r: Result<bool, String>) {
        Ok(loopcanon::run(ssa, method, events))
    }

    fn run_global<W: World<T>>(&self, world: &mut W, events: &mut EventLog<T>) -> (r: Result<
        bool,
        String,
    >) {
        leave_program(world, events)
    }
}

/// Decides comparisons and branches by the values that variables can have.
#[derive(Debug, Clone, Copy)]
pub struct ValueRangePropagationPass {
    /// How often the pass repeats itself at most.
    pub max_iterations: usize,
}

impl ValueRangePropagationPass {
    /// Creates a pass that repeats itself at most `max_iterations` times.
    #[must_use]
    pub fn new(max_iterations: usize) -> (r: Self)
        ensures
            r.max_iterations == max_iterations,
    {
        ValueRangePropagationPass { max_iterations }
    }
}

impl Default for ValueRangePropagationPass {
    fn default() -> (r: Self)
        ensures
            r.max_iterations == DEFAULT_MAX_ITERATIONS,
    {
        ValueRangePropagationPass { max_iterations: DEFAULT_MAX_ITERATIONS }
    }
}

impl<T: Target> SsaPass<T> for ValueRangePropagationPass {
    type State = Self;

    open spec fn state(&self) -> Self {
        *self
    }

    open spec fn profiled(state: Self) -> ProfileView<T> {
        ProfileView {
            description: "Propagate value-range information across the SSA graph"@,
            scope: ModificationScope::InstructionsOnly,
            fallback_layer: 1,
            ..ProfileView::plain("value-range-propagation"@)
        }
    }

    open spec fn runs_on(_state: Self, _method: T::MethodRef, _program: CallView<T>) -> bool {
        true
    }

    open spec fn attempt(
        state: Self,
        ssa: SsaView<T>,
        method: T::MethodRef,
        around: Surroundings<T>,
    ) -> Attempt<T> {
        succeeded(ssa.range_simplified(method, state.max_iterations as nat))
    }

    open spec fn world_attempt(state: Self, program: CallView<T>) -> WorldAttempt<T> {
        idle(program)
    }

    open spec fn initialized(state: Self, _program: CallView<T>) -> Notice<Self> {
        Notice::ignored(state)
    }

    open spec fn finalized(state: Self, _program: CallView<T>) -> Notice<Self> {
        Notice::ignored(state)
    }

    fn profile(&self) -> (r: PassProfile<T>) {
        let mut profile: PassProfile<T> = PassProfile::new("value-range-propagation");
        profile.description = "Propagate value-range information across the SSA graph";
        profile.scope = ModificationScope::InstructionsOnly;
        profile.fallback_layer = 1;
        profile
    }

    fn should_run<W: World<T>>(&self, _method: &T::MethodRef, _host: &W) -> (r: bool) {
        true
    }

    fn initialize<W: World<T>>(&mut self, _host: &W) -> (r: Result<(), String>) {
        Ok(())
    }

    fn finalize<W: World<T>>(&mut self, _host: &W) -> (r: Result<(), String>) {
        Ok(())
    }

    fn run_on_method<W: World<T>>(
        &self,
        ssa: &mut SsaFunction<T>,
        method: &T::MethodRef,
        context: &PassContext<'_, T, W>,
        events: &mut EventLog<T>,
    ) -> (r: Result<bool, String>) {
        Ok(ranges::run(ssa, method, events, self.max_iterations))
    }

    fn run_global<W: World<T>>(&self, world: &mut W, events: &mut EventLog<T>) -> (r: Result<
        bool,
        String,
    >) {
        leave_program(world, events)
    }
}

/// Simplifies operations whose result is one of their operands, or a constant.
#[derive(Debug, Default, Clone, Copy)]
pub struct AlgebraicSimplificationPass;

impl AlgebraicSimplificationPass {
    /// Creates the pass.
    #[must_use]
    pub fn new() -> Self {
        AlgebraicSimplificationPass
    }
}

impl<T: Target> SsaPass<T> for AlgebraicSimplificationPass {
    type State = Self;

    open spec fn state(&self) -> Self {
        *self
    }

    open spec fn profiled(state: Self) -> ProfileView<T> {
        ProfileView {
            description: "Simplify algebraic identities (x xor x = 0, x + 0 = x, etc.)"@,
            scope: ModificationScope::InstructionsOnly,
            fallback_layer: 1,
            ..ProfileView::plain("algebraic-simplification"@)
        }
    }

    open spec fn runs_on(_state: Self, _method: T::MethodRef, _program: CallView<T>) -> bool {
        true
    }

    open spec fn attempt(
        state: Self,
        ssa: SsaView<T>,
        method: T::MethodRef,
        around: Surroundings<T>,
    ) -> Attempt<T> {
        succeeded(ssa.algebraically_simplified(method))
    }

    open spec fn world_attempt(state: Self, program: CallView<T>) -> WorldAttempt<T> {
        idle(program)
    }

    open spec fn initialized(state: Self, _program: CallView<T>) -> Notice<Self> {
        Notice::ignored(state)
    }

    open spec fn finalized(state: Self, _program: CallView<T>) -> Notice<Self> {
        Notice::ignored(state)
    }

    fn profile(&self) -> (r: PassProfile<T>) {
        let mut profile: PassProfile<T> = PassProfile::new("algebraic-simplification");
        profile.description = "Simplify algebraic identities (x xor x = 0, x + 0 = x, etc.)";
        profile.scope = ModificationScope::InstructionsOnly;
        profile.fallback_layer = 1;
        profile
    }

    fn should_run<W: World<T>>(&self, _method: &T::MethodRef, _host: &W) -> (r: bool) {
        true
    }

    fn initialize<W: World<T>>(&mut self, _host: &W) -> (r: Result<(), String>) {
        Ok(())
    }

    fn finalize<W: World<T>>(&mut self, _host: &W) -> (r: Result<(), String>) {
        Ok(())
    }

    fn run_on_method<W: World<T>>(
        &self,
        ssa: &mut SsaFunction<T>,
        method: &T::MethodRef,
        context: &PassContext<'_, T, W>,
        events: &mut EventLog<T>,
    ) -> (r: Result<bool, String>) {
        Ok(algebraic::run(ssa, method, events))
    }

    fn run_global<W: World<T>>(&self, world: &mut W, events: &mut EventLog<T>) -> (r: Result<
        bool,
        String,
    >) {
        leave_program(world, events)
    }
}

/// Regroups operations so that constants meet.
#[derive(Debug, Default, Clone, Copy)]
pub struct ReassociationPass;

impl ReassociationPass {
    /// Creates the pass.
    #[must_use]
    pub fn new() -> Self {
        ReassociationPass
    }
}

impl<T: Target> SsaPass<T> for ReassociationPass {
    type State = Self;

    open spec fn state(&self) -> Self {
        *self
    }

    open spec fn profiled(state: Self) -> ProfileView<T> {
        ProfileView {
            description: "Reorder associative operations to expose simplification opportunities"@,
            scope: ModificationScope::InstructionsOnly,
            fallback_layer: 1,
            ..ProfileView::plain("reassociation"@)
        }
    }

    open spec fn runs_on(_state: Self, _method: T::MethodRef, _program: CallView<T>) -> bool {
        true
    }

    open spec fn attempt(
        state: Self,
        ssa: SsaView<T>,
        method: T::MethodRef,
        around: Surroundings<T>,
    ) -> Attempt<T> {
        succeeded(ssa.reassociated(method, around.ptr_size))
    }

    open spec fn world_attempt(state: Self, program: CallView<T>) -> WorldAttempt<T> {
        idle(program)
    }

    open spec fn initialized(state: Self, _program: CallView<T>) -> Notice<Self> {
        Notice::ignored(state)
    }

    open spec fn finalized(state: Self, _program: CallView<T>) -> Notice<Self> {
        Notice::ignored(state)
    }

    fn profile(&self) -> (r: PassProfile<T>) {
        let mut profile: PassProfile<T> = PassProfile::new("reassociation");
        profile.description = "Reorder associative operations to expose simplification opportunities";
        profile.scope = ModificationScope::InstructionsOnly;
        profile.fallback_layer = 1;
        profile
    }

    fn should_run<W: World<T>>(&self, _method: &T::MethodRef, _host: &W) -> (r: bool) {
        true
    }

    fn initialize<W: World<T>>(&mut self, _host: &W) -> (r: Result<(), String>) {
        Ok(())
    }

    fn finalize<W: World<T>>(&mut self, _host: &W) -> (r: Result<(), String>) {
        Ok(())
    }

    fn run_on_method<W: World<T>>(
        &self,
        ssa: &mut SsaFunction<T>,
        method: &T::MethodRef,
        context: &PassContext<'_, T, W>,
        events: &mut EventLog<T>,
    ) -> (r: Result<bool, String>) {
        Ok(reassociate::run(ssa, method, events, context.ptr_size))
    }

    fn run_global<W: World<T>>(&self, world: &mut W, events: &mut EventLog<T>) -> (r: Result<
        bool,
        String,
    >) {
        leave_program(world, events)
    }
}

/// Replaces operations by cheaper ones.
#[derive(Debug, Default, Clone, Copy)]
pub struct StrengthReductionPass;

impl<T: Target> SsaPass<T> for StrengthReductionPass {
    type State = Self;

    open spec fn state(&self) -> Self {
        *self
    }

    open spec fn profiled(state: Self) -> ProfileView<T> {
        ProfileView {
            description: "Replace expensive operations with cheaper equivalents"@,
            scope: ModificationScope::InstructionsOnly,
            fallback_layer: 1,
            ..ProfileView::plain("strength-reduction"@)
        }
    }

    open spec fn runs_on(_state: Self, _method: T::MethodRef, _program: CallView<T>) -> bool {
        true
    }

    open spec fn attempt(
        state: Self,
        ssa: SsaView<T>,
        method: T::MethodRef,
        around: Surroundings<T>,
    ) -> Attempt<T> {
        succeeded(
            ssa.strength_reduced(method, Seq::new(ssa.places().len(), |_k: int| false)),
        )
    }

    open spec fn world_attempt(state: Self, program: CallView<T>) -> WorldAttempt<T> {
        idle(program)
    }

    open spec fn initialized(state: Self, _program: CallView<T>) -> Notice<Self> {
        Notice::ignored(state)
    }

    open spec fn finalized(state: Self, _program: CallView<T>) -> Notice<Self> {
        Notice::ignored(state)
    }

    fn profile(&self) -> (r: PassProfile<T>) {
        let mut profile: PassProfile<T> = PassProfile::new("strength-reduction");
        profile.description = "Replace expensive operations with cheaper equivalents";
        profile.scope = ModificationScope::InstructionsOnly;
        profile.fallback_layer = 1;
        profile
    }

    fn should_run<W: World<T>>(&self, _method: &T::MethodRef, _host: &W) -> (r: bool) {
        true
    }

    fn initialize<W: World<T>>(&mut self, _host: &W) -> (r: Result<(), String>) {
        Ok(())
    }

    fn finalize<W: World<T>>(&mut self, _host: &W) -> (r: Result<(), String>) {
        Ok(())
    }

    fn run_on_method<W: World<T>>(
        &self,
        ssa: &mut SsaFunction<T>,
        method: &T::MethodRef,
        context: &PassContext<'_, T, W>,
        events: &mut EventLog<T>,
    ) -> (r: Result<bool, String>) {
        let is_non_negative = |_v: SsaVarId| -> (r: bool)
            ensures
                !r,
            { false };
        let ghost start = ssa@;
        let ghost logged = events@;
        let changed: bool = strength::run(ssa, method, events, &is_non_negative);
        proof {
            let told = choose|told: Seq<bool>| #[trigger]
                strength::was_told(start, is_non_negative, told) && {
                    let outcome = start.strength_reduced(*method, told);
                    &&& ssa@ == outcome.ssa
                    &&& events@ == logged + outcome.events
                    &&& changed == outcome.changed
                };
            assert(told =~= Seq::new(start.places().len(), |_k: int| false));
        }
        Ok(changed)
    }

    fn run_global<W: World<T>>(&self, world: &mut W, events: &mut EventLog<T>) -> (r: Result<
        bool,
        String,
    >) {
        leave_program(world, events)
    }
}

/// Sends jumps past branches whose outcome is known.
#[derive(Debug, Default, Clone, Copy)]
pub struct JumpThreadingPass;

impl JumpThreadingPass {
    /// Creates the pass.
    #[must_use]
    pub fn new() -> Self {
        JumpThreadingPass
    }
}

impl<T: Target> SsaPass<T> for JumpThreadingPass {
    type State = Self;

    open spec fn state(&self) -> Self {
        *self
    }

    open spec fn profiled(state: Self) -> ProfileView<T> {
        ProfileView {
            description: "Thread jumps through empty or predictable blocks"@,
            ..ProfileView::plain("jump-threading"@)
        }
    }

    open spec fn runs_on(_state: Self, _method: T::MethodRef, _program: CallView<T>) -> bool {
        true
    }

    open spec fn attempt(
        state: Self,
        ssa: SsaView<T>,
        method: T::MethodRef,
        around: Surroundings<T>,
    ) -> Attempt<T> {
        succeeded(ssa.threaded(method, around.ptr_size))
    }

    open spec fn world_attempt(state: Self, program: CallView<T>) -> WorldAttempt<T> {
        idle(program)
    }

    open spec fn initialized(state: Self, _program: CallView<T>) -> Notice<Self> {
        Notice::ignored(state)
    }

    open spec fn finalized(state: Self, _program: CallView<T>) -> Notice<Self> {
        Notice::ignored(state)
    }

    fn profile(&self) -> (r: PassProfile<T>) {
        let mut profile: PassProfile<T> = PassProfile::new("jump-threading");
        profile.description = "Thread jumps through empty or predictable blocks";
        profile
    }

    fn should_run<W: World<T>>(&self, _method: &T::MethodRef, _host: &W) -> (r: bool) {
        true
    }

    fn initialize<W: World<T>>(&mut self, _host: &W) -> (r: Result<(), String>) {
        Ok(())
    }

    fn finalize<W: World<T>>(&mut self, _host: &W) -> (r: Result<(), String>) {
        Ok(())
    }

    fn run_on_method<W: World<T>>(
        &self,
        ssa: &mut SsaFunction<T>,
        method: &T::MethodRef,
        context: &PassContext<'_, T, W>,
        events: &mut EventLog<T>,
    ) -> (r: Result<bool, String>) {
        Ok(threading::run(ssa, method, events, context.ptr_size))
    }

    fn run_global<W: World<T>>(&self, world: &mut W, events: &mut EventLog<T>) -> (r: Result<
        bool,
        String,
    >) {
        leave_program(world, events)
    }
}

impl<T: Target> SsaPass<T> for OpaquePredicatePass<T> {
    type State = Self;

    open spec fn state(&self) -> Self {
        *self
    }

    open spec fn profiled(state: Self) -> ProfileView<T> {
        ProfileView {
            description: "Remove always-true/false conditions, simplify trivial comparisons"@,
            fallback_layer: 1,
            ..ProfileView::plain("opaque-predicate"@)
        }
    }

    open spec fn runs_on(_state: Self, _method: T::MethodRef, _program: CallView<T>) -> bool {
        true
    }

    open spec fn attempt(
        state: Self,
        ssa: SsaView<T>,
        method: T::MethodRef,
        around: Surroundings<T>,
    ) -> Attempt<T> {
        succeeded(ssa.without_opaque_predicates(method, around.ptr_size))
    }

    open spec fn world_attempt(state: Self, program: CallView<T>) -> WorldAttempt<T> {
        idle(program)
    }

    open spec fn initialized(state: Self, _program: CallView<T>) -> Notice<Self> {
        Notice::ignored(state)
    }

    open spec fn finalized(state: Self, _program: CallView<T>) -> Notice<Self> {
        Notice::ignored(state)
    }

    fn profile(&self) -> (r: PassProfile<T>) {
        let mut profile: PassProfile<T> = PassProfile::new("opaque-predicate");
        profile.description = "Remove always-true/false conditions, simplify trivial comparisons";
        profile.fallback_layer = 1;
        profile
    }

    fn should_run<W: World<T>>(&self, _method: &T::MethodRef, _host: &W) -> (r: bool) {
        true
    }

    fn initialize<W: World<T>>(&mut self, _host: &W) -> (r: Result<(), String>) {
        Ok(())
    }

    fn finalize<W: World<T>>(&mut self, _host: &W) -> (r: Result<(), String>) {
        Ok(())
    }

    fn run_on_method<W: World<T>>(
        &self,
        ssa: &mut SsaFunction<T>,
        method: &T::MethodRef,
        context: &PassContext<'_, T, W>,
        events: &mut EventLog<T>,
    ) -> (r: Result<bool, String>) {
        Ok(predicates::run(ssa, method, events, context.ptr_size))
    }

    fn run_global<W: World<T>>(&self, world: &mut W, events: &mut EventLog<T>) -> (r: Result<
        bool,
        String,
    >) {
        leave_program(world, events)
    }
}

/// One of the passes of the library.
pub enum BuiltinPass<T: Target> {
    BlockMerging(BlockMergingPass),
    ControlFlow(ControlFlowSimplificationPass),
    Copy(CopyPropagationPass),
    DeadCode(DeadCodeEliminationPass),
    DeadMethod(DeadMethodEliminationPass),
    ValueNumbering(GlobalValueNumberingPass),
    Licm(LicmPass),
    LoopCanonicalization(LoopCanonicalizationPass),
    ValueRange(ValueRangePropagationPass),
    Algebraic(AlgebraicSimplificationPass),
    Reassociation(ReassociationPass),
    Strength(StrengthReductionPass),
    Threading(JumpThreadingPass),
    OpaquePredicate(OpaquePredicatePass<T>),
}

impl<T: Target> SsaPass<T> for BuiltinPass<T> {
    type State = Self;

    open spec fn state(&self) -> Self {
        *self
    }

    open spec fn profiled(state: Self) -> ProfileView<T> {
        match state {
            BuiltinPass::BlockMerging(pass) => <BlockMergingPass as SsaPass<T>>::profiled(pass),
            BuiltinPass::ControlFlow(pass) => <ControlFlowSimplificationPass as SsaPass<T>>::profiled(pass),
            BuiltinPass::Copy(pass) => <CopyPropagationPass as SsaPass<T>>::profiled(pass),
            BuiltinPass::DeadCode(pass) => <DeadCodeEliminationPass as SsaPass<T>>::profiled(pass),
            BuiltinPass::DeadMethod(pass) => <DeadMethodEliminationPass as SsaPass<T>>::profiled(pass),
            BuiltinPass::ValueNumbering(pass) => <GlobalValueNumberingPass as SsaPass<T>>::profiled(pass),
            BuiltinPass::Licm(pass) => <LicmPass as SsaPass<T>>::profiled(pass),
            BuiltinPass::LoopCanonicalization(pass) => <LoopCanonicalizationPass as SsaPass<T>>::profiled(pass),
            BuiltinPass::ValueRange(pass) => <ValueRangePropagationPass as SsaPass<T>>::profiled(pass),
            BuiltinPass::Algebraic(pass) => <AlgebraicSimplificationPass as SsaPass<T>>::profiled(pass),
            BuiltinPass::Reassociation(pass) => <ReassociationPass as SsaPass<T>>::profiled(pass),
            BuiltinPass::Strength(pass) => <StrengthReductionPass as SsaPass<T>>::profiled(pass),
            BuiltinPass::Threading(pass) => <JumpThreadingPass as SsaPass<T>>::profiled(pass),
            BuiltinPass::OpaquePredicate(pass) => <OpaquePredicatePass<T> as SsaPass<T>>::profiled(pass),
        }
    }

    open spec fn runs_on(_state: Self, _method: T::MethodRef, _program: CallView<T>) -> bool {
        true
    }

    open spec fn attempt(
        state: Self,
        ssa: SsaView<T>,
        method: T::MethodRef,
        around: Surroundings<T>,
    ) -> Attempt<T> {
        match state {
            BuiltinPass::BlockMerging(pass) => <BlockMergingPass as SsaPass<T>>::attempt(pass, ssa, method, around),
            BuiltinPass::ControlFlow(pass) => <ControlFlowSimplificationPass as SsaPass<T>>::attempt(pass, ssa, method, around),
            BuiltinPass::Copy(pass) => <CopyPropagationPass as SsaPass<T>>::attempt(pass, ssa, method, around),
            BuiltinPass::DeadCode(pass) => <DeadCodeEliminationPass as SsaPass<T>>::attempt(pass, ssa, method, around),
            BuiltinPass::DeadMethod(pass) => <DeadMethodEliminationPass as SsaPass<T>>::attempt(pass, ssa, method, around),
            BuiltinPass::ValueNumbering(pass) => <GlobalValueNumberingPass as SsaPass<T>>::attempt(pass, ssa, method, around),
            BuiltinPass::Licm(pass) => <LicmPass as SsaPass<T>>::attempt(pass, ssa, method, around),
            BuiltinPass::LoopCanonicalization(pass) => <LoopCanonicalizationPass as SsaPass<T>>::attempt(pass, ssa, method, around),
            BuiltinPass::ValueRange(pass) => <ValueRangePropagationPass as SsaPass<T>>::attempt(pass, ssa, method, around),
            BuiltinPass::Algebraic(pass) => <AlgebraicSimplificationPass as SsaPass<T>>::attempt(pass, ssa, method, around),
            BuiltinPass::Reassociation(pass) => <ReassociationPass as SsaPass<T>>::attempt(pass, ssa, method, around),
            BuiltinPass::Strength(pass) => <StrengthReductionPass as SsaPass<T>>::attempt(pass, ssa, method, around),
            BuiltinPass::Threading(pass) => <JumpThreadingPass as SsaPass<T>>::attempt(pass, ssa, method, around),
            BuiltinPass::OpaquePredicate(pass) => <OpaquePredicatePass<T> as SsaPass<T>>::attempt(pass, ssa, method, around),
        }
    }

    open spec fn world_attempt(state: Self, program: CallView<T>) -> WorldAttempt<T> {
        match state {
            BuiltinPass::BlockMerging(pass) => <BlockMergingPass as SsaPass<T>>::world_attempt(pass, program),
            BuiltinPass::ControlFlow(pass) => <ControlFlowSimplificationPass as SsaPass<T>>::world_attempt(pass, program),
            BuiltinPass::Copy(pass) => <CopyPropagationPass as SsaPass<T>>::world_attempt(pass, program),
            BuiltinPass::DeadCode(pass) => <DeadCodeEliminationPass as SsaPass<T>>::world_attempt(pass, program),
            BuiltinPass::DeadMethod(pass) => <DeadMethodEliminationPass as SsaPass<T>>::world_attempt(pass, program),
            BuiltinPass::ValueNumbering(pass) => <GlobalValueNumberingPass as SsaPass<T>>::world_attempt(pass, program),
            BuiltinPass::Licm(pass) => <LicmPass as SsaPass<T>>::world_attempt(pass, program),
            BuiltinPass::LoopCanonicalization(pass) => <LoopCanonicalizationPass as SsaPass<T>>::world_attempt(pass, program),
            BuiltinPass::ValueRange(pass) => <ValueRangePropagationPass as SsaPass<T>>::world_attempt(pass, program),
            BuiltinPass::Algebraic(pass) => <AlgebraicSimplificationPass as SsaPass<T>>::world_attempt(pass, program),
            BuiltinPass::Reassociation(pass) => <ReassociationPass as SsaPass<T>>::world_attempt(pass, program),
            BuiltinPass::Strength(pass) => <StrengthReductionPass as SsaPass<T>>::world_attempt(pass, program),
            BuiltinPass::Threading(pass) => <JumpThreadingPass as SsaPass<T>>::world_attempt(pass, program),
            BuiltinPass::OpaquePredicate(pass) => <OpaquePredicatePass<T> as SsaPass<T>>::world_attempt(pass, program),
        }
    }

    open spec fn initialized(state: Self, _program: CallView<T>) -> Notice<Self> {
        Notice::ignored(state)
    }

    open spec fn finalized(state: Self, _program: CallView<T>) -> Notice<Self> {
        Notice::ignored(state)
    }

    fn profile(&self) -> (r: PassProfile<T>) {
        match self {
            BuiltinPass::BlockMerging(pass) => SsaPass::<T>::profile(pass),
            BuiltinPass::ControlFlow(pass) => SsaPass::<T>::profile(pass),
            BuiltinPass::Copy(pass) => SsaPass::<T>::profile(pass),
            BuiltinPass::DeadCode(pass) => SsaPass::<T>::profile(pass),
            BuiltinPass::DeadMethod(pass) => SsaPass::<T>::profile(pass),
            BuiltinPass::ValueNumbering(pass) => SsaPass::<T>::profile(pass),
            BuiltinPass::Licm(pass) => SsaPass::<T>::profile(pass),
            BuiltinPass::LoopCanonicalization(pass) => SsaPass::<T>::profile(pass),
            BuiltinPass::ValueRange(pass) => SsaPass::<T>::profile(pass),
            BuiltinPass::Algebraic(pass) => SsaPass::<T>::profile(pass),
            BuiltinPass::Reassociation(pass) => SsaPass::<T>::profile(pass),
            BuiltinPass::Strength(pass) => SsaPass::<T>::profile(pass),
            BuiltinPass::Threading(pass) => SsaPass::<T>::profile(pass),
            BuiltinPass::OpaquePredicate(pass) => SsaPass::<T>::profile(pass),
        }
    }

    fn should_run<W: World<T>>(&self, _method: &T::MethodRef, _host: &W) -> (r: bool) {
        true
    }

    fn initialize<W: World<T>>(&mut self, _host: &W) -> (r: Result<(), String>) {
        Ok(())
    }

    fn finalize<W: World<T>>(&mut self, _host: &W) -> (r: Result<(), String>) {
        Ok(())
    }

    fn run_on_method<W: World<T>>(
        &self,
        ssa: &mut SsaFunction<T>,
        method: &T::MethodRef,
        context: &PassContext<'_, T, W>,
        events: &mut EventLog<T>,
    ) -> (r: Result<bool, String>) {
        match self {
            BuiltinPass::BlockMerging(pass) => SsaPass::<T>::run_on_method(pass, ssa, method, context, events),
            BuiltinPass::ControlFlow(pass) => SsaPass::<T>::run_on_method(pass, ssa, method, context, events),
            BuiltinPass::Copy(pass) => SsaPass::<T>::run_on_method(pass, ssa, method, context, events),
            BuiltinPass::DeadCode(pass) => SsaPass::<T>::run_on_method(pass, ssa, method, context, events),
            BuiltinPass::DeadMethod(pass) => SsaPass::<T>::run_on_method(pass, ssa, method, context, events),
            BuiltinPass::ValueNumbering(pass) => SsaPass::<T>::run_on_method(pass, ssa, method, context, events),
            BuiltinPass::Licm(pass) => SsaPass::<T>::run_on_method(pass, ssa, method, context, events),
            BuiltinPass::LoopCanonicalization(pass) => SsaPass::<T>::run_on_method(pass, ssa, method, context, events),
            BuiltinPass::ValueRange(pass) => SsaPass::<T>::run_on_method(pass, ssa, method, context, events),
            BuiltinPass::Algebraic(pass) => SsaPass::<T>::run_on_method(pass, ssa, method, context, events),
            BuiltinPass::Reassociation(pass) => SsaPass::<T>::run_on_method(pass, ssa, method, context, events),
            BuiltinPass::Strength(pass) => SsaPass::<T>::run_on_method(pass, ssa, method, context, events),
            BuiltinPass::Threading(pass) => SsaPass::<T>::run_on_method(pass, ssa, method, context, events),
            BuiltinPass::OpaquePredicate(pass) => SsaPass::<T>::run_on_method(pass, ssa, method, context, events),
        }
    }

    fn run_global<W: World<T>>(&self, world: &mut W, events: &mut EventLog<T>) -> (r: Result<
        bool,
        String,
    >) {
        match self {
            BuiltinPass::BlockMerging(pass) => SsaPass::<T>::run_global(pass, world, events),
            BuiltinPass::ControlFlow(pass) => SsaPass::<T>::run_global(pass, world, events),
            BuiltinPass::Copy(pass) => SsaPass::<T>::run_global(pass, world, events),
            BuiltinPass::DeadCode(pass) => SsaPass::<T>::run_global(pass, world, events),
            BuiltinPass::DeadMethod(pass) => SsaPass::<T>::run_global(pass, world, events),
            BuiltinPass::ValueNumbering(pass) => SsaPass::<T>::run_global(pass, world, events),
            BuiltinPass::Licm(pass) => SsaPass::<T>::run_global(pass, world, events),
            BuiltinPass::LoopCanonicalization(pass) => SsaPass::<T>::run_global(pass, world, events),
            BuiltinPass::ValueRange(pass) => SsaPass::<T>::run_global(pass, world, events),
            BuiltinPass::Algebraic(pass) => SsaPass::<T>::run_global(pass, world, events),
            BuiltinPass::Reassociation(pass) => SsaPass::<T>::run_global(pass, world, events),
            BuiltinPass::Strength(pass) => SsaPass::<T>::run_global(pass, world, events),
            BuiltinPass::Threading(pass) => SsaPass::<T>::run_global(pass, world, events),
            BuiltinPass::OpaquePredicate(pass) => SsaPass::<T>::run_global(pass, world, events),
        }
    }
}

} // verus!
