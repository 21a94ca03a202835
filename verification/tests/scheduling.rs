//! The pipeline.
use analyssa::analysis::soundness::VerifyLevel;
use analyssa::events::EventLog;
use analyssa::ir::function::{SsaFunction, SsaView};
use analyssa::ir::block::{SsaBlock, SsaInstruction};
use analyssa::ir::defects::{describe_all, Defect};
use analyssa::ir::ops::SsaOp;
use analyssa::ir::phi::{PhiNode, PhiOperand};
use analyssa::ir::value::ConstValue;
use analyssa::ir::variable::{SsaVarId, VariableOrigin};
use analyssa::passes::scheduling::BuiltinPass;
use analyssa::passes::{BlockMergingPass, CopyPropagationPass, DeadCodeEliminationPass};
use analyssa::pointer::PointerSize;
use analyssa::scheduling::layers::{assign_layers, group_layers};
use analyssa::scheduling::pass::{
    Attempt, Notice, PassContext, ProfileView, Surroundings, WorldAttempt,
};
use analyssa::scheduling::run::{PassFailure, Program};
use analyssa::scheduling::scheduler::PipelineError;
use analyssa::scheduling::visit::{Failure, InOrder};
use analyssa::scheduling::{
    ModificationScope, PassProfile, PassScheduler, PipelineConfig, SsaPass,
};
use analyssa::testing::{
    const_i32_return, create_i32_local, diamond_phi_fixture, loop_counter_fixture, mock_op_count,
    scalar_rewrite_fixture, MockTarget, MockWorld,
};
use analyssa::world::{CallView, World};
use std::sync::atomic::{AtomicUsize, Ordering};

/// What a probe does to a function.
enum Deed {
    Nothing,
    AppendNop,
    RemoveTerminator,
    Fail,
    Break,
    CountPeers,
}

/// A pass made up for a test.
struct Probe {
    name: &'static str,
    provides: bool,
    needs: bool,
    layer: usize,
    full_scan: bool,
    scope: ModificationScope,
    repairs: bool,
    only: Option<u32>,
    deed: Deed,
    visits: AtomicUsize,
    seen: AtomicUsize,
    methods: AtomicUsize,
    reads_peers: bool,
    begun: usize,
    ended: usize,
    refuses_begin: bool,
    refuses_end: bool,
}

fn probe(name: &'static str, deed: Deed) -> Probe {
    Probe {
        name,
        provides: false,
        needs: false,
        layer: 0,
        full_scan: false,
        scope: ModificationScope::InstructionsOnly,
        repairs: false,
        only: None,
        deed,
        visits: AtomicUsize::new(0),
        seen: AtomicUsize::new(0),
        methods: AtomicUsize::new(0),
        reads_peers: false,
        begun: 0,
        ended: 0,
        refuses_begin: false,
        refuses_end: false,
    }
}

impl SsaPass<MockTarget> for Probe {
    type State = ();

    fn state(&self) {
        unreachable!()
    }

    fn profiled(_state: ()) -> ProfileView<MockTarget> {
        unreachable!()
    }

    fn runs_on(_state: (), _method: u32, _program: CallView<MockTarget>) -> bool {
        unreachable!()
    }

    fn attempt(
        _state: (),
        _ssa: SsaView<MockTarget>,
        _method: u32,
        _around: Surroundings<MockTarget>,
    ) -> Attempt<MockTarget> {
        unreachable!()
    }

    fn world_attempt(_state: (), _program: CallView<MockTarget>) -> WorldAttempt<MockTarget> {
        unreachable!()
    }

    fn initialized(_state: (), _program: CallView<MockTarget>) -> Notice<()> {
        unreachable!()
    }

    fn finalized(_state: (), _program: CallView<MockTarget>) -> Notice<()> {
        unreachable!()
    }

    fn profile(&self) -> PassProfile<MockTarget> {
        let mut profile = PassProfile::new(self.name);
        if self.provides {
            profile.provides = vec![()];
        }
        if self.needs {
            profile.needs = vec![()];
        }
        profile.fallback_layer = self.layer;
        profile.requires_full_scan = self.full_scan;
        profile.scope = self.scope;
        profile.repairs_ssa = self.repairs;
        profile.reads_peer_ssa = self.reads_peers;
        profile
    }

    fn should_run<W: World<MockTarget>>(&self, method: &u32, host: &W) -> bool {
        assert!(host.method_count() > 0);
        self.only.is_none() || self.only == Some(*method)
    }

    fn initialize<W: World<MockTarget>>(&mut self, _host: &W) -> Result<(), String> {
        self.begun += 1;
        match self.refuses_begin {
            true => Err("no start".to_string()),
            false => Ok(()),
        }
    }

    fn finalize<W: World<MockTarget>>(&mut self, _host: &W) -> Result<(), String> {
        self.ended += 1;
        match self.refuses_end {
            true => Err("no end".to_string()),
            false => Ok(()),
        }
    }

    fn run_on_method<W: World<MockTarget>>(
        &self,
        ssa: &mut SsaFunction<MockTarget>,
        _method: &u32,
        context: &PassContext<'_, MockTarget, W>,
        _events: &mut EventLog<MockTarget>,
    ) -> Result<bool, String> {
        self.visits.fetch_add(1, Ordering::Relaxed);
        assert_eq!(context.ptr_size, PointerSize::Bit64);
        match self.deed {
            Deed::Nothing => Ok(false),
            Deed::CountPeers => {
                let peers = context.peers.iter().filter(|peer| peer.is_some()).count();
                self.seen.store(peers, Ordering::Relaxed);
                self.methods.store(context.host.method_count(), Ordering::Relaxed);
                Ok(false)
            }
            Deed::AppendNop => {
                if self.visits.load(Ordering::Relaxed) > 1 {
                    return Ok(false);
                }
                let block = &mut ssa.blocks[0];
                block.add_instruction(analyssa::ir::block::SsaInstruction::synthetic(SsaOp::Nop));
                Ok(true)
            }
            Deed::RemoveTerminator => {
                ssa.blocks[0].clear_instructions();
                Err("gave up".to_string())
            }
            Deed::Fail => Err("no".to_string()),
            Deed::Break => {
                ssa.set_op(0, 0, SsaOp::Pop { value: SsaVarId::from_index(999) });
                Ok(true)
            }
        }
    }

    fn run_global<W: World<MockTarget>>(
        &self,
        _world: &mut W,
        _events: &mut EventLog<MockTarget>,
    ) -> Result<bool, String> {
        Ok(false)
    }
}

fn one_method() -> MockWorld {
    MockWorld::new(vec![1], vec![1], vec![])
}

fn scheduler_of(config: PipelineConfig, passes: Vec<Probe>) -> PassScheduler<MockTarget, Probe> {
    let mut scheduler = PassScheduler::empty(config);
    for pass in passes {
        scheduler.add(pass);
    }
    scheduler
}

fn names(passes: &[BuiltinPass<MockTarget>]) -> Vec<&'static str> {
    passes.iter().map(|pass| pass.profile().name).collect()
}

#[test]
fn default_configuration() {
    let config = PipelineConfig::default();
    assert_eq!(config.max_iterations, 10);
    assert_eq!(config.stable_iterations, 1);
    assert_eq!(config.max_phase_iterations, 10);
    assert_eq!(config.block_merge_iterations, 10);
    assert_eq!(config.control_flow_iterations, 10);
    assert_eq!(config.copy_iterations, 10);
    assert_eq!(config.dead_code_iterations, 50);
    assert_eq!(config.range_iterations, 20);
    assert!(config.include_dead_method_elimination);
    assert!(!config.verify_hard);
}

#[test]
fn passes_repeat_ten_times_unless_told_otherwise() {
    assert_eq!(BlockMergingPass::default().max_iterations, 10);
    assert_eq!(CopyPropagationPass::default().max_iterations, 10);
    assert_eq!(DeadCodeEliminationPass::new(3).max_iterations, 3);
}

#[test]
fn default_profile_is_conservative() {
    let profile: PassProfile<MockTarget> = PassProfile::new("plain");
    assert_eq!(profile.name, "plain");
    assert_eq!(profile.description, "No description available");
    assert_eq!(profile.scope, ModificationScope::CfgModifying);
    assert!(!profile.is_global);
    assert!(!profile.repairs_ssa);
    assert!(profile.provides.is_empty());
    assert!(profile.needs.is_empty());
    assert!(!profile.reads_peer_ssa);
    assert!(!profile.requires_full_scan);
    assert_eq!(profile.fallback_layer, 0);
}

#[test]
fn empty_scheduler_has_no_passes() {
    let scheduler: PassScheduler<MockTarget, Probe> =
        PassScheduler::empty(PipelineConfig::default());
    assert_eq!(scheduler.pass_count(), 0);
    assert_eq!(scheduler.normalize_count(), 0);
}

#[test]
fn default_scheduler_registers_the_passes_in_order() {
    let scheduler: PassScheduler<MockTarget, BuiltinPass<MockTarget>> =
        PassScheduler::new(PipelineConfig::default());
    assert_eq!(
        names(&scheduler.normalize),
        vec!["global-value-numbering", "copy-propagation", "dead-code-elimination"]
    );
    assert_eq!(
        names(&scheduler.passes),
        vec![
            "dead-method-elimination",
            "control-flow-simplification",
            "jump-threading",
            "loop-canonicalization",
            "block-merging",
            "algebraic-simplification",
            "reassociation",
            "strength-reduction",
            "value-range-propagation",
            "opaque-predicate",
            "licm",
        ]
    );
    assert_eq!(scheduler.fallback, vec![0, 0, 0, 0, 0, 1, 1, 1, 1, 1, 1]);

    let mut config = PipelineConfig::default();
    config.include_dead_method_elimination = false;
    let scheduler: PassScheduler<MockTarget, BuiltinPass<MockTarget>> = PassScheduler::new(config);
    assert_eq!(scheduler.pass_count(), 10);
    assert_eq!(scheduler.normalize_count(), 3);
}

#[test]
fn consumers_come_after_providers() {
    let mut consumer = probe("consumer", Deed::Nothing);
    consumer.needs = true;
    let mut provider = probe("provider", Deed::Nothing);
    provider.provides = true;
    provider.layer = 2;
    let scheduler = scheduler_of(PipelineConfig::default(), vec![consumer, provider]);
    assert_eq!(scheduler.compute_layer_assignment(), Ok(vec![3, 2]));
}

#[test]
fn passes_without_milestones_keep_their_layers() {
    let mut scheduler = scheduler_of(
        PipelineConfig::default(),
        vec![probe("a", Deed::Nothing), probe("b", Deed::Nothing)],
    );
    scheduler.add_at_layer(probe("c", Deed::Nothing), 7);
    scheduler.add_normalize(probe("n", Deed::Nothing));
    assert_eq!(scheduler.compute_layer_assignment(), Ok(vec![0, 0, 7]));
    assert_eq!(scheduler.pass_count(), 3);
    assert_eq!(scheduler.normalize_count(), 1);
}

#[test]
fn a_pass_does_not_rely_on_itself() {
    let mut pass = probe("both", Deed::Nothing);
    pass.needs = true;
    pass.provides = true;
    let scheduler = scheduler_of(PipelineConfig::default(), vec![pass]);
    assert_eq!(scheduler.compute_layer_assignment(), Ok(vec![0]));
}

#[test]
fn circles_are_refused() {
    let mut a = probe("first", Deed::Nothing);
    a.needs = true;
    a.provides = true;
    let mut b = probe("second", Deed::Nothing);
    b.needs = true;
    b.provides = true;
    let mut scheduler = scheduler_of(PipelineConfig::default(), vec![a, b]);
    let circle = scheduler.compute_layer_assignment().unwrap_err();
    assert_eq!(circle.len(), 2);
    assert!(circle.contains(&0) && circle.contains(&1));
    let message = scheduler.cycle_message(&vec![0, 1]);
    assert_eq!(
        message,
        "Cycle detected in pass capability dependencies: first \u{2192} second"
    );

    let mut host = one_method();
    let mut store = Program::new(vec![Some(const_i32_return(1))]);
    let result = scheduler.run_pipeline(&mut host, &mut store, &InOrder);
    assert!(matches!(result, Err(PipelineError::Cycle(_))));
    assert_eq!(store.dirty, vec![true]);
    assert!(store.events.is_empty());
}

#[test]
fn layers_are_as_low_as_they_can_be() {
    let deps = vec![vec![1, 2], vec![2], vec![], vec![0]];
    assert_eq!(assign_layers(&deps, &vec![0, 0, 0, 0]), Ok(vec![2, 1, 0, 3]));
    assert_eq!(assign_layers(&deps, &vec![0, 4, 1, 9]), Ok(vec![5, 4, 1, 9]));
    assert_eq!(assign_layers(&vec![], &vec![]), Ok(vec![]));
    assert!(assign_layers(&vec![vec![1], vec![2], vec![0]], &vec![0, 0, 0]).is_err());
}

#[test]
fn groups_follow_the_layers() {
    assert_eq!(
        group_layers(&vec![3, 0, 3, 7, 0]),
        vec![vec![1, 4], vec![0, 2], vec![3]]
    );
    assert_eq!(group_layers(&vec![usize::MAX, 0]), vec![vec![1], vec![0]]);
    assert!(group_layers(&vec![]).is_empty());
}

#[test]
fn a_pipeline_without_iterations_does_nothing() {
    let mut config = PipelineConfig::default();
    config.max_iterations = 0;
    let mut scheduler: PassScheduler<MockTarget, BuiltinPass<MockTarget>> = PassScheduler::new(config);
    let mut host = one_method();
    let mut store = Program::new(vec![Some(scalar_rewrite_fixture())]);
    assert_eq!(scheduler.run_pipeline(&mut host, &mut store, &InOrder), Ok(0));
    assert!(store.events.is_empty());
    assert_eq!(store.processed, vec![false]);
}

#[test]
fn the_default_pipeline_simplifies_and_comes_to_rest() {
    let mut scheduler: PassScheduler<MockTarget, BuiltinPass<MockTarget>> =
        PassScheduler::new(PipelineConfig::default());
    let mut host = MockWorld::new(vec![1, 2, 3, 4], vec![1], vec![(1, 2), (2, 3)]);
    let mut store = Program::new(vec![
        Some(scalar_rewrite_fixture()),
        Some(diamond_phi_fixture()),
        Some(loop_counter_fixture()),
        None,
    ]);
    let iterations = scheduler
        .run_pipeline(&mut host, &mut store, &InOrder)
        .expect("the pipeline gets through");
    assert!(iterations >= 2 && iterations < 10);
    assert_eq!(store.dirty, vec![false, false, false, false]);
    assert_eq!(store.processed[0], true);
    assert_eq!(store.processed[3], false);
    assert!(!store.events.is_empty());
    assert!(host.is_dead(&4));
    assert_eq!(host.dead_set(), vec![4]);
    for body in store.bodies.iter().flatten() {
        assert!(body.verify());
    }
    let first = store.bodies[0].as_ref().expect("the function is still there");
    let branches = mock_op_count(first, |op| matches!(op, SsaOp::Branch { .. }));
    assert_eq!(branches, 0);
    let products = mock_op_count(first, |op| matches!(op, SsaOp::Mul { .. }));
    assert_eq!(products, 0);
}

#[test]
fn a_quiet_pipeline_waits_for_stability() {
    let mut config = PipelineConfig::default();
    config.stable_iterations = 3;
    let mut scheduler = scheduler_of(config, vec![probe("quiet", Deed::Nothing)]);
    let mut host = one_method();
    let mut store = Program::new(vec![Some(const_i32_return(1))]);
    assert_eq!(scheduler.run_pipeline(&mut host, &mut store, &InOrder), Ok(3));
    // The method is clean after the first iteration, so that it is visited once.
    assert_eq!(scheduler.passes[0].visits.load(Ordering::Relaxed), 1);
    assert_eq!(store.dirty, vec![false]);
}

#[test]
fn a_full_scan_visits_clean_methods_too() {
    let mut config = PipelineConfig::default();
    config.stable_iterations = 3;
    let mut pass = probe("scan", Deed::Nothing);
    pass.full_scan = true;
    let mut scheduler = scheduler_of(config, vec![pass]);
    let mut host = one_method();
    let mut store = Program::new(vec![Some(const_i32_return(1))]);
    assert_eq!(scheduler.run_pipeline(&mut host, &mut store, &InOrder), Ok(3));
    assert_eq!(scheduler.passes[0].visits.load(Ordering::Relaxed), 3);
}

#[test]
fn normalization_runs_at_least_once() {
    let mut scheduler = scheduler_of(PipelineConfig::default(), vec![probe("quiet", Deed::Nothing)]);
    scheduler.add_normalize(probe("tidy", Deed::Nothing));
    let mut host = one_method();
    let mut store = Program::new(vec![Some(const_i32_return(1))]);
    assert_eq!(scheduler.run_pipeline(&mut host, &mut store, &InOrder), Ok(1));
    assert_eq!(scheduler.normalize[0].visits.load(Ordering::Relaxed), 1);
}

#[test]
fn normalization_follows_a_change() {
    let mut scheduler =
        scheduler_of(PipelineConfig::default(), vec![probe("append", Deed::AppendNop)]);
    scheduler.add_normalize(probe("tidy", Deed::Nothing));
    let mut host = one_method();
    let mut store = Program::new(vec![Some(const_i32_return(1))]);
    // The first iteration changes something, the second does not.
    assert_eq!(scheduler.run_pipeline(&mut host, &mut store, &InOrder), Ok(2));
    // Once after the change, once after the quiet round that ends the layer.
    assert_eq!(scheduler.normalize[0].visits.load(Ordering::Relaxed), 2);
    assert_eq!(store.processed, vec![true]);
    // The repair after the pass takes the empty instruction out again.
    let body = store.bodies[0].as_ref().expect("the function is still there");
    assert_eq!(mock_op_count(body, |op| matches!(op, SsaOp::Nop)), 0);
}

#[test]
fn a_pass_that_repairs_itself_is_not_repaired_again() {
    let mut pass = probe("append", Deed::AppendNop);
    pass.repairs = true;
    let mut scheduler = scheduler_of(PipelineConfig::default(), vec![pass]);
    let mut host = one_method();
    let mut store = Program::new(vec![Some(const_i32_return(1))]);
    assert_eq!(scheduler.run_pipeline(&mut host, &mut store, &InOrder), Ok(2));
    let body = store.bodies[0].as_ref().expect("the function is still there");
    assert_eq!(mock_op_count(body, |op| matches!(op, SsaOp::Nop)), 1);
}

#[test]
fn passes_choose_their_methods() {
    let mut pass = probe("choosy", Deed::Nothing);
    pass.only = Some(2);
    let mut scheduler = scheduler_of(PipelineConfig::default(), vec![pass]);
    let mut host = MockWorld::new(vec![1, 2], vec![1], vec![(1, 2)]);
    let mut store =
        Program::new(vec![Some(const_i32_return(1)), Some(const_i32_return(2))]);
    assert_eq!(scheduler.run_pipeline(&mut host, &mut store, &InOrder), Ok(1));
    assert_eq!(scheduler.passes[0].visits.load(Ordering::Relaxed), 1);
}

#[test]
fn a_failing_pass_ends_the_pipeline() {
    let mut scheduler = scheduler_of(
        PipelineConfig::default(),
        vec![probe("fails", Deed::Fail), probe("later", Deed::Nothing)],
    );
    let mut host = one_method();
    let mut store = Program::new(vec![Some(const_i32_return(1))]);
    assert_eq!(
        scheduler.run_pipeline(&mut host, &mut store, &InOrder),
        Err(PipelineError::Pass(PassFailure {
            pass: "fails",
            position: Some(0),
            failure: Failure::Run("no".to_string()),
        }))
    );
    assert_eq!(scheduler.passes[1].visits.load(Ordering::Relaxed), 0);
    assert!(store.bodies[0].is_some());
}

#[test]
fn hard_verification_restores_after_a_failure() {
    for hard in [false, true] {
        let mut config = PipelineConfig::default();
        config.verify_hard = hard;
        let mut scheduler = scheduler_of(config, vec![probe("half", Deed::RemoveTerminator)]);
        let mut host = one_method();
        let mut store = Program::new(vec![Some(const_i32_return(1))]);
        assert!(scheduler.run_pipeline(&mut host, &mut store, &InOrder).is_err());
        let body = store.bodies[0].as_ref().expect("the function is still there");
        let left = body.block(0).map(|block| block.instructions().len());
        assert_eq!(left, Some(if hard { 2 } else { 0 }));
    }
}

#[test]
fn hard_verification_refuses_an_invalid_function() {
    let mut config = PipelineConfig::default();
    config.verify_hard = true;
    let mut scheduler = scheduler_of(config, vec![probe("breaks", Deed::Break)]);
    let mut host = one_method();
    let mut store = Program::new(vec![Some(const_i32_return(1))]);
    assert_eq!(
        scheduler.run_pipeline(&mut host, &mut store, &InOrder),
        Err(PipelineError::Pass(PassFailure {
            pass: "breaks",
            position: Some(0),
            failure: Failure::Invalid(vec![Defect::ForeignInstruction {
                block: 0,
                instruction: 0,
            }]),
        }))
    );
    assert!(store.bodies[0].as_ref().expect("the function is still there").verify());
    assert_eq!(store.processed, vec![false]);
}

#[test]
fn a_change_of_control_flow_must_leave_a_valid_function() {
    let mut pass = probe("breaks", Deed::Break);
    pass.scope = ModificationScope::CfgModifying;
    let mut scheduler = scheduler_of(PipelineConfig::default(), vec![pass]);
    let mut host = one_method();
    let mut store = Program::new(vec![Some(const_i32_return(1))]);
    assert_eq!(
        scheduler.run_pipeline(&mut host, &mut store, &InOrder),
        Err(PipelineError::Pass(PassFailure {
            pass: "breaks",
            position: Some(0),
            failure: Failure::Rebuild(vec![Defect::ForeignInstruction {
                block: 0,
                instruction: 0,
            }]),
        }))
    );
}

#[test]
fn scopes_are_ordered() {
    assert!(ModificationScope::UsesOnly < ModificationScope::InstructionsOnly);
    assert!(ModificationScope::InstructionsOnly < ModificationScope::CfgModifying);
}

#[test]
fn changed_methods_are_looked_at_again() {
    let mut scheduler =
        scheduler_of(PipelineConfig::default(), vec![probe("append", Deed::AppendNop)]);
    let mut host = one_method();
    let mut store = Program::new(vec![Some(const_i32_return(1))]);
    assert_eq!(scheduler.run_pipeline(&mut host, &mut store, &InOrder), Ok(2));
    // Two rounds in the first iteration, one in the second.
    assert_eq!(scheduler.passes[0].visits.load(Ordering::Relaxed), 3);
}

#[test]
fn unchanged_methods_are_not_looked_at_again() {
    let mut append = probe("append", Deed::AppendNop);
    append.only = Some(1);
    let mut watch = probe("watch", Deed::Nothing);
    watch.only = Some(2);
    let mut scheduler = scheduler_of(PipelineConfig::default(), vec![append, watch]);
    let mut host = MockWorld::new(vec![1, 2], vec![1], vec![(1, 2)]);
    let mut store = Program::new(vec![Some(const_i32_return(1)), Some(const_i32_return(2))]);
    assert_eq!(scheduler.run_pipeline(&mut host, &mut store, &InOrder), Ok(2));
    assert_eq!(scheduler.passes[1].visits.load(Ordering::Relaxed), 2);
    assert_eq!(store.processed, vec![true, false]);
}

#[test]
fn a_pass_is_told_of_every_round() {
    let mut config = PipelineConfig::default();
    config.stable_iterations = 3;
    let mut scheduler = scheduler_of(config, vec![probe("quiet", Deed::Nothing)]);
    scheduler.add_normalize(probe("tidies", Deed::Nothing));
    let mut host = one_method();
    let mut store = Program::new(vec![Some(const_i32_return(1))]);
    assert_eq!(scheduler.run_pipeline(&mut host, &mut store, &InOrder), Ok(3));
    assert_eq!((scheduler.passes[0].begun, scheduler.passes[0].ended), (3, 3));
    // Without a change only the first iteration normalizes.
    assert_eq!((scheduler.normalize[0].begun, scheduler.normalize[0].ended), (1, 1));
}

#[test]
fn a_refused_start_runs_nothing() {
    let mut second = probe("stops", Deed::Nothing);
    second.refuses_begin = true;
    let passes = vec![probe("first", Deed::AppendNop), second, probe("third", Deed::Nothing)];
    let mut scheduler = scheduler_of(PipelineConfig::default(), passes);
    let mut host = one_method();
    let mut store = Program::new(vec![Some(const_i32_return(1))]);
    assert_eq!(
        scheduler.run_pipeline(&mut host, &mut store, &InOrder),
        Err(PipelineError::Pass(PassFailure {
            pass: "stops",
            position: None,
            failure: Failure::Run("no start".to_string()),
        }))
    );
    let begun: Vec<usize> = scheduler.passes.iter().map(|pass| pass.begun).collect();
    let ended: Vec<usize> = scheduler.passes.iter().map(|pass| pass.ended).collect();
    assert_eq!((begun, ended), (vec![1, 1, 0], vec![0, 0, 0]));
    assert_eq!(scheduler.passes[0].visits.load(Ordering::Relaxed), 0);
}

#[test]
fn a_refused_end_ends_the_pipeline() {
    let mut first = probe("stops", Deed::AppendNop);
    first.refuses_end = true;
    let passes = vec![first, probe("second", Deed::Nothing)];
    let mut scheduler = scheduler_of(PipelineConfig::default(), passes);
    let mut host = one_method();
    let mut store = Program::new(vec![Some(const_i32_return(1))]);
    assert_eq!(
        scheduler.run_pipeline(&mut host, &mut store, &InOrder),
        Err(PipelineError::Pass(PassFailure {
            pass: "stops",
            position: None,
            failure: Failure::Run("no end".to_string()),
        }))
    );
    assert_eq!(scheduler.passes[0].visits.load(Ordering::Relaxed), 1);
    assert_eq!((scheduler.passes[0].ended, scheduler.passes[1].ended), (1, 0));
}

#[test]
fn a_failing_pass_is_not_told_of_the_end() {
    let passes = vec![probe("fails", Deed::Fail)];
    let mut scheduler = scheduler_of(PipelineConfig::default(), passes);
    let mut host = one_method();
    let mut store = Program::new(vec![Some(const_i32_return(1))]);
    assert!(scheduler.run_pipeline(&mut host, &mut store, &InOrder).is_err());
    assert_eq!((scheduler.passes[0].begun, scheduler.passes[0].ended), (1, 0));
}

#[test]
fn a_pass_sees_its_peers_where_it_asks_for_them() {
    for asks in [false, true] {
        let mut pass = probe("looks", Deed::CountPeers);
        pass.reads_peers = asks;
        let mut scheduler = scheduler_of(PipelineConfig::default(), vec![pass]);
        let mut host = MockWorld::new(vec![1, 2, 3], vec![1], vec![]);
        let bodies = vec![Some(const_i32_return(1)), None, Some(const_i32_return(3))];
        let mut store = Program::new(bodies);
        assert_eq!(scheduler.run_pipeline(&mut host, &mut store, &InOrder), Ok(1));
        assert_eq!(scheduler.passes[0].seen.load(Ordering::Relaxed), if asks { 2 } else { 0 });
        assert_eq!(scheduler.passes[0].methods.load(Ordering::Relaxed), 3);
    }
}

/// `v1` stands for `v0` in the second block.
fn forwarding_phi() -> SsaFunction<MockTarget> {
    let mut ssa = SsaFunction::new(0, 2);
    let v0 = create_i32_local(&mut ssa, 0, 0);
    let v1 = create_i32_local(&mut ssa, 1, 0);
    let mut first = SsaBlock::new(0);
    first.add_instruction(SsaInstruction::synthetic(SsaOp::Const {
        dest: v0,
        value: ConstValue::I32(7),
    }));
    first.add_instruction(SsaInstruction::synthetic(SsaOp::Jump { target: 1 }));
    ssa.add_block(first);
    let mut second = SsaBlock::new(1);
    let mut phi = PhiNode::new(v1, VariableOrigin::Local(1));
    phi.add_operand(PhiOperand::new(v0, 0));
    second.add_phi(phi);
    second.add_instruction(SsaInstruction::synthetic(SsaOp::Return { value: Some(v1) }));
    ssa.add_block(second);
    ssa.recompute_uses();
    ssa
}

#[test]
fn a_repair_removes_trivial_phis() {
    for scope in [
        ModificationScope::UsesOnly,
        ModificationScope::InstructionsOnly,
        ModificationScope::CfgModifying,
    ] {
        let mut pass = probe("appends", Deed::AppendNop);
        pass.scope = scope;
        let mut scheduler = scheduler_of(PipelineConfig::default(), vec![pass]);
        let mut host = one_method();
        let mut store = Program::new(vec![Some(forwarding_phi())]);
        assert_eq!(scheduler.run_pipeline(&mut host, &mut store, &InOrder), Ok(2));
        let body = store.bodies[0].as_ref().expect("the function is still there");
        assert!(body.verify());
        let second = body.block(1).expect("the second block is still there");
        assert_eq!(second.phis.len(), 0);
        let copies = mock_op_count(body, |op| matches!(op, SsaOp::Copy { .. }));
        assert_eq!(copies, 1);
    }
}

fn with_blocks(n: usize, blocks: Vec<Vec<SsaOp<MockTarget>>>) -> SsaFunction<MockTarget> {
    let mut ssa = SsaFunction::new(1, n);
    for i in 0..n {
        create_i32_local(&mut ssa, 0, i);
    }
    for (id, ops) in blocks.into_iter().enumerate() {
        let mut block = SsaBlock::new(id);
        for op in ops {
            block.add_instruction(SsaInstruction::synthetic(op));
        }
        ssa.add_block(block);
    }
    ssa.recompute_uses();
    ssa
}

fn number(dest: SsaVarId, n: i32) -> SsaOp<MockTarget> {
    SsaOp::Const { dest, value: ConstValue::I32(n) }
}

fn rebuilt(ssa: SsaFunction<MockTarget>) -> SsaFunction<MockTarget> {
    let mut pass = probe("appends", Deed::AppendNop);
    pass.scope = ModificationScope::CfgModifying;
    let mut scheduler = scheduler_of(PipelineConfig::default(), vec![pass]);
    let mut host = one_method();
    let mut store = Program::new(vec![Some(ssa)]);
    assert_eq!(scheduler.run_pipeline(&mut host, &mut store, &InOrder), Ok(2));
    let body = store.bodies[0].take().expect("the function is still there");
    assert!(body.verify_at(VerifyLevel::Full));
    body
}

#[test]
fn a_variable_assigned_on_two_ways_gets_a_phi() {
    let c = SsaVarId::from_index(0);
    let x = SsaVarId::from_index(1);
    let body = rebuilt(with_blocks(
        2,
        vec![
            vec![
                SsaOp::LoadArg { dest: c, arg_index: 0 },
                SsaOp::Branch { condition: c, true_target: 1, false_target: 2 },
            ],
            vec![number(x, 1), SsaOp::Jump { target: 3 }],
            vec![number(x, 2), SsaOp::Jump { target: 3 }],
            vec![SsaOp::Return { value: Some(x) }],
        ],
    ));
    let first = body.blocks[1].instrs[0].op.dest().expect("an assignment");
    let second = body.blocks[2].instrs[0].op.dest().expect("an assignment");
    assert!(first != second && first != x && second != x);
    assert_eq!(body.blocks[3].phis.len(), 1);
    let phi = &body.blocks[3].phis[0];
    assert_eq!(phi.operands, vec![PhiOperand::new(first, 1), PhiOperand::new(second, 2)]);
    assert!(matches!(
        body.blocks[3].instrs[0].op,
        SsaOp::Return { value: Some(v) } if v == phi.result
    ));
    // The variable that was split has left the table.
    assert!(body.variable(x).is_none());
    assert_eq!(body.variable_count(), 4);
}

#[test]
fn a_variable_assigned_twice_in_a_row_needs_no_phi() {
    let x = SsaVarId::from_index(0);
    let y = SsaVarId::from_index(1);
    let one = SsaVarId::from_index(2);
    let body = rebuilt(with_blocks(
        3,
        vec![
            vec![
                number(one, 1),
                number(x, 4),
                SsaOp::Add { dest: x, left: x, right: one, flags: None },
                SsaOp::Jump { target: 1 },
            ],
            vec![SsaOp::Copy { dest: y, src: x }, SsaOp::Return { value: Some(y) }],
        ],
    ));
    assert!(body.blocks.iter().all(|block| block.phis.is_empty()));
    let first = body.blocks[0].instrs[1].op.dest().expect("an assignment");
    match &body.blocks[0].instrs[2].op {
        SsaOp::Add { dest, left, right, .. } => {
            assert!(*left == first && *right == one && *dest != first);
            assert!(matches!(body.blocks[1].instrs[0].op, SsaOp::Copy { src, .. } if src == *dest));
        }
        _ => panic!("expected an addition"),
    }
}

#[test]
fn a_counter_gets_a_phi_at_the_head_of_its_loop() {
    let i = SsaVarId::from_index(0);
    let one = SsaVarId::from_index(1);
    let c = SsaVarId::from_index(2);
    let body = rebuilt(with_blocks(
        3,
        vec![
            vec![number(i, 0), number(one, 1), SsaOp::Jump { target: 1 }],
            vec![
                SsaOp::Clt { dest: c, left: i, right: one, unsigned: false },
                SsaOp::Branch { condition: c, true_target: 2, false_target: 3 },
            ],
            vec![
                SsaOp::Add { dest: i, left: i, right: one, flags: None },
                SsaOp::Jump { target: 1 },
            ],
            vec![SsaOp::Return { value: Some(i) }],
        ],
    ));
    assert_eq!(body.blocks[1].phis.len(), 1);
    let head = body.blocks[1].phis[0].result;
    assert!(matches!(body.blocks[1].instrs[0].op, SsaOp::Clt { left, .. } if left == head));
    assert!(matches!(body.blocks[2].instrs[0].op, SsaOp::Add { left, .. } if left == head));
    assert!(matches!(body.blocks[3].instrs[0].op, SsaOp::Return { value: Some(v) } if v == head));
}

#[test]
fn operands_of_edges_that_are_gone_leave() {
    let mut ssa = diamond_phi_fixture();
    let join = ssa.blocks.iter().position(|b| !b.phis.is_empty()).expect("a join");
    let entry = match ssa.blocks[0].terminator_op() {
        Some(SsaOp::Branch { true_target, .. }) => *true_target,
        _ => panic!("expected a branch"),
    };
    let last = ssa.blocks[0].instrs.len() - 1;
    ssa.set_op(0, last, SsaOp::Jump { target: entry });
    for b in 0..ssa.blocks.len() {
        if b != 0 && b != entry && b != join {
            ssa.blocks[b].clear_instructions();
        }
    }
    ssa.recompute_uses();
    let body = rebuilt(ssa);
    assert!(body.blocks[join].phis.is_empty());
}

#[test]
fn defects_are_named() {
    let x = SsaVarId::from_index(0);
    let twice = with_blocks(
        1,
        vec![vec![number(x, 1), number(x, 2), SsaOp::Return { value: Some(x) }]],
    );
    assert_eq!(twice.find_defects(), vec![Defect::AssignedTwice { var: x }]);
    let mut wrong = with_blocks(1, vec![vec![SsaOp::Jump { target: 7 }]]);
    wrong.blocks[0].id = 3;
    let found = wrong.find_defects();
    assert_eq!(
        found,
        vec![
            Defect::Misnumbered { block: 0 },
            Defect::ForeignInstruction { block: 0, instruction: 0 },
        ]
    );
    assert_eq!(
        describe_all(&found),
        "block 0 carries another number; instruction 0 of block 0 is out of range"
    );
    let mut stray = diamond_phi_fixture();
    let join = stray.blocks.iter().position(|b| !b.phis.is_empty()).expect("a join");
    stray.blocks[join].phis[0].operands[0].predecessor = 99;
    let found = stray.find_defects();
    assert_eq!(found, vec![Defect::ForeignPhi { block: join, phi: 0 }]);
    assert_eq!(found[0].describe(), format!("phi 0 of block {join} is out of range"));
    assert_eq!(twice.find_defects()[0].describe(), "v0 is assigned twice");
}

#[test]
fn a_repair_drops_variables_that_nothing_mentions() {
    let x = SsaVarId::from_index(0);
    let mut ssa = with_blocks(3, vec![vec![SsaOp::Nop, number(x, 1), SsaOp::Return { value: Some(x) }]]);
    assert_eq!(ssa.variable_count(), 3);
    ssa.repair_ssa();
    assert_eq!(ssa.variable_count(), 1);
    assert_eq!(ssa.variables()[0].id, x);
    assert!(ssa.variable(SsaVarId::from_index(1)).is_none());
    assert_eq!(ssa.var_id_capacity(), 3);
    // The place that assigns the variable moved when the operation before it was removed.
    assert_eq!(ssa.variables()[0].def_site.instruction, Some(0));
}
