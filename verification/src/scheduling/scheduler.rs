//! The pipeline as a whole.
use crate::ir::function::SsaView;
use crate::passes::scheduling::{
    AlgebraicSimplificationPass, BlockMergingPass, BuiltinPass, ControlFlowSimplificationPass, CopyPropagationPass,
    DeadCodeEliminationPass, DeadMethodEliminationPass, GlobalValueNumberingPass,
    JumpThreadingPass, LicmPass, LoopCanonicalizationPass, OpaquePredicatePass, ReassociationPass,
    StrengthReductionPass, ValueRangePropagationPass,
};
use crate::pointer::PointerSize;
use crate::scheduling::layers;
use crate::scheduling::marks;
use crate::scheduling::pass;
use crate::scheduling::pass::{PassProfile, ProfileView, SsaPass, SsaPassHost};
use crate::scheduling::rounds;
use crate::scheduling::rounds::Crew;
use crate::scheduling::run;
use crate::scheduling::run::{PassFailure, Program, Progress, Run, Settings};
use crate::scheduling::visit;
use crate::scheduling::visit::Dispatch;
use crate::seqs;
use crate::target::Target;
use crate::world::{CallView, World};
use dashmap::DashSet;
use std::marker::PhantomData;
use vstd::prelude::*;

verus! {

/// Settings of the pipeline.
#[derive(Debug, Clone, Copy, PartialEq, Eq, Structural)]
pub struct PipelineConfig {
    /// How often the whole pipeline runs at most.
    pub max_iterations: usize,
    /// How many iterations without a change end the pipeline.
    pub stable_iterations: usize,
    /// How many rounds a layer runs at most until nothing changes.
    pub max_phase_iterations: usize,
    /// How often block merging repeats itself at most.
    pub block_merge_iterations: usize,
    /// How often control-flow simplification repeats itself at most.
    pub control_flow_iterations: usize,
    /// How often copy propagation repeats itself at most.
    pub copy_iterations: usize,
    /// How often dead-code elimination repeats itself at most.
    pub dead_code_iterations: usize,
    /// How often value-range propagation repeats itself at most.
    pub range_iterations: usize,
    /// Whether methods that are never called are looked for.
    pub include_dead_method_elimination: bool,
    /// Whether every function must be well-formed after every pass.
    pub verify_hard: bool,
}

impl Default for PipelineConfig {
    fn default() -> (r: Self)
        ensures
            r == (PipelineConfig {
                max_iterations: 10,
                stable_iterations: 1,
                max_phase_iterations: 10,
                block_merge_iterations: 10,
                control_flow_iterations: 10,
                copy_iterations: 10,
                dead_code_iterations: 50,
                range_iterations: 20,
                include_dead_method_elimination: true,
                verify_hard: false,
            }),
    {
        PipelineConfig {
            max_iterations: 10,
            stable_iterations: 1,
            max_phase_iterations: 10,
            block_merge_iterations: 10,
            control_flow_iterations: 10,
            copy_iterations: 10,
            dead_code_iterations: 50,
            range_iterations: 20,
            include_dead_method_elimination: true,
            verify_hard: false,
        }
    }
}

/// Runs passes over a program: layer by layer, each until nothing changes, and the whole again until
/// nothing changes.
pub struct PassScheduler<T: Target, P: SsaPass<T>> {
    /// How often the whole pipeline runs at most.
    pub max_iterations: usize,
    /// How many iterations without a change end the pipeline.
    pub stable_iterations: usize,
    /// How many rounds a layer runs at most until nothing changes.
    pub max_phase_iterations: usize,
    /// Whether every function must be well-formed after every pass.
    pub verify_hard: bool,
    /// The passes that run in layers.
    pub passes: Vec<P>,
    /// For each of these, the layer in which it runs where no milestone says otherwise.
    pub fallback: Vec<usize>,
    /// The passes that normalize between the rounds.
    pub normalize: Vec<P>,
    /// The instruction set of the program.
    pub target: PhantomData<T>,
}

impl<T: Target, P: SsaPass<T>> PassScheduler<T, P> {
    /// Every pass has a fallback layer, and there is room above it for all the others.
    pub open spec fn well_formed(&self) -> bool {
        &&& self.fallback@.len() == self.passes@.len()
        &&& forall|i: int|
            0 <= i < self.fallback@.len() ==> #[trigger] self.fallback@[i] + self.fallback@.len()
                <= usize::MAX
    }

    /// What the passes declare of themselves.
    pub open spec fn profiles(&self) -> Seq<ProfileView<T>> {
        pass::states::<T, P>(self.passes@).map_values(|p: P::State| P::profiled(p))
    }

    /// Creates a scheduler without passes.
    #[must_use]
    pub fn empty(config: PipelineConfig) -> (r: Self)
        ensures
            r.max_iterations == config.max_iterations,
            r.stable_iterations == config.stable_iterations,
            r.max_phase_iterations == config.max_phase_iterations,
            r.verify_hard == config.verify_hard,
            r.passes@ == Seq::<P>::empty(),
            r.fallback@ == Seq::<usize>::empty(),
            r.normalize@ == Seq::<P>::empty(),
            r.well_formed(),
    {
        PassScheduler {
            max_iterations: config.max_iterations,
            stable_iterations: config.stable_iterations,
            max_phase_iterations: config.max_phase_iterations,
            verify_hard: config.verify_hard,
            passes: Vec::new(),
            fallback: Vec::new(),
            normalize: Vec::new(),
            target: PhantomData,
        }
    }

    /// Returns the number of passes that run in layers.
    #[must_use]
    pub fn pass_count(&self) -> (r: usize)
        ensures
            r == self.passes@.len(),
    {
        self.passes.len()
    }

    /// Returns the number of passes that normalize.
    #[must_use]
    pub fn normalize_count(&self) -> (r: usize)
        ensures
            r == self.normalize@.len(),
    {
        self.normalize.len()
    }

    /// Adds a pass that runs in the layer that it declares.
    pub fn add(&mut self, pass: P)
        ensures
            final(self).passes@ == old(self).passes@.push(pass),
            final(self).fallback@ == old(self).fallback@.push(
                P::profiled(pass.state()).fallback_layer,
            ),
            *final(self) == (PassScheduler {
                passes: final(self).passes,
                fallback: final(self).fallback,
                ..*old(self)
            }),
    {
        let profile: PassProfile<T> = pass.profile();
        self.passes.push(pass);
        self.fallback.push(profile.fallback_layer);
    }

    /// Adds a pass that runs in `layer`, whatever it declares.
    pub fn add_at_layer(&mut self, pass: P, layer: usize)
        ensures
            final(self).passes@ == old(self).passes@.push(pass),
            final(self).fallback@ == old(self).fallback@.push(layer),
            *final(self) == (PassScheduler {
                passes: final(self).passes,
                fallback: final(self).fallback,
                ..*old(self)
            }),
    {
        self.passes.push(pass);
        self.fallback.push(layer);
    }

    /// Adds a pass that normalizes between the rounds.
    pub fn add_normalize(&mut self, pass: P)
        ensures
            final(self).normalize@ == old(self).normalize@.push(pass),
            *final(self) == (PassScheduler { normalize: final(self).normalize, ..*old(self) }),
    {
        self.normalize.push(pass);
    }

    /// `deps` lists for every pass those that it relies on, and `layer` puts it above them, and as
    /// low as can be.
    pub open spec fn puts_in_layers(&self, deps: Seq<Seq<usize>>, layer: Seq<usize>) -> bool {
        layers::lists_reliance(self.profiles(), deps) && layers::is_lowest(
            deps,
            self.fallback@,
            layer,
        )
    }

    /// Some passes rely on each other in a circle.
    pub open spec fn is_circular(&self) -> bool {
        exists|deps: Seq<Seq<usize>>, circle: Seq<usize>| #[trigger]
            self.has_circle(deps, circle)
    }

    /// The passes of `circle` rely on each other.
    pub open spec fn has_circle(&self, deps: Seq<Seq<usize>>, circle: Seq<usize>) -> bool {
        layers::lists_reliance(self.profiles(), deps) && layers::is_circle(deps, circle)
    }

    /// The names of the passes at these positions.
    pub open spec fn names_at(&self, positions: Seq<usize>) -> Seq<Seq<char>> {
        positions.map_values(|i: usize| P::profiled(self.passes@[i as int].state()).name)
    }

    /// Says which passes rely on each other in a circle.
    #[must_use]
    pub fn cycle_message(&self, circle: &Vec<usize>) -> (r: String)
        requires
            rounds::names(circle@, self.passes@.len()),
        ensures
            r@ == "Cycle detected in pass capability dependencies: "@ + joined(
                self.names_at(circle@),
                circle@.len(),
            ),
    {
        let ghost names = self.names_at(circle@);
        let ghost begin = "Cycle detected in pass capability dependencies: "@;
        let mut r: String = String::from_str("Cycle detected in pass capability dependencies: ");
        assert(r@ =~= begin + joined(names, 0));
        let mut k: usize = 0;
        while k < circle.len()
            invariant
                k <= circle@.len(),
                rounds::names(circle@, self.passes@.len()),
                names == self.names_at(circle@),
                r@ == begin + joined(names, k as nat),
            decreases circle@.len() - k,
        {
            let ghost before = r@;
            let profile: PassProfile<T> = self.passes[circle[k]].profile();
            assert(names[k as int] == profile.name@);
            if k > 0 {
                r.append(" \u{2192} ");
            }
            r.append(profile.name);
            assert(r@ =~= begin + joined(names, (k + 1) as nat));
            k = k + 1;
        }
        r
    }

    /// Puts the passes into layers; where some rely on each other in a circle, returns the circle.
    pub fn compute_layer_assignment(&self) -> (r: Result<Vec<usize>, Vec<usize>>)
        requires
            self.well_formed(),
        ensures
            match r {
                Ok(layer) => exists|deps: Seq<Seq<usize>>| #[trigger]
                    self.puts_in_layers(deps, layer@),
                Err(circle) => exists|deps: Seq<Seq<usize>>| #[trigger]
                    self.has_circle(deps, circle@),
            },
            r is Err <==> self.is_circular(),
    {
        let mut profiles: Vec<PassProfile<T>> = Vec::new();
        let mut i: usize = 0;
        while i < self.passes.len()
            invariant
                i <= self.passes@.len(),
                profiles@.len() == i,
                forall|j: int|
                    0 <= j < i ==> (#[trigger] profiles@[j])@ == P::profiled(
                        self.passes@[j].state(),
                    ),
            decreases self.passes@.len() - i,
        {
            profiles.push(self.passes[i].profile());
            i = i + 1;
        }
        assert(layers::views(profiles@) =~= self.profiles());
        let deps: Vec<Vec<usize>> = layers::find_reliance(&profiles);
        let ghost all = layers::lists(deps@);
        assert(all.len() == deps@.len());
        let r: Result<Vec<usize>, Vec<usize>> = layers::assign_layers(&deps, &self.fallback);
        proof {
            match &r {
                Ok(layer) => {
                    assert(self.puts_in_layers(all, layer@));
                    if self.is_circular() {
                        let (other, circle) = choose|other: Seq<Seq<usize>>, circle: Seq<usize>|
                            #[trigger] self.has_circle(other, circle);
                        lemma_same_circle(self.profiles(), other, all, circle);
                    }
                },
                Err(circle) => {
                    assert(self.has_circle(all, circle@));
                },
            }
        }
        r
    }
}

proof fn lemma_same_circle<T: Target>(
    profiles: Seq<ProfileView<T>>,
    a: Seq<Seq<usize>>,
    b: Seq<Seq<usize>>,
    circle: Seq<usize>,
)
    requires
        layers::lists_reliance(profiles, a),
        layers::lists_reliance(profiles, b),
        layers::is_circle(a, circle),
    ensures
        layers::is_circle(b, circle),
{
    assert forall|k: int| 0 <= k < circle.len() implies b[circle[layers::after(
        k,
        circle.len(),
    )] as int].contains(#[trigger] circle[k]) by {
        let i = circle[layers::after(k, circle.len())] as int;
        assert(circle[layers::after(k, circle.len())] < a.len());
        assert(a[i].contains(circle[k]));
    }
}

/// The first `n` texts with arrows between them.
pub open spec fn joined(texts: Seq<Seq<char>>, n: nat) -> Seq<char>
    decreases n,
{
    if n == 0 {
        Seq::empty()
    } else if n == 1 {
        texts[0]
    } else {
        joined(texts, (n - 1) as nat) + " \u{2192} "@ + texts[n - 1]
    }
}

/// The groups name passes.
pub open spec fn name_passes(groups: Seq<Seq<usize>>, n: nat) -> bool {
    forall|g: int| 0 <= g < groups.len() ==> rounds::names(#[trigger] groups[g], n)
}

impl<T: Target> Run<T> {
    /// The state before an iteration.
    pub open spec fn opened(self) -> Run<T> {
        Run { modified: Set::empty(), ..self }
    }

    /// The state after an iteration: what changed in it may change again.
    pub open spec fn closed(self, changed: bool) -> Run<T> {
        if changed {
            Run {
                dirty: Seq::new(self.dirty.len(), |m: int| self.modified.contains(m as usize)),
                ..self
            }
        } else {
            Run { dirty: Seq::new(self.dirty.len(), |m: int| false), ..self }
        }
    }
}

/// The state after the first `n` groups have run one after the other, up to a pass that does not
/// get through, and whether something changed.
pub open spec fn swept<T: Target, P: SsaPass<T>>(
    crew: Crew<T, P::State>,
    groups: Seq<Seq<usize>>,
    s: Settings,
    n: nat,
) -> (Crew<T, P::State>, bool)
    decreases n,
{
    if n == 0 {
        (crew, false)
    } else {
        let (before, moved) = swept::<T, P>(crew, groups, s, (n - 1) as nat);
        if before.run.failure is Some {
            (before, moved)
        } else {
            let (after, changed) = rounds::settled::<T, P>(
                before,
                groups[n - 1],
                s,
                s.max_phase_iterations as nat,
                false,
            );
            (after, moved || changed)
        }
    }
}

/// The state after one iteration, and whether something changed; the first normalizes even where
/// no group changes something.
pub open spec fn iterated<T: Target, P: SsaPass<T>>(
    crew: Crew<T, P::State>,
    groups: Seq<Seq<usize>>,
    s: Settings,
    first: bool,
) -> (Crew<T, P::State>, bool) {
    let (a, moved) = swept::<T, P>(
        Crew { run: crew.run.opened(), ..crew },
        groups,
        s,
        groups.len(),
    );
    if a.run.failure is Some {
        (a, moved)
    } else {
        let (b, changed) = if first && !moved && a.normalize.len() > 0 {
            let (round, changed) = a.run.normalized::<P>(
                a.normalize,
                s,
                s.max_phase_iterations as nat,
            );
            (Crew { run: round.run, normalize: round.passes, ..a }, changed)
        } else {
            (a, moved)
        };
        if b.run.failure is Some {
            (b, changed)
        } else {
            (Crew { run: b.run.closed(changed), ..b }, changed)
        }
    }
}

/// The state after at most `fuel` iterations, and the number of iterations together with the
/// `done` ones: until the last `patience` of them changed nothing, of which `quiet` are done, or
/// until a pass does not get through.
pub open spec fn pipelined<T: Target, P: SsaPass<T>>(
    crew: Crew<T, P::State>,
    groups: Seq<Seq<usize>>,
    s: Settings,
    patience: nat,
    fuel: nat,
    done: nat,
    quiet: nat,
) -> (Crew<T, P::State>, nat)
    decreases fuel,
{
    if fuel == 0 {
        (crew, done)
    } else {
        let (a, changed) = iterated::<T, P>(crew, groups, s, done == 0);
        if a.run.failure is Some {
            (a, done + 1)
        } else if changed {
            pipelined::<T, P>(a, groups, s, patience, (fuel - 1) as nat, done + 1, 0)
        } else if quiet + 1 >= patience {
            (a, done + 1)
        } else {
            pipelined::<T, P>(a, groups, s, patience, (fuel - 1) as nat, done + 1, quiet + 1)
        }
    }
}

/// Why a pipeline did not get through.
#[derive(Debug, PartialEq, Eq)]
pub enum PipelineError {
    /// The passes at these positions rely on each other in a circle.
    Cycle(Vec<usize>),
    /// A pass did not get through.
    Pass(PassFailure),
}

impl<T: Target, P: SsaPass<T>> PassScheduler<T, P> {
    /// How the scheduler runs passes for a runtime with this pointer width.
    pub open spec fn settings(&self, ptr_size: PointerSize) -> Settings {
        Settings {
            ptr_size,
            max_phase_iterations: self.max_phase_iterations,
            verify_hard: self.verify_hard,
        }
    }

    /// The groups are those of the layers into which the passes are put.
    pub open spec fn is_grouped(&self, groups: Seq<Seq<usize>>) -> bool {
        exists|deps: Seq<Seq<usize>>, layer: Seq<usize>| #[trigger]
            self.puts_in_layers(deps, layer) && layers::is_grouping(layer, groups)
    }

    /// Runs the pipeline on the functions of a program.
    ///
    /// Returns the number of iterations.
    pub fn run_pipeline<H: SsaPassHost<T>, D: Dispatch<T, P>>(
        &mut self,
        host: &mut H,
        store: &mut Program<T>,
        dispatch: &D,
    ) -> (r: Result<usize, PipelineError>)
        requires
            old(self).well_formed(),
            old(store).bodies@.len() == old(host).program().methods.len(),
            old(store).dirty@.len() == old(host).program().methods.len(),
            old(store).processed@.len() == old(host).program().methods.len(),
        ensures
            match r {
                Err(PipelineError::Cycle(circle)) => exists|deps: Seq<Seq<usize>>| #[trigger]
                    old(self).has_circle(deps, circle@),
                _ => !old(self).is_circular(),
            },
            old(self).is_circular() ==> final(host).program() == old(host).program(),
            old(self).is_circular() ==> final(store).functions() == old(store).functions(),
            old(self).is_circular() ==> final(store).dirty@ == seeded(old(store)),
            old(self).is_circular() ==> final(store).processed@ == old(store).processed@,
            old(self).is_circular() ==> final(store).events@ == old(store).events@,
            !old(self).is_circular() ==> exists|groups: Seq<Seq<usize>>, width: PointerSize|
                #[trigger] old(self).is_grouped(groups) && #[trigger] pass::has_width::<T, H>(
                    *old(host),
                    width,
                ) && ran(
                    pipelined::<T, P>(
                        Crew {
                            run: start(old(host).program(), old(store)),
                            passes: pass::states::<T, P>(old(self).passes@),
                            normalize: pass::states::<T, P>(old(self).normalize@),
                        },
                        groups,
                        old(self).settings(width),
                        old(self).stable_iterations as nat,
                        old(self).max_iterations as nat,
                        0,
                        0,
                    ),
                    final(host).program(),
                    final(store),
                    pass::states::<T, P>(final(self).passes@),
                    pass::states::<T, P>(final(self).normalize@),
                    r,
                ),
            old(self).is_circular() ==> *final(self) == *old(self),
            *final(self) == (PassScheduler {
                passes: final(self).passes,
                normalize: final(self).normalize,
                ..*old(self)
            }),
            final(self).passes@.len() == old(self).passes@.len(),
            final(self).normalize@.len() == old(self).normalize@.len(),
            final(self).well_formed(),
    {
        let _ = host.method_count();
        let ptr_size: PointerSize = host.ptr_size();
        let ghost begun = start(host.program(), store);
        seed(store);
        assert(store.functions() =~= old(store).functions());
        let layer: Vec<usize> = match self.compute_layer_assignment() {
            Ok(layer) => layer,
            Err(circle) => {
                let ghost members = circle@;
                assert(exists|deps: Seq<Seq<usize>>| #[trigger] self.has_circle(deps, members));
                let e: PipelineError = PipelineError::Cycle(circle);
                assert(e matches PipelineError::Cycle(c) && c@ == members);
                return Err(e);
            },
        };
        let groups: Vec<Vec<usize>> = layers::group_layers(&layer);
        let ghost named = layers::lists(groups@);
        proof {
            let deps = choose|deps: Seq<Seq<usize>>| #[trigger] self.puts_in_layers(deps, layer@);
            assert(self.puts_in_layers(deps, layer@) && layers::is_grouping(layer@, named));
            assert(self.is_grouped(named));
            assert(layer@.len() == self.passes@.len()) by {
                assert(layers::ints(layer@).len() == deps.len());
            }
            assert forall|g: int| 0 <= g < named.len() implies rounds::names(
                #[trigger] named[g],
                self.passes@.len(),
            ) by {
                assert(layers::is_group(layer@, named[g], layer@[named[g][0] as int]));
            }
        }
        let mut all: Vec<usize> = Vec::new();
        let mut i: usize = 0;
        while i < self.normalize.len()
            invariant
                i <= self.normalize@.len(),
                all@.len() == i,
                forall|j: int| 0 <= j < i ==> #[trigger] all@[j] == j,
            decreases self.normalize@.len() - i,
        {
            all.push(i);
            i = i + 1;
        }
        assert(all@ =~= rounds::every(self.normalize@.len()));
        let s: Settings = Settings {
            ptr_size,
            max_phase_iterations: self.max_phase_iterations,
            verify_hard: self.verify_hard,
        };
        let mut progress: Progress = Progress {
            modified: marks::no_marks(),
            changed: false,
            failure: None,
        };
        assert(run::state(host.program(), store, &progress) == begun);
        assert(store.functions().len() == store.bodies@.len());
        let iterations: usize = run_iterations(
            &mut self.passes,
            &mut self.normalize,
            &groups,
            &all,
            host,
            store,
            &mut progress,
            s,
            dispatch,
            self.stable_iterations,
            self.max_iterations,
            0,
            0,
        );
        let ghost end = rounds::crew::<T, P>(
            run::state(host.program(), store, &progress),
            &self.passes,
            &self.normalize,
        );
        let r: Result<usize, PipelineError> = match progress.failure {
            Some(failure) => Err(PipelineError::Pass(failure)),
            None => Ok(iterations),
        };
        proof {
            assert(old(self).is_grouped(named));
            assert(pass::has_width::<T, H>(*old(host), ptr_size));
            assert(ran(
                (end, iterations as nat),
                host.program(),
                store,
                end.passes,
                end.normalize,
                r,
            ));
        }
        r
    }
}

/// Runs the groups one after the other. Returns whether something changed.
fn run_groups<T: Target, P: SsaPass<T>, W: World<T>, D: Dispatch<T, P>>(
    passes: &mut Vec<P>,
    normalize: &mut Vec<P>,
    groups: &Vec<Vec<usize>>,
    all: &Vec<usize>,
    world: &mut W,
    store: &mut Program<T>,
    progress: &mut Progress,
    s: Settings,
    dispatch: &D,
) -> (r: bool)
    requires
        name_passes(layers::lists(groups@), old(passes)@.len()),
        all@ == rounds::every(old(normalize)@.len()),
        run::state(old(world).program(), old(store), old(progress)).fits(),
        old(progress).failure is None,
    ensures
        (
            rounds::crew::<T, P>(
                run::state(final(world).program(), final(store), final(progress)),
                final(passes),
                final(normalize),
            ),
            r,
        ) == swept::<T, P>(
            rounds::crew::<T, P>(
                run::state(old(world).program(), old(store), old(progress)),
                old(passes),
                old(normalize),
            ),
            layers::lists(groups@),
            s,
            groups@.len(),
        ),
        final(passes)@.len() == old(passes)@.len(),
        final(normalize)@.len() == old(normalize)@.len(),
        run::state(final(world).program(), final(store), final(progress)).fits(),
{
    let ghost lists = layers::lists(groups@);
    let ghost start = rounds::crew::<T, P>(
        run::state(world.program(), store, progress),
        passes,
        normalize,
    );
    let mut moved: bool = false;
    let mut g: usize = 0;
    while g < groups.len()
        invariant
            lists == layers::lists(groups@),
            passes@.len() == old(passes)@.len(),
            normalize@.len() == old(normalize)@.len(),
            name_passes(lists, passes@.len()),
            all@ == rounds::every(normalize@.len()),
            g <= groups@.len(),
            (
                rounds::crew::<T, P>(
                    run::state(world.program(), store, progress),
                    passes,
                    normalize,
                ),
                moved,
            ) == swept::<T, P>(start, lists, s, g as nat),
            run::state(world.program(), store, progress).fits(),
        decreases groups@.len() - g,
    {
        if progress.failure.is_none() {
            assert(lists[g as int] == groups@[g as int]@);
            let changed: bool = rounds::layer_to_fixpoint(
                passes,
                &groups[g],
                normalize,
                all,
                world,
                store,
                progress,
                s,
                dispatch,
                s.max_phase_iterations,
                false,
            );
            moved = moved || changed;
        }
        g = g + 1;
    }
    moved
}

/// Runs one iteration. Returns whether something changed.
fn run_iteration<T: Target, P: SsaPass<T>, W: World<T>, D: Dispatch<T, P>>(
    passes: &mut Vec<P>,
    normalize: &mut Vec<P>,
    groups: &Vec<Vec<usize>>,
    all: &Vec<usize>,
    world: &mut W,
    store: &mut Program<T>,
    progress: &mut Progress,
    s: Settings,
    dispatch: &D,
    first: bool,
) -> (r: bool)
    requires
        name_passes(layers::lists(groups@), old(passes)@.len()),
        all@ == rounds::every(old(normalize)@.len()),
        run::state(old(world).program(), old(store), old(progress)).fits(),
        old(progress).failure is None,
    ensures
        (
            rounds::crew::<T, P>(
                run::state(final(world).program(), final(store), final(progress)),
                final(passes),
                final(normalize),
            ),
            r,
        ) == iterated::<T, P>(
            rounds::crew::<T, P>(
                run::state(old(world).program(), old(store), old(progress)),
                old(passes),
                old(normalize),
            ),
            layers::lists(groups@),
            s,
            first,
        ),
        final(passes)@.len() == old(passes)@.len(),
        final(normalize)@.len() == old(normalize)@.len(),
        run::state(final(world).program(), final(store), final(progress)).fits(),
{
    progress.modified = marks::no_marks();
    let moved: bool = run_groups(
        passes,
        normalize,
        groups,
        all,
        world,
        store,
        progress,
        s,
        dispatch,
    );
    if progress.failure.is_some() {
        return moved;
    }
    let mut changed: bool = moved;
    if first && !moved && normalize.len() > 0 {
        changed = rounds::normalize_to_fixpoint(
            normalize,
            all,
            world,
            store,
            progress,
            s,
            dispatch,
            s.max_phase_iterations,
        );
        if progress.failure.is_some() {
            return changed;
        }
    }
    if changed {
        let dirty: Vec<bool> = marks_of(&progress.modified, store.dirty.len());
        store.dirty = dirty;
    } else {
        let dirty: Vec<bool> = run::cleared(store.dirty.len());
        store.dirty = dirty;
    }
    changed
}

/// Runs iterations. Returns their number together with the `done` ones.
fn run_iterations<T: Target, P: SsaPass<T>, W: World<T>, D: Dispatch<T, P>>(
    passes: &mut Vec<P>,
    normalize: &mut Vec<P>,
    groups: &Vec<Vec<usize>>,
    all: &Vec<usize>,
    world: &mut W,
    store: &mut Program<T>,
    progress: &mut Progress,
    s: Settings,
    dispatch: &D,
    patience: usize,
    fuel: usize,
    done: usize,
    quiet: usize,
) -> (r: usize)
    requires
        name_passes(layers::lists(groups@), old(passes)@.len()),
        all@ == rounds::every(old(normalize)@.len()),
        run::state(old(world).program(), old(store), old(progress)).fits(),
        old(progress).failure is None,
        fuel + done <= usize::MAX,
        quiet <= done,
    ensures
        (
            rounds::crew::<T, P>(
                run::state(final(world).program(), final(store), final(progress)),
                final(passes),
                final(normalize),
            ),
            r as nat,
        ) == pipelined::<T, P>(
            rounds::crew::<T, P>(
                run::state(old(world).program(), old(store), old(progress)),
                old(passes),
                old(normalize),
            ),
            layers::lists(groups@),
            s,
            patience as nat,
            fuel as nat,
            done as nat,
            quiet as nat,
        ),
        final(passes)@.len() == old(passes)@.len(),
        final(normalize)@.len() == old(normalize)@.len(),
    decreases fuel,
{
    if fuel == 0 {
        return done;
    }
    let changed: bool = run_iteration(
        passes,
        normalize,
        groups,
        all,
        world,
        store,
        progress,
        s,
        dispatch,
        done == 0,
    );
    if progress.failure.is_some() {
        return done + 1;
    }
    if changed {
        return run_iterations(
            passes,
            normalize,
            groups,
            all,
            world,
            store,
            progress,
            s,
            dispatch,
            patience,
            fuel - 1,
            done + 1,
            0,
        );
    }
    if quiet + 1 >= patience {
        return done + 1;
    }
    run_iterations(
        passes,
        normalize,
        groups,
        all,
        world,
        store,
        progress,
        s,
        dispatch,
        patience,
        fuel - 1,
        done + 1,
        quiet + 1,
    )
}

/// The marks of the methods that may change: those from before, and those that have a function.
pub open spec fn seeded<T: Target>(store: &Program<T>) -> Seq<bool> {
    Seq::new(
        store.dirty@.len(),
        |m: int| store.dirty@[m] || store.bodies@[m] is Some,
    )
}

/// Marks the methods that have a function.
fn seed<T: Target>(store: &mut Program<T>)
    requires
        old(store).bodies@.len() == old(store).dirty@.len(),
    ensures
        final(store).bodies@ == old(store).bodies@,
        final(store).processed@ == old(store).processed@,
        final(store).events@ == old(store).events@,
        final(store).dirty@ == seeded(old(store)),
{
    let mut marks: Vec<bool> = Vec::new();
    let mut i: usize = 0;
    while i < store.dirty.len()
        invariant
            i <= store.dirty@.len(),
            store.bodies@.len() == store.dirty@.len(),
            marks@.len() == i,
            forall|j: int|
                0 <= j < i ==> #[trigger] marks@[j] == (store.dirty@[j] || store.bodies@[j] is Some),
        decreases store.dirty@.len() - i,
    {
        marks.push(store.dirty[i] || store.bodies[i].is_some());
        i = i + 1;
    }
    assert(marks@ =~= seeded(store));
    store.dirty = marks;
}

/// Lists for each of `n` methods whether it is marked.
fn marks_of(set: &DashSet<usize>, n: usize) -> (r: Vec<bool>)
    ensures
        r@ == Seq::new(n as nat, |m: int| marks::members(*set).contains(m as usize)),
{
    let mut r: Vec<bool> = Vec::new();
    let mut i: usize = 0;
    while i < n
        invariant
            i <= n,
            r@.len() == i,
            forall|j: int|
                0 <= j < i ==> #[trigger] r@[j] == marks::members(*set).contains(j as usize),
        decreases n - i,
    {
        r.push(marks::is_marked(set, i));
        i = i + 1;
    }
    assert(r@ =~= Seq::new(n as nat, |m: int| marks::members(*set).contains(m as usize)));
    r
}

/// The state in which the pipeline starts.
pub open spec fn start<T: Target>(program: CallView<T>, store: &Program<T>) -> Run<T> {
    Run {
        program,
        bodies: store.functions(),
        dirty: seeded(store),
        processed: store.processed@,
        events: store.events@,
        modified: Set::empty(),
        changed: false,
        failure: None,
    }
}

/// The program, the passes and the result are those of a pipeline that ended like this.
pub open spec fn ran<T: Target, S>(
    end: (Crew<T, S>, nat),
    program: CallView<T>,
    store: &Program<T>,
    passes: Seq<S>,
    normalize: Seq<S>,
    r: Result<usize, PipelineError>,
) -> bool {
    &&& passes == end.0.passes
    &&& normalize == end.0.normalize
    &&& program == end.0.run.program
    &&& store.functions() == end.0.run.bodies
    &&& store.dirty@ == end.0.run.dirty
    &&& store.processed@ == end.0.run.processed
    &&& store.events@ == end.0.run.events
    &&& match end.0.run.failure {
        Some(f) => r matches Err(PipelineError::Pass(failure)) && failure@ == f,
        None => r matches Ok(iterations) && iterations == end.1,
    }
}

/// The passes of the library in the order in which they are added: those on control flow before
/// those on values.
pub open spec fn are_builtin<T: Target>(
    passes: Seq<BuiltinPass<T>>,
    fallback: Seq<usize>,
    config: PipelineConfig,
) -> bool {
    let d: int = if config.include_dead_method_elimination {
        1
    } else {
        0
    };
    &&& passes.len() == 10 + d
    &&& fallback =~= Seq::new(
        (10 + d) as nat,
        |i: int|
            if i < 4 + d {
                0usize
            } else {
                1usize
            },
    )
    &&& config.include_dead_method_elimination ==> passes[0] is DeadMethod
    &&& passes[d] == BuiltinPass::<T>::ControlFlow(
        ControlFlowSimplificationPass { max_iterations: config.control_flow_iterations },
    )
    &&& passes[d + 1] is Threading
    &&& passes[d + 2] is LoopCanonicalization
    &&& passes[d + 3] == BuiltinPass::<T>::BlockMerging(
        BlockMergingPass { max_iterations: config.block_merge_iterations },
    )
    &&& passes[d + 4] is Algebraic
    &&& passes[d + 5] is Reassociation
    &&& passes[d + 6] is Strength
    &&& passes[d + 7] == BuiltinPass::<T>::ValueRange(
        ValueRangePropagationPass { max_iterations: config.range_iterations },
    )
    &&& passes[d + 8] is OpaquePredicate
    &&& passes[d + 9] is Licm
}

impl<T: Target> PassScheduler<T, BuiltinPass<T>> {
    /// Creates a scheduler with the passes of the library: structural passes in the first layer,
    /// passes on values in the second, and the cleanup of values in between.
    #[must_use]
    pub fn new(config: PipelineConfig) -> (r: Self)
        ensures
            r.max_iterations == config.max_iterations,
            r.stable_iterations == config.stable_iterations,
            r.max_phase_iterations == config.max_phase_iterations,
            r.verify_hard == config.verify_hard,
            are_builtin(r.passes@, r.fallback@, config),
            r.normalize@ == seq![
                BuiltinPass::<T>::ValueNumbering(GlobalValueNumberingPass),
                BuiltinPass::<T>::Copy(
                    CopyPropagationPass { max_iterations: config.copy_iterations },
                ),
                BuiltinPass::<T>::DeadCode(
                    DeadCodeEliminationPass { max_iterations: config.dead_code_iterations },
                ),
            ],
            r.well_formed(),
    {
        let mut r: Self = PassScheduler::empty(config);
        r.add_normalize(BuiltinPass::ValueNumbering(GlobalValueNumberingPass::new()));
        r.add_normalize(BuiltinPass::Copy(CopyPropagationPass::new(config.copy_iterations)));
        r.add_normalize(
            BuiltinPass::DeadCode(DeadCodeEliminationPass::new(config.dead_code_iterations)),
        );
        if config.include_dead_method_elimination {
            r.add(BuiltinPass::DeadMethod(DeadMethodEliminationPass));
        }
        r.add(
            BuiltinPass::ControlFlow(
                ControlFlowSimplificationPass::new(config.control_flow_iterations),
            ),
        );
        r.add(BuiltinPass::Threading(JumpThreadingPass::new()));
        r.add(BuiltinPass::LoopCanonicalization(LoopCanonicalizationPass::new()));
        r.add(BuiltinPass::BlockMerging(BlockMergingPass::new(config.block_merge_iterations)));
        r.add(BuiltinPass::Algebraic(AlgebraicSimplificationPass::new()));
        r.add(BuiltinPass::Reassociation(ReassociationPass::new()));
        r.add(BuiltinPass::Strength(StrengthReductionPass));
        r.add(BuiltinPass::ValueRange(ValueRangePropagationPass::new(config.range_iterations)));
        r.add(BuiltinPass::OpaquePredicate(OpaquePredicatePass::new()));
        r.add(BuiltinPass::Licm(LicmPass::new()));
        r
    }
}

/// The pipeline never runs more iterations than it may.
pub proof fn pipeline_is_bounded<T: Target, P: SsaPass<T>>(
    crew: Crew<T, P::State>,
    groups: Seq<Seq<usize>>,
    s: Settings,
    patience: nat,
    fuel: nat,
    done: nat,
    quiet: nat,
)
    ensures
        done <= pipelined::<T, P>(crew, groups, s, patience, fuel, done, quiet).1 <= done + fuel,
    decreases fuel,
{
    if fuel > 0 {
        let (a, changed) = iterated::<T, P>(crew, groups, s, done == 0);
        pipeline_is_bounded::<T, P>(a, groups, s, patience, (fuel - 1) as nat, done + 1, 0);
        pipeline_is_bounded::<T, P>(a, groups, s, patience, (fuel - 1) as nat, done + 1, quiet + 1);
    }
}

/// A pipeline that ends before its last iteration, and in which every pass got through, leaves no
/// method that may still change.
pub proof fn early_end_is_stable<T: Target, P: SsaPass<T>>(
    crew: Crew<T, P::State>,
    groups: Seq<Seq<usize>>,
    s: Settings,
    patience: nat,
    fuel: nat,
    done: nat,
    quiet: nat,
    m: int,
)
    requires
        pipelined::<T, P>(crew, groups, s, patience, fuel, done, quiet).1 < done + fuel,
        pipelined::<T, P>(crew, groups, s, patience, fuel, done, quiet).0.run.failure is None,
        0 <= m < pipelined::<T, P>(crew, groups, s, patience, fuel, done, quiet).0.run.dirty.len(),
    ensures
        !pipelined::<T, P>(crew, groups, s, patience, fuel, done, quiet).0.run.dirty[m],
    decreases fuel,
{
    let (a, changed) = iterated::<T, P>(crew, groups, s, done == 0);
    if a.run.failure is Some {
    } else if changed {
        early_end_is_stable::<T, P>(a, groups, s, patience, (fuel - 1) as nat, done + 1, 0, m);
    } else if quiet + 1 >= patience {
    } else {
        early_end_is_stable::<T, P>(a, groups, s, patience, (fuel - 1) as nat, done + 1, quiet + 1, m);
    }
}

/// Every function of the program is well-formed.
pub open spec fn is_sound<T: Target>(bodies: Seq<Option<SsaView<T>>>) -> bool {
    forall|m: int|
        0 <= m < bodies.len() && (#[trigger] bodies[m]) is Some ==> bodies[m].unwrap().well_formed()
}

proof fn lemma_pass_sound<T: Target, P: SsaPass<T>>(
    run: Run<T>,
    pass: P::State,
    list: Seq<usize>,
    s: Settings,
)
    requires
        s.verify_hard,
        is_sound(run.bodies),
    ensures
        is_sound(run.after_pass::<P>(pass, list, s).bodies),
{
    let after = run.after_pass::<P>(pass, list, s);
    let keep = |m: usize|
        run.bodies[m as int] is Some && P::runs_on(
            pass,
            run.program.methods[m as int],
            run.program,
        );
    seqs::lemma_picked(list, keep, list.len());
    assert forall|m: int| 0 <= m < after.bodies.len() && (#[trigger] after.bodies[m]) is Some implies after.bodies[m].unwrap().well_formed() by {
        if run.work::<P>(pass, list).contains(m as usize) {
            let work = run.work::<P>(pass, list);
            let k = choose|k: int| 0 <= k < work.len() && work[k] == m as usize;
            assert(keep(work[k]));
            if 0 <= (m as usize) as int && ((m as usize) as int) < run.bodies.len() {
                assert(run.bodies[(m as usize) as int].unwrap().well_formed());
                visit::hard_verification_keeps_well_formed::<T, P>(
                    pass,
                    run.bodies[(m as usize) as int].unwrap(),
                    run.program.methods[(m as usize) as int],
                    run.around::<P>(pass, s),
                );
            }
        } else {
            assert(after.bodies[m] == run.bodies[m]);
        }
    }
}

proof fn lemma_globals_keep<T: Target, P: SsaPass<T>>(
    run: Run<T>,
    passes: Seq<P::State>,
    layer: Seq<usize>,
    n: nat,
)
    ensures
        run.after_globals::<P>(passes, layer, n).bodies == run.bodies,
    decreases n,
{
    if n > 0 {
        lemma_globals_keep::<T, P>(run, passes, layer, (n - 1) as nat);
    }
}

proof fn lemma_locals_sound<T: Target, P: SsaPass<T>>(
    run: Run<T>,
    passes: Seq<P::State>,
    layer: Seq<usize>,
    all: Seq<usize>,
    dirty: Seq<usize>,
    s: Settings,
    n: nat,
)
    requires
        s.verify_hard,
        is_sound(run.bodies),
    ensures
        is_sound(run.after_locals::<P>(passes, layer, all, dirty, s, n).bodies),
    decreases n,
{
    if n > 0 {
        lemma_locals_sound::<T, P>(run, passes, layer, all, dirty, s, (n - 1) as nat);
        let before = run.after_locals::<P>(passes, layer, all, dirty, s, (n - 1) as nat);
        let pass = passes[layer[n - 1] as int];
        lemma_pass_sound::<T, P>(before, pass, all, s);
        lemma_pass_sound::<T, P>(before, pass, dirty, s);
    }
}

proof fn lemma_round_sound<T: Target, P: SsaPass<T>>(
    run: Run<T>,
    passes: Seq<P::State>,
    layer: Seq<usize>,
    s: Settings,
)
    requires
        s.verify_hard,
        is_sound(run.bodies),
    ensures
        is_sound(run.after_round::<P>(passes, layer, s).run.bodies),
{
    let reset = Run { changed: false, ..run };
    let begun = rounds::told::<T, P>(passes, layer, run.program, true, layer.len()).passes;
    lemma_globals_keep::<T, P>(reset, begun, layer, layer.len());
    lemma_locals_sound::<T, P>(
        reset.after_globals::<P>(begun, layer, layer.len()),
        begun,
        layer,
        run.eligible(false),
        run.eligible(true),
        s,
        layer.len(),
    );
}

proof fn lemma_normalized_sound<T: Target, P: SsaPass<T>>(
    run: Run<T>,
    passes: Seq<P::State>,
    s: Settings,
    fuel: nat,
)
    requires
        s.verify_hard,
        is_sound(run.bodies),
    ensures
        is_sound(run.normalized::<P>(passes, s, fuel).0.run.bodies),
    decreases fuel,
{
    if fuel > 0 {
        let a = run.after_round::<P>(passes, rounds::every(passes.len()), s);
        lemma_round_sound::<T, P>(run, passes, rounds::every(passes.len()), s);
        lemma_normalized_sound::<T, P>(a.run, a.passes, s, (fuel - 1) as nat);
    }
}

proof fn lemma_settled_sound<T: Target, P: SsaPass<T>>(
    crew: Crew<T, P::State>,
    layer: Seq<usize>,
    s: Settings,
    fuel: nat,
    moved: bool,
)
    requires
        s.verify_hard,
        is_sound(crew.run.bodies),
    ensures
        is_sound(rounds::settled::<T, P>(crew, layer, s, fuel, moved).0.run.bodies),
    decreases fuel,
{
    if fuel > 0 {
        let a = crew.run.after_round::<P>(crew.passes, layer, s);
        lemma_round_sound::<T, P>(crew.run, crew.passes, layer, s);
        lemma_normalized_sound::<T, P>(
            a.run,
            crew.normalize,
            s,
            s.max_phase_iterations as nat,
        );
        let b = a.run.tidied::<P>(crew.normalize, s);
        lemma_settled_sound::<T, P>(
            Crew { run: b.run, passes: a.passes, normalize: b.passes },
            layer,
            s,
            (fuel - 1) as nat,
            true,
        );
    }
}

proof fn lemma_swept_sound<T: Target, P: SsaPass<T>>(
    crew: Crew<T, P::State>,
    groups: Seq<Seq<usize>>,
    s: Settings,
    n: nat,
)
    requires
        s.verify_hard,
        is_sound(crew.run.bodies),
    ensures
        is_sound(swept::<T, P>(crew, groups, s, n).0.run.bodies),
    decreases n,
{
    if n > 0 {
        lemma_swept_sound::<T, P>(crew, groups, s, (n - 1) as nat);
        lemma_settled_sound::<T, P>(
            swept::<T, P>(crew, groups, s, (n - 1) as nat).0,
            groups[n - 1],
            s,
            s.max_phase_iterations as nat,
            false,
        );
    }
}

/// With `verify_hard` a pipeline that starts on well-formed functions leaves only well-formed
/// functions, whatever its passes do, and also where one of them does not get through.
pub proof fn hard_pipeline_keeps_program_well_formed<T: Target, P: SsaPass<T>>(
    crew: Crew<T, P::State>,
    groups: Seq<Seq<usize>>,
    s: Settings,
    patience: nat,
    fuel: nat,
    done: nat,
    quiet: nat,
)
    requires
        s.verify_hard,
        is_sound(crew.run.bodies),
    ensures
        is_sound(
            pipelined::<T, P>(crew, groups, s, patience, fuel, done, quiet).0.run.bodies,
        ),
    decreases fuel,
{
    if fuel > 0 {
        let opened = Crew { run: crew.run.opened(), ..crew };
        lemma_swept_sound::<T, P>(opened, groups, s, groups.len());
        let (a, moved) = swept::<T, P>(opened, groups, s, groups.len());
        lemma_normalized_sound::<T, P>(a.run, a.normalize, s, s.max_phase_iterations as nat);
        let (b, changed) = iterated::<T, P>(crew, groups, s, done == 0);
        assert(is_sound(b.run.bodies));
        let left = (fuel - 1) as nat;
        hard_pipeline_keeps_program_well_formed::<T, P>(
            b,
            groups,
            s,
            patience,
            left,
            done + 1,
            0,
        );
        hard_pipeline_keeps_program_well_formed::<T, P>(
            b,
            groups,
            s,
            patience,
            left,
            done + 1,
            quiet + 1,
        );
    }
}

/// In the groups of a scheduler a pass comes in a strictly later group than every other pass that
/// reaches a milestone it relies on.
pub proof fn consumers_run_in_later_groups<T: Target, P: SsaPass<T>>(
    scheduler: &PassScheduler<T, P>,
    groups: Seq<Seq<usize>>,
    g: int,
    h: int,
    consumer: usize,
    provider: usize,
)
    requires
        scheduler.well_formed(),
        scheduler.is_grouped(groups),
        0 <= g < groups.len(),
        0 <= h < groups.len(),
        groups[g].contains(consumer),
        groups[h].contains(provider),
        consumer < scheduler.passes@.len(),
        provider < scheduler.passes@.len(),
        layers::relies_on(scheduler.profiles(), consumer as int, provider as int),
    ensures
        h < g,
{
    let (deps, layer) = choose|deps: Seq<Seq<usize>>, layer: Seq<usize>| #[trigger]
        scheduler.puts_in_layers(deps, layer) && layers::is_grouping(layer, groups);
    assert(deps[consumer as int].contains(provider));
    let m = choose|m: int|
        0 <= m < deps[consumer as int].len() && deps[consumer as int][m] == provider;
    assert(layers::ints(layer)[deps[consumer as int][m] as int] < layers::ints(
        layer,
    )[consumer as int]);
    layers::lower_layers_run_first(layer, groups, h, g, provider, consumer);
}

} // verus!
