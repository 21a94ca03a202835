//! Rounds of passes, repeated until nothing changes.
use crate::scheduling::pass;
use crate::scheduling::pass::{PassProfile, SsaPass};
use crate::scheduling::run;
use crate::scheduling::run::{PassFailure, PassFailureView, Program, Progress, Run, Settings};
use crate::scheduling::visit::{Dispatch, Failure, FailureView};
use crate::seqs;
use crate::target::Target;
use crate::world::{CallView, World};
use vstd::prelude::*;

verus! {

/// The positions in a list of `n`, in order.
pub open spec fn every(n: nat) -> Seq<usize> {
    Seq::new(n, |i: int| i as usize)
}

/// The entries of `layer` are positions in a list of `n`.
pub open spec fn names(layer: Seq<usize>, n: nat) -> bool {
    forall|k: int| 0 <= k < layer.len() ==> #[trigger] layer[k] < n
}

impl<T: Target> Run<T> {
    /// The state after a pass has run on the whole program; only a global pass does so.
    pub open spec fn after_global<P: SsaPass<T>>(self, pass: P::State) -> Run<T> {
        if P::profiled(pass).is_global {
            let attempt = P::world_attempt(pass, self.program);
            Run {
                program: CallView { dead: attempt.dead, ..self.program },
                events: self.events + attempt.events,
                changed: self.changed || attempt.result == Ok::<bool, Seq<char>>(true),
                failure: match attempt.result {
                    Ok(_) => None,
                    Err(message) => Some(
                        PassFailureView {
                            pass: P::profiled(pass).name,
                            position: None,
                            failure: FailureView::Run(message),
                        },
                    ),
                },
                ..self
            }
        } else {
            self
        }
    }

    /// The state after the first `n` passes of `layer` have run on the whole program, up to the
    /// first that does not get through.
    pub open spec fn after_globals<P: SsaPass<T>>(
        self,
        passes: Seq<P::State>,
        layer: Seq<usize>,
        n: nat,
    ) -> Run<T>
        decreases n,
    {
        if n == 0 {
            self
        } else {
            let before = self.after_globals::<P>(passes, layer, (n - 1) as nat);
            if before.failure is Some {
                before
            } else {
                before.after_global::<P>(passes[layer[n - 1] as int])
            }
        }
    }

    /// The state after the first `n` passes of `layer` have run on single methods, up to the first
    /// that does not get through: on `all` methods where a pass wants to see them all, on the
    /// `dirty` ones otherwise.
    pub open spec fn after_locals<P: SsaPass<T>>(
        self,
        passes: Seq<P::State>,
        layer: Seq<usize>,
        all: Seq<usize>,
        dirty: Seq<usize>,
        s: Settings,
        n: nat,
    ) -> Run<T>
        decreases n,
    {
        if n == 0 {
            self
        } else {
            let before = self.after_locals::<P>(passes, layer, all, dirty, s, (n - 1) as nat);
            let pass = passes[layer[n - 1] as int];
            if before.failure is Some || P::profiled(pass).is_global {
                before
            } else if P::profiled(pass).requires_full_scan {
                before.after_pass::<P>(pass, all, s)
            } else {
                before.after_pass::<P>(pass, dirty, s)
            }
        }
    }

    /// The state after every pass of `layer` has run once, those on the whole program first, and the
    /// passes after it. Each pass is told that the round begins and, where every pass got through,
    /// that it ends.
    pub open spec fn after_round<P: SsaPass<T>>(
        self,
        passes: Seq<P::State>,
        layer: Seq<usize>,
        s: Settings,
    ) -> Round<T, P::State> {
        let reset = Run { changed: false, ..self };
        let begun = told::<T, P>(passes, layer, self.program, true, layer.len());
        if begun.failure is Some {
            Round { run: Run { failure: begun.failure, ..reset }, passes: begun.passes }
        } else {
            let done = reset.after_globals::<P>(begun.passes, layer, layer.len()).after_locals::<P>(
                begun.passes,
                layer,
                self.eligible(false),
                self.eligible(true),
                s,
                layer.len(),
            );
            if done.failure is Some {
                Round { run: done, passes: begun.passes }
            } else {
                let ended = told::<T, P>(begun.passes, layer, done.program, false, layer.len());
                Round { run: Run { failure: ended.failure, ..done }, passes: ended.passes }
            }
        }
    }

    /// The state after the passes have run in rounds until nothing changes, at most `fuel` times,
    /// the passes after that, and whether something changed.
    pub open spec fn normalized<P: SsaPass<T>>(
        self,
        passes: Seq<P::State>,
        s: Settings,
        fuel: nat,
    ) -> (Round<T, P::State>, bool)
        decreases fuel,
    {
        if fuel == 0 {
            (Round { run: self, passes }, false)
        } else {
            let a = self.after_round::<P>(passes, every(passes.len()), s);
            if a.run.failure is Some || !a.run.changed {
                (a, false)
            } else {
                (a.run.normalized::<P>(a.passes, s, (fuel - 1) as nat).0, true)
            }
        }
    }

    /// The state after normalization, where there are passes that normalize, and these passes.
    pub open spec fn tidied<P: SsaPass<T>>(self, normalize: Seq<P::State>, s: Settings) -> Round<
        T,
        P::State,
    > {
        if normalize.len() == 0 {
            Round { run: self, passes: normalize }
        } else {
            self.normalized::<P>(normalize, s, s.max_phase_iterations as nat).0
        }
    }
}

/// Passes after they were told that a round begins or ends, and the first failure among them.
pub struct Told<S> {
    pub passes: Seq<S>,
    pub failure: Option<PassFailureView>,
}

/// The passes after the first `n` of `layer` are told that a round begins or ends, up to the first
/// that fails.
pub open spec fn told<T: Target, P: SsaPass<T>>(
    passes: Seq<P::State>,
    layer: Seq<usize>,
    program: CallView<T>,
    begins: bool,
    n: nat,
) -> Told<P::State>
    decreases n,
{
    if n == 0 {
        Told { passes, failure: None }
    } else {
        let before = told::<T, P>(passes, layer, program, begins, (n - 1) as nat);
        if before.failure is Some {
            before
        } else {
            let i = layer[n - 1] as int;
            let notice = if begins {
                P::initialized(before.passes[i], program)
            } else {
                P::finalized(before.passes[i], program)
            };
            Told {
                passes: before.passes.update(i, notice.state),
                failure: match notice.result {
                    Ok(_) => None,
                    Err(message) => Some(
                        PassFailureView {
                            pass: P::profiled(before.passes[i]).name,
                            position: None,
                            failure: FailureView::Run(message),
                        },
                    ),
                },
            }
        }
    }
}

/// Where a pass refuses to start, nothing runs in that round: the program and its functions stay
/// as they were, and the failure is that of the pass.
pub proof fn refused_start_runs_nothing<T: Target, P: SsaPass<T>>(
    run: Run<T>,
    passes: Seq<P::State>,
    layer: Seq<usize>,
    s: Settings,
    n: nat,
)
    requires
        n < layer.len(),
        told::<T, P>(passes, layer, run.program, true, n).failure is None,
        P::initialized(
            told::<T, P>(passes, layer, run.program, true, n).passes[layer[n as int] as int],
            run.program,
        ).result is Err,
    ensures
        ({
            let pass = told::<T, P>(passes, layer, run.program, true, n).passes[layer[n as int] as int];
            let failure = PassFailureView {
                pass: P::profiled(pass).name,
                position: None,
                failure: FailureView::Run(P::initialized(pass, run.program).result->Err_0),
            };
            run.after_round::<P>(passes, layer, s).run == (Run {
                changed: false,
                failure: Some(failure),
                ..run
            })
        }),
{
    lemma_told_stays::<T, P>(passes, layer, run.program, true, n + 1, layer.len());
}

proof fn lemma_told_stays<T: Target, P: SsaPass<T>>(
    passes: Seq<P::State>,
    layer: Seq<usize>,
    program: CallView<T>,
    begins: bool,
    n: nat,
    m: nat,
)
    requires
        n <= m,
        told::<T, P>(passes, layer, program, begins, n).failure is Some,
    ensures
        told::<T, P>(passes, layer, program, begins, m) == told::<T, P>(
            passes,
            layer,
            program,
            begins,
            n,
        ),
    decreases m,
{
    if n < m {
        lemma_told_stays::<T, P>(passes, layer, program, begins, n, (m - 1) as nat);
    }
}

/// A program and the passes that ran on it.
#[verifier::ext_equal]
pub struct Round<T: Target, S> {
    pub run: Run<T>,
    pub passes: Seq<S>,
}

/// A program, the passes that run on it in layers, and those that normalize.
#[verifier::ext_equal]
pub struct Crew<T: Target, S> {
    pub run: Run<T>,
    pub passes: Seq<S>,
    pub normalize: Seq<S>,
}

/// The state after the passes of a layer have run in rounds until nothing changes, at most `fuel`
/// times, and whether something changed; `moved` says whether something did before.
///
/// Normalization follows every round with a change, and the last round where there was one.
pub open spec fn settled<T: Target, P: SsaPass<T>>(
    crew: Crew<T, P::State>,
    layer: Seq<usize>,
    s: Settings,
    fuel: nat,
    moved: bool,
) -> (Crew<T, P::State>, bool)
    decreases fuel,
{
    if fuel == 0 {
        (crew, moved)
    } else {
        let a = crew.run.after_round::<P>(crew.passes, layer, s);
        if a.run.failure is Some || (!a.run.changed && !moved) {
            (Crew { run: a.run, passes: a.passes, ..crew }, moved)
        } else {
            let b = a.run.tidied::<P>(crew.normalize, s);
            let next = Crew { run: b.run, passes: a.passes, normalize: b.passes };
            if !a.run.changed || b.run.failure is Some {
                (next, true)
            } else {
                settled::<T, P>(next, layer, s, (fuel - 1) as nat, true)
            }
        }
    }
}

/// Lists the methods that have a function and, with `dirty_only`, may have changed.
fn method_order<T: Target, W: World<T>>(world: &W, store: &Program<T>, dirty_only: bool, Ghost(
    at,
): Ghost<Run<T>>) -> (r: Vec<usize>)
    requires
        at.fits(),
        at.program == world.program(),
        at.bodies == store.functions(),
        at.dirty == store.dirty@,
    ensures
        r@ == at.eligible(dirty_only),
        r@.no_duplicates(),
        names(r@, at.bodies.len()),
{
    let ghost keep = |m: usize|
        at.bodies[m as int] is Some && (dirty_only ==> at.dirty[m as int]);
    let order: Vec<usize> = world.methods_reverse_topological();
    let n: usize = if order.len() == 0 {
        store.bodies.len()
    } else {
        order.len()
    };
    let ghost turn = at.in_turn();
    assert(turn.no_duplicates());
    assert(names(turn, at.bodies.len()));
    let mut r: Vec<usize> = Vec::new();
    let mut i: usize = 0;
    while i < n
        invariant
            at.fits(),
            at.program == world.program(),
            at.bodies == store.functions(),
            at.dirty == store.dirty@,
            order@ == at.program.order,
            turn == at.in_turn(),
            names(turn, at.bodies.len()),
            n == turn.len(),
            i <= n,
            keep == (|m: usize|
                at.bodies[m as int] is Some && (dirty_only ==> at.dirty[m as int])),
            r@ == seqs::picked(turn, keep, i as nat),
        decreases n - i,
    {
        let m: usize = if order.len() == 0 {
            i
        } else {
            order[i]
        };
        assert(m == turn[i as int]);
        assert(at.bodies[m as int] == pass::body_view(store.bodies@[m as int]));
        let wanted: bool = store.bodies[m].is_some() && (!dirty_only || store.dirty[m]);
        assert(wanted == keep(m));
        if wanted {
            r.push(m);
        }
        i = i + 1;
    }
    proof {
        seqs::lemma_picked(turn, keep, n as nat);
        assert(turn.take(n as int) =~= turn);
        assert forall|k: int| 0 <= k < r@.len() implies #[trigger] r@[k] < at.bodies.len() by {
            assert(turn.contains(r@[k]));
        }
    }
    r
}

/// Tells the passes of a layer that a round begins or ends, up to the first that fails.
fn tell<T: Target, P: SsaPass<T>, W: World<T>>(
    passes: &mut Vec<P>,
    layer: &Vec<usize>,
    world: &W,
    begins: bool,
) -> (r: Option<PassFailure>)
    requires
        names(layer@, old(passes)@.len()),
    ensures
        ({
            let told = told::<T, P>(
                pass::states::<T, P>(old(passes)@),
                layer@,
                world.program(),
                begins,
                layer@.len(),
            );
            &&& pass::states::<T, P>(final(passes)@) == told.passes
            &&& run::failure_view(r) == told.failure
        }),
        final(passes)@.len() == old(passes)@.len(),
{
    let ghost start = pass::states::<T, P>(passes@);
    let mut failure: Option<PassFailure> = None;
    let mut i: usize = 0;
    while i < layer.len()
        invariant
            i <= layer@.len(),
            passes@.len() == old(passes)@.len(),
            names(layer@, passes@.len()),
            pass::states::<T, P>(passes@) == told::<T, P>(
                start,
                layer@,
                world.program(),
                begins,
                i as nat,
            ).passes,
            run::failure_view(failure) == told::<T, P>(
                start,
                layer@,
                world.program(),
                begins,
                i as nat,
            ).failure,
        decreases layer@.len() - i,
    {
        let p: usize = layer[i];
        if failure.is_none() {
            let ghost before = pass::states::<T, P>(passes@);
            assert(before[p as int] == passes@[p as int].state());
            let profile: PassProfile<T> = passes[p].profile();
            let result: Result<(), String> = if begins {
                passes[p].initialize(world)
            } else {
                passes[p].finalize(world)
            };
            let ghost after = pass::states::<T, P>(passes@);
            assert(after =~= before.update(p as int, passes@[p as int].state()));
            match result {
                Ok(_) => {},
                Err(message) => {
                    failure = Some(
                        PassFailure {
                            pass: profile.name,
                            position: None,
                            failure: Failure::Run(message),
                        },
                    );
                },
            }
        }
        i = i + 1;
    }
    failure
}

/// Runs every pass of a layer once, those on the whole program first, and tells each that the round
/// begins and ends.
pub fn run_passes_once<T: Target, P: SsaPass<T>, W: World<T>, D: Dispatch<T, P>>(
    passes: &mut Vec<P>,
    layer: &Vec<usize>,
    world: &mut W,
    store: &mut Program<T>,
    progress: &mut Progress,
    s: Settings,
    dispatch: &D,
)
    requires
        run::state(old(world).program(), old(store), old(progress)).fits(),
        old(progress).failure is None,
        names(layer@, old(passes)@.len()),
    ensures
        ({
            let round = run::state(
                old(world).program(),
                old(store),
                old(progress),
            ).after_round::<P>(pass::states::<T, P>(old(passes)@), layer@, s);
            &&& run::state(final(world).program(), final(store), final(progress)) == round.run
            &&& pass::states::<T, P>(final(passes)@) == round.passes
        }),
        final(passes)@.len() == old(passes)@.len(),
        run::state(final(world).program(), final(store), final(progress)).fits(),
{
    let ghost start = run::state(world.program(), store, progress);
    let all: Vec<usize> = method_order(world, store, false, Ghost(start));
    let dirty: Vec<usize> = method_order(world, store, true, Ghost(start));
    progress.changed = false;
    let ghost reset = Run { changed: false, ..start };
    progress.failure = tell(passes, layer, world, true);
    if progress.failure.is_some() {
        return ;
    }
    let ghost ready = pass::states::<T, P>(passes@);
    let mut i: usize = 0;
    while i < layer.len()
        invariant
            i <= layer@.len(),
            names(layer@, passes@.len()),
            ready == pass::states::<T, P>(passes@),
            run::state(world.program(), store, progress).fits(),
            store.bodies@.len() == start.bodies.len(),
            run::state(world.program(), store, progress) == reset.after_globals::<P>(
                ready,
                layer@,
                i as nat,
            ),
        decreases layer@.len() - i,
    {
        let p: usize = layer[i];
        assert(ready[p as int] == passes@[p as int].state());
        let profile: PassProfile<T> = passes[p].profile();
        if progress.failure.is_none() && profile.is_global {
            match passes[p].run_global(world, &mut store.events) {
                Ok(changed) => {
                    if changed {
                        progress.changed = true;
                    }
                },
                Err(message) => {
                    progress.failure = Some(
                        PassFailure {
                            pass: profile.name,
                            position: None,
                            failure: Failure::Run(message),
                        },
                    );
                },
            }
        }
        i = i + 1;
    }
    let ghost middle = run::state(world.program(), store, progress);
    let mut i: usize = 0;
    while i < layer.len()
        invariant
            i <= layer@.len(),
            names(layer@, passes@.len()),
            ready == pass::states::<T, P>(passes@),
            run::state(world.program(), store, progress).fits(),
            store.bodies@.len() == start.bodies.len(),
            all@.no_duplicates(),
            names(all@, start.bodies.len()),
            dirty@.no_duplicates(),
            names(dirty@, start.bodies.len()),
            run::state(world.program(), store, progress) == middle.after_locals::<P>(
                ready,
                layer@,
                all@,
                dirty@,
                s,
                i as nat,
            ),
        decreases layer@.len() - i,
    {
        let p: usize = layer[i];
        assert(ready[p as int] == passes@[p as int].state());
        let profile: PassProfile<T> = passes[p].profile();
        let ghost before = run::state(world.program(), store, progress);
        if progress.failure.is_none() && !profile.is_global {
            if profile.requires_full_scan {
                run::run_single_pass(&passes[p], world, store, progress, &all, s, dispatch);
            } else {
                run::run_single_pass(&passes[p], world, store, progress, &dirty, s, dispatch);
            }
        }
        assert(run::state(world.program(), store, progress).bodies.len() == before.bodies.len());
        assert(store.functions().len() == store.bodies@.len());
        i = i + 1;
    }
    if progress.failure.is_some() {
        return ;
    }
    progress.failure = tell(passes, layer, world, false);
}

/// Runs the passes in rounds until nothing changes, at most `fuel` times.
///
/// Returns whether something changed.
pub fn normalize_to_fixpoint<T: Target, P: SsaPass<T>, W: World<T>, D: Dispatch<T, P>>(
    passes: &mut Vec<P>,
    all: &Vec<usize>,
    world: &mut W,
    store: &mut Program<T>,
    progress: &mut Progress,
    s: Settings,
    dispatch: &D,
    fuel: usize,
) -> (r: bool)
    requires
        run::state(old(world).program(), old(store), old(progress)).fits(),
        old(progress).failure is None,
        all@ == every(old(passes)@.len()),
    ensures
        ({
            let (round, moved) = run::state(
                old(world).program(),
                old(store),
                old(progress),
            ).normalized::<P>(pass::states::<T, P>(old(passes)@), s, fuel as nat);
            &&& run::state(final(world).program(), final(store), final(progress)) == round.run
            &&& pass::states::<T, P>(final(passes)@) == round.passes
            &&& r == moved
        }),
        final(passes)@.len() == old(passes)@.len(),
        run::state(final(world).program(), final(store), final(progress)).fits(),
    decreases fuel,
{
    if fuel == 0 {
        return false;
    }
    let n: usize = passes.len();
    assert(names(all@, passes@.len())) by {
        assert(n == passes@.len());
    }
    assert(pass::states::<T, P>(passes@).len() == passes@.len());
    run_passes_once(passes, all, world, store, progress, s, dispatch);
    if progress.failure.is_some() || !progress.changed {
        return false;
    }
    let _ = normalize_to_fixpoint(passes, all, world, store, progress, s, dispatch, fuel - 1);
    true
}

/// Normalizes, where there are passes that do so.
fn tidy<T: Target, P: SsaPass<T>, W: World<T>, D: Dispatch<T, P>>(
    normalize: &mut Vec<P>,
    all: &Vec<usize>,
    world: &mut W,
    store: &mut Program<T>,
    progress: &mut Progress,
    s: Settings,
    dispatch: &D,
)
    requires
        run::state(old(world).program(), old(store), old(progress)).fits(),
        old(progress).failure is None,
        all@ == every(old(normalize)@.len()),
    ensures
        ({
            let round = run::state(old(world).program(), old(store), old(progress)).tidied::<P>(
                pass::states::<T, P>(old(normalize)@),
                s,
            );
            &&& run::state(final(world).program(), final(store), final(progress)) == round.run
            &&& pass::states::<T, P>(final(normalize)@) == round.passes
        }),
        final(normalize)@.len() == old(normalize)@.len(),
        run::state(final(world).program(), final(store), final(progress)).fits(),
{
    if normalize.len() > 0 {
        let _ = normalize_to_fixpoint(
            normalize,
            all,
            world,
            store,
            progress,
            s,
            dispatch,
            s.max_phase_iterations,
        );
    }
}

/// The crew that the parts make up.
pub open spec fn crew<T: Target, P: SsaPass<T>>(
    run: Run<T>,
    passes: &Vec<P>,
    normalize: &Vec<P>,
) -> Crew<T, P::State> {
    Crew {
        run,
        passes: pass::states::<T, P>(passes@),
        normalize: pass::states::<T, P>(normalize@),
    }
}

/// Runs the passes of a layer in rounds until nothing changes, at most `fuel` times, and
/// normalizes in between.
///
/// Returns whether something changed, now or before.
pub fn layer_to_fixpoint<T: Target, P: SsaPass<T>, W: World<T>, D: Dispatch<T, P>>(
    passes: &mut Vec<P>,
    layer: &Vec<usize>,
    normalize: &mut Vec<P>,
    all: &Vec<usize>,
    world: &mut W,
    store: &mut Program<T>,
    progress: &mut Progress,
    s: Settings,
    dispatch: &D,
    fuel: usize,
    moved: bool,
) -> (r: bool)
    requires
        run::state(old(world).program(), old(store), old(progress)).fits(),
        old(progress).failure is None,
        names(layer@, old(passes)@.len()),
        all@ == every(old(normalize)@.len()),
    ensures
        (
            crew::<T, P>(
                run::state(final(world).program(), final(store), final(progress)),
                final(passes),
                final(normalize),
            ),
            r,
        ) == settled::<T, P>(
            crew::<T, P>(
                run::state(old(world).program(), old(store), old(progress)),
                old(passes),
                old(normalize),
            ),
            layer@,
            s,
            fuel as nat,
            moved,
        ),
        final(passes)@.len() == old(passes)@.len(),
        final(normalize)@.len() == old(normalize)@.len(),
        run::state(final(world).program(), final(store), final(progress)).fits(),
    decreases fuel,
{
    if fuel == 0 {
        return moved;
    }
    run_passes_once(passes, layer, world, store, progress, s, dispatch);
    if progress.failure.is_some() {
        return moved;
    }
    if !progress.changed {
        if moved {
            tidy(normalize, all, world, store, progress, s, dispatch);
        }
        return moved;
    }
    tidy(normalize, all, world, store, progress, s, dispatch);
    if progress.failure.is_some() {
        return true;
    }
    layer_to_fixpoint(
        passes,
        layer,
        normalize,
        all,
        world,
        store,
        progress,
        s,
        dispatch,
        fuel - 1,
        true,
    )
}

} // verus!
