//! One pass on many methods, and one round of passes.
use crate::events::{EventLog, EventView};
use crate::ir::function::{SsaFunction, SsaView};
use crate::pointer::PointerSize;
use crate::scheduling::marks;
use crate::scheduling::pass;
use crate::scheduling::pass::{PassContext, PassProfile, SsaPass, Surroundings};
use crate::scheduling::visit;
use crate::scheduling::visit::{Dispatch, Failure, FailureView, Job, Visit};
use crate::seqs;
use crate::target::Target;
use crate::world::{CallView, World};
use dashmap::DashSet;
use vstd::prelude::*;

verus! {

/// The functions of a program, each at the position of its method, and what is known of them.
pub struct Program<T: Target> {
    /// The functions; a method may have none.
    pub bodies: Vec<Option<SsaFunction<T>>>,
    /// For each method, whether it may have changed since the passes last ran on it.
    pub dirty: Vec<bool>,
    /// For each method, whether a pass has changed it.
    pub processed: Vec<bool>,
    /// The reported events.
    pub events: EventLog<T>,
}

impl<T: Target> Program<T> {
    /// The functions.
    pub open spec fn functions(&self) -> Seq<Option<SsaView<T>>> {
        pass::body_views(self.bodies@)
    }

    /// Creates the program with these functions.
    #[must_use]
    pub fn new(bodies: Vec<Option<SsaFunction<T>>>) -> (r: Self)
        ensures
            r.bodies@ == bodies@,
            r.dirty@ == Seq::new(bodies@.len(), |m: int| false),
            r.processed@ == Seq::new(bodies@.len(), |m: int| false),
            r.events@ == Seq::<EventView<T>>::empty(),
    {
        let n: usize = bodies.len();
        let dirty: Vec<bool> = cleared(n);
        let processed: Vec<bool> = cleared(n);
        Program { bodies, dirty, processed, events: EventLog::new() }
    }
}

/// Makes `n` marks that are not set.
pub(crate) fn cleared(n: usize) -> (r: Vec<bool>)
    ensures
        r@ == Seq::new(n as nat, |m: int| false),
{
    let mut r: Vec<bool> = Vec::new();
    let mut i: usize = 0;
    while i < n
        invariant
            i <= n,
            r@.len() == i,
            forall|j: int| 0 <= j < i ==> !#[trigger] r@[j],
        decreases n - i,
    {
        r.push(false);
        i = i + 1;
    }
    assert(r@ =~= Seq::new(n as nat, |m: int| false));
    r
}

/// A pass that did not get through.
#[derive(Debug, PartialEq, Eq)]
pub struct PassFailure {
    /// The name of the pass.
    pub pass: &'static str,
    /// The position of the method on which it ran; none for the whole program.
    pub position: Option<usize>,
    /// What went wrong.
    pub failure: Failure,
}

/// A pass that did not get through, as a mathematical value.
pub struct PassFailureView {
    pub pass: Seq<char>,
    pub position: Option<usize>,
    pub failure: FailureView,
}

impl View for PassFailure {
    type V = PassFailureView;

    open spec fn view(&self) -> PassFailureView {
        PassFailureView { pass: self.pass@, position: self.position, failure: self.failure@ }
    }
}

/// What an iteration has done so far.
pub struct Progress {
    /// The methods that a pass has changed in this iteration.
    pub modified: DashSet<usize>,
    /// Whether a pass of this round has changed something.
    pub changed: bool,
    /// The pass that did not get through.
    pub failure: Option<PassFailure>,
}

/// The pass that did not get through, as a mathematical value, where there is one.
pub open spec fn failure_view(failure: Option<PassFailure>) -> Option<PassFailureView> {
    match failure {
        Some(f) => Some(f@),
        None => None,
    }
}

impl Progress {
    /// The pass that did not get through.
    pub open spec fn failed(&self) -> Option<PassFailureView> {
        failure_view(self.failure)
    }
}

/// How passes are run.
#[derive(Debug, Clone, Copy, PartialEq, Eq, Structural)]
pub struct Settings {
    /// The pointer width of the target's runtime.
    pub ptr_size: PointerSize,
    /// How many rounds are run at most until nothing changes.
    pub max_phase_iterations: usize,
    /// Whether every function must be well-formed after every pass.
    pub verify_hard: bool,
}

/// A program on which passes run, as a mathematical value.
#[verifier::ext_equal]
pub struct Run<T: Target> {
    /// The methods.
    pub program: CallView<T>,
    /// The functions.
    pub bodies: Seq<Option<SsaView<T>>>,
    /// For each method, whether it may have changed.
    pub dirty: Seq<bool>,
    /// For each method, whether a pass has changed it.
    pub processed: Seq<bool>,
    /// The reported events.
    pub events: Seq<EventView<T>>,
    /// The methods that a pass has changed in this iteration.
    pub modified: Set<usize>,
    /// Whether a pass of this round has changed something.
    pub changed: bool,
    /// The pass that did not get through.
    pub failure: Option<PassFailureView>,
}

/// The state that the parts make up.
pub open spec fn state<T: Target>(
    program: CallView<T>,
    store: &Program<T>,
    progress: &Progress,
) -> Run<T> {
    Run {
        program,
        bodies: store.functions(),
        dirty: store.dirty@,
        processed: store.processed@,
        events: store.events@,
        modified: marks::members(progress.modified),
        changed: progress.changed,
        failure: progress.failed(),
    }
}

impl<T: Target> Run<T> {
    /// Every method has its marks, and the order names each method at most once.
    pub open spec fn fits(self) -> bool {
        let n = self.program.methods.len();
        &&& n <= usize::MAX
        &&& self.bodies.len() == n
        &&& self.dirty.len() == n
        &&& self.processed.len() == n
        &&& self.program.order.no_duplicates()
        &&& forall|k: int|
            0 <= k < self.program.order.len() ==> #[trigger] self.program.order[k] < n
    }

    /// The methods in the order in which they are worked on.
    pub open spec fn in_turn(self) -> Seq<usize> {
        if self.program.order.len() == 0 {
            Seq::new(self.program.methods.len(), |i: int| i as usize)
        } else {
            self.program.order
        }
    }

    /// The methods that have a function and, with `dirty_only`, may have changed, in order.
    pub open spec fn eligible(self, dirty_only: bool) -> Seq<usize> {
        seqs::picked(
            self.in_turn(),
            |m: usize| self.bodies[m as int] is Some && (dirty_only ==> self.dirty[m as int]),
            self.in_turn().len(),
        )
    }

    /// Those of the listed methods on which the pass runs.
    pub open spec fn work<P: SsaPass<T>>(self, pass: P::State, list: Seq<usize>) -> Seq<usize> {
        seqs::picked(
            list,
            |m: usize|
                self.bodies[m as int] is Some && P::runs_on(
                    pass,
                    self.program.methods[m as int],
                    self.program,
                ),
            list.len(),
        )
    }

    /// What the pass sees beside the function that it works on.
    pub open spec fn around<P: SsaPass<T>>(self, pass: P::State, s: Settings) -> Surroundings<T> {
        Surroundings {
            program: self.program,
            peers: if P::profiled(pass).reads_peer_ssa {
                self.bodies
            } else {
                Seq::empty()
            },
            ptr_size: s.ptr_size,
        }
    }

    /// What the pass leaves of method `m`.
    pub open spec fn visit_at<P: SsaPass<T>>(self, pass: P::State, m: usize, s: Settings) -> Visit<T> {
        visit::visited::<T, P>(
            pass,
            self.bodies[m as int].unwrap(),
            self.program.methods[m as int],
            self.around::<P>(pass, s),
            s.verify_hard,
        )
    }

    /// The events that the pass reports on the methods of `work`.
    pub open spec fn visit_events<P: SsaPass<T>>(
        self,
        pass: P::State,
        work: Seq<usize>,
        s: Settings,
    ) -> spec_fn(int) -> Seq<EventView<T>> {
        |k: int| self.visit_at::<P>(pass, work[k], s).events
    }

    /// The methods of `work` that the pass changes.
    pub open spec fn visit_changed<P: SsaPass<T>>(
        self,
        pass: P::State,
        work: Seq<usize>,
        s: Settings,
    ) -> Set<usize> {
        Set::new(|m: usize| work.contains(m) && self.visit_at::<P>(pass, m, s).changed)
    }

    /// The pass changes one of the methods of `work`.
    pub open spec fn visit_changes<P: SsaPass<T>>(
        self,
        pass: P::State,
        work: Seq<usize>,
        s: Settings,
    ) -> bool {
        exists|k: int| 0 <= k < work.len() && self.visit_at::<P>(pass, #[trigger] work[k], s).changed
    }

    /// The first of the first `n` methods of `work` on which the pass does not get through.
    pub open spec fn visit_failure<P: SsaPass<T>>(
        self,
        pass: P::State,
        work: Seq<usize>,
        s: Settings,
        n: nat,
    ) -> Option<PassFailureView>
        decreases n,
    {
        if n == 0 {
            None
        } else {
            match self.visit_failure::<P>(pass, work, s, (n - 1) as nat) {
                Some(f) => Some(f),
                None => match self.visit_at::<P>(pass, work[n - 1], s).failure {
                    Some(failure) => Some(
                        PassFailureView {
                            pass: P::profiled(pass).name,
                            position: Some(work[n - 1]),
                            failure,
                        },
                    ),
                    None => None,
                },
            }
        }
    }

    /// The state after the pass has run on the listed methods, each by itself.
    pub open spec fn after_pass<P: SsaPass<T>>(
        self,
        pass: P::State,
        list: Seq<usize>,
        s: Settings,
    ) -> Run<T> {
        let work = self.work::<P>(pass, list);
        Run {
            bodies: Seq::new(
                self.bodies.len(),
                |m: int|
                    if work.contains(m as usize) {
                        Some(self.visit_at::<P>(pass, m as usize, s).ssa)
                    } else {
                        self.bodies[m]
                    },
            ),
            processed: Seq::new(
                self.processed.len(),
                |m: int|
                    self.processed[m] || (work.contains(m as usize) && self.visit_at::<P>(
                        pass,
                        m as usize,
                        s,
                    ).changed),
            ),
            modified: self.modified.union(self.visit_changed::<P>(pass, work, s)),
            events: self.events + seqs::flat(self.visit_events::<P>(pass, work, s), work.len()),
            changed: self.changed || self.visit_changes::<P>(pass, work, s),
            failure: self.visit_failure::<P>(pass, work, s, work.len()),
            ..self
        }
    }
}

/// No job is that of method `m`.
spec fn is_absent<T: Target>(jobs: Seq<Job<T>>, m: int) -> bool {
    forall|k: int| 0 <= k < jobs.len() ==> (#[trigger] jobs[k]).position != m
}

/// Takes the functions of the listed methods on which the pass runs.
fn take_jobs<T: Target, P: SsaPass<T>, W: World<T>>(
    pass: &P,
    world: &W,
    store: &mut Program<T>,
    list: &Vec<usize>,
    Ghost(start): Ghost<Run<T>>,
) -> (r: Vec<Job<T>>)
    requires
        start.fits(),
        start.program == world.program(),
        start.bodies == old(store).functions(),
        list@.no_duplicates(),
        forall|k: int| 0 <= k < list@.len() ==> #[trigger] list@[k] < start.bodies.len(),
    ensures
        final(store).dirty@ == old(store).dirty@,
        final(store).processed@ == old(store).processed@,
        final(store).events@ == old(store).events@,
        final(store).bodies@.len() == old(store).bodies@.len(),
        r@.len() == start.work::<P>(pass.state(), list@).len(),
        forall|k: int|
            0 <= k < r@.len() ==> (#[trigger] r@[k]).is_fresh(
                start.work::<P>(pass.state(), list@)[k],
                start.program.methods[start.work::<P>(pass.state(), list@)[k] as int],
                start.bodies[start.work::<P>(pass.state(), list@)[k] as int].unwrap(),
            ),
        forall|m: int|
            0 <= m < start.bodies.len() && !start.work::<P>(pass.state(), list@).contains(m as usize) ==> (
            #[trigger] final(store).functions()[m]) == start.bodies[m],
{
    let ghost keep = |m: usize|
        start.bodies[m as int] is Some && P::runs_on(
                    pass.state(),
                    start.program.methods[m as int],
                    start.program,
                );
    let mut jobs: Vec<Job<T>> = Vec::new();
    let mut i: usize = 0;
    while i < list.len()
        invariant
            start.fits(),
            start.program == world.program(),
            list@.no_duplicates(),
            forall|k: int| 0 <= k < list@.len() ==> #[trigger] list@[k] < start.bodies.len(),
            i <= list@.len(),
            keep == (|m: usize|
                start.bodies[m as int] is Some && P::runs_on(
                    pass.state(),
                    start.program.methods[m as int],
                    start.program,
                )),
            store.dirty@ == old(store).dirty@,
            store.processed@ == old(store).processed@,
            store.events@ == old(store).events@,
            store.bodies@.len() == start.bodies.len(),
            jobs@.len() == seqs::picked(list@, keep, i as nat).len(),
            forall|k: int|
                0 <= k < jobs@.len() ==> (#[trigger] jobs@[k]).is_fresh(
                    seqs::picked(list@, keep, i as nat)[k],
                    start.program.methods[seqs::picked(list@, keep, i as nat)[k] as int],
                    start.bodies[seqs::picked(list@, keep, i as nat)[k] as int].unwrap(),
                ),
            forall|m: int|
                0 <= m < start.bodies.len() && !seqs::picked(list@, keep, i as nat).contains(
                    m as usize,
                ) ==> (#[trigger] store.functions()[m]) == start.bodies[m],
        decreases list@.len() - i,
    {
        let m: usize = list[i];
        let ghost done = seqs::picked(list@, keep, i as nat);
        let ghost before = store.functions();
        proof {
            seqs::lemma_picked(list@, keep, i as nat);
            if done.contains(m) {
                let k = choose|k: int| 0 <= k < done.len() && done[k] == m;
                assert(list@.take(i as int).contains(done[k]));
                let j = choose|j: int|
                    0 <= j < list@.take(i as int).len() && list@.take(i as int)[j] == m;
                assert(list@[j] == list@[i as int]);
            }
            assert(store.functions()[m as int] == start.bodies[m as int]);
            assert(store.functions()[m as int] == pass::body_view(store.bodies@[m as int]));
        }
        let method: T::MethodRef = world.method(m);
        if store.bodies[m].is_some() && pass.should_run(&method, world) {
            assert(keep(m));
            let taken: Option<SsaFunction<T>> = store.bodies[m].take();
            if let Some(ssa) = taken {
                jobs.push(
                    Job {
                        position: m,
                        method,
                        ssa,
                        events: EventLog::new(),
                        changed: false,
                        failure: None,
                    },
                );
            }
            proof {
                assert forall|x: int|
                    0 <= x < start.bodies.len() && !done.push(m).contains(x as usize) implies (
                #[trigger] store.functions()[x]) == start.bodies[x] by {
                    if x == m {
                        assert(done.push(m)[done.len() as int] == m);
                    } else {
                        if done.contains(x as usize) {
                            let k = choose|k: int| 0 <= k < done.len() && done[k] == x as usize;
                            assert(done.push(m)[k] == x as usize);
                        }
                        assert(before[x] == start.bodies[x]);
                    }
                }
            }
        } else {
            assert(!keep(m));
        }
        i = i + 1;
    }
    jobs
}

/// The events of the jobs.
spec fn job_events<T: Target>(jobs: Seq<Job<T>>) -> spec_fn(int) -> Seq<EventView<T>> {
    |k: int| jobs[k].events@
}

/// One of the jobs counts as changed.
spec fn job_changes<T: Target>(jobs: Seq<Job<T>>) -> bool {
    exists|k: int| 0 <= k < jobs.len() && (#[trigger] jobs[k]).changed
}

/// The methods of the jobs from `n` on that count as changed.
spec fn job_changed<T: Target>(jobs: Seq<Job<T>>, n: int) -> Set<usize> {
    Set::new(
        |m: usize|
            exists|k: int|
                n <= k < jobs.len() && (#[trigger] jobs[k]).position == m && jobs[k].changed,
    )
}

proof fn lemma_job_changed<T: Target>(jobs: Seq<Job<T>>, n: int)
    requires
        0 < n <= jobs.len(),
    ensures
        job_changed(jobs, n - 1) == (if jobs[n - 1].changed {
            job_changed(jobs, n).insert(jobs[n - 1].position)
        } else {
            job_changed(jobs, n)
        }),
{
    let now = job_changed(jobs, n - 1);
    let then = if jobs[n - 1].changed {
        job_changed(jobs, n).insert(jobs[n - 1].position)
    } else {
        job_changed(jobs, n)
    };
    assert forall|m: usize| now.contains(m) <==> then.contains(m) by {
        if now.contains(m) {
            let k = choose|k: int|
                n - 1 <= k < jobs.len() && (#[trigger] jobs[k]).position == m && jobs[k].changed;
            if k >= n {
                assert(job_changed(jobs, n).contains(m));
            }
        }
        if job_changed(jobs, n).contains(m) {
            let k = choose|k: int|
                n <= k < jobs.len() && (#[trigger] jobs[k]).position == m && jobs[k].changed;
            assert(now.contains(m));
        }
    }
    assert(now =~= then);
}

/// The first of the first `n` jobs that went wrong.
spec fn job_failure<T: Target>(jobs: Seq<Job<T>>, pass: Seq<char>, n: nat) -> Option<
    PassFailureView,
>
    decreases n,
{
    if n == 0 {
        None
    } else {
        match job_failure(jobs, pass, (n - 1) as nat) {
            Some(f) => Some(f),
            None => match jobs[n - 1].failure {
                Some(failure) => Some(
                    PassFailureView {
                        pass,
                        position: Some(jobs[n - 1].position),
                        failure: failure@,
                    },
                ),
                None => None,
            },
        }
    }
}

/// Gives the functions back, and records what became of them.
fn return_jobs<T: Target>(
    store: &mut Program<T>,
    progress: &mut Progress,
    jobs: Vec<Job<T>>,
    pass: &'static str,
)
    requires
        old(store).processed@.len() == old(store).bodies@.len(),
        old(progress).failure is None,
        forall|k: int|
            0 <= k < jobs@.len() ==> (#[trigger] jobs@[k]).position < old(store).bodies@.len(),
        forall|a: int, b: int|
            0 <= a < b < jobs@.len() ==> (#[trigger] jobs@[a]).position != (
            #[trigger] jobs@[b]).position,
    ensures
        final(store).dirty@ == old(store).dirty@,
        final(store).bodies@.len() == old(store).bodies@.len(),
        final(store).processed@.len() == old(store).processed@.len(),
        final(store).events@ == old(store).events@ + seqs::flat(job_events(jobs@), jobs@.len()),
        final(progress).changed == (old(progress).changed || job_changes(jobs@)),
        final(progress).failed() == job_failure(jobs@, pass@, jobs@.len()),
        forall|k: int|
            0 <= k < jobs@.len() ==> {
                let m = (#[trigger] jobs@[k]).position as int;
                &&& final(store).functions()[m] == Some(jobs@[k].ssa@)
                &&& final(store).processed@[m] == (old(store).processed@[m] || jobs@[k].changed)
            },
        forall|m: int|
            0 <= m < old(store).bodies@.len() && is_absent(jobs@, m) ==> {
                &&& #[trigger] final(store).functions()[m] == old(store).functions()[m]
                &&& final(store).processed@[m] == old(store).processed@[m]
            },
        marks::members(final(progress).modified) == marks::members(old(progress).modified).union(
            job_changed(jobs@, 0),
        ),
{
    let ghost all = jobs@;
    let ghost n = all.len();
    let mut rest: Vec<Job<T>> = jobs;
    let mut log: EventLog<T> = EventLog::new();
    assert(seqs::flat(job_events(all), n) + log@ =~= seqs::flat(job_events(all), n));
    while rest.len() > 0
        invariant
            n == all.len(),
            rest@.len() <= n,
            rest@ == all.take(rest@.len() as int),
            store.dirty@ == old(store).dirty@,
            store.events@ == old(store).events@,
            store.bodies@.len() == old(store).bodies@.len(),
            store.processed@.len() == old(store).bodies@.len(),
            forall|k: int|
                0 <= k < n ==> (#[trigger] all[k]).position < old(store).bodies@.len(),
            forall|a: int, b: int|
                0 <= a < b < n ==> (#[trigger] all[a]).position != (#[trigger] all[b]).position,
            seqs::flat(job_events(all), rest@.len()) + log@ == seqs::flat(job_events(all), n),
            marks::members(progress.modified) == marks::members(old(progress).modified).union(
                job_changed(all, rest@.len() as int),
            ),
            progress.changed == (old(progress).changed || exists|k: int|
                rest@.len() <= k < n && (#[trigger] all[k]).changed),
            (match job_failure(all, pass@, rest@.len()) {
                Some(f) => Some(f),
                None => progress.failed(),
            }) == job_failure(all, pass@, n),
            forall|k: int|
                rest@.len() <= k < n ==> {
                    let m = (#[trigger] all[k]).position as int;
                    &&& store.functions()[m] == Some(all[k].ssa@)
                    &&& store.processed@[m] == (old(store).processed@[m] || all[k].changed)
                },
            forall|m: int|
                0 <= m < old(store).bodies@.len() && (forall|k: int|
                    rest@.len() <= k < n ==> (#[trigger] all[k]).position != m) ==> {
                    &&& #[trigger] store.functions()[m] == old(store).functions()[m]
                    &&& store.processed@[m] == old(store).processed@[m]
                },
        decreases rest@.len(),
    {
        let ghost m = rest@.len();
        let ghost bodies = store.functions();
        let ghost processed = store.processed@;
        let ghost modified = marks::members(progress.modified);
        let ghost tail = log@;
        if let Some(job) = rest.pop() {
            assert(job == all[m - 1]);
            assert(rest@ =~= all.take(m - 1));
            let p: usize = job.position;
            let mut events: EventLog<T> = job.events;
            events.append_all(log);
            log = events;
            proof {
                let f = job_events(all);
                assert(seqs::flat(f, (m - 1) as nat) + (f(m - 1) + tail) =~= seqs::flat(f, m)
                    + tail);
            }
            store.bodies.set(p, Some(job.ssa));
            if job.changed {
                store.processed.set(p, true);
                let _ = marks::mark(&mut progress.modified, p);
                progress.changed = true;
            }
            match job.failure {
                Some(failure) => {
                    progress.failure = Some(PassFailure { pass, position: Some(p), failure });
                },
                None => {},
            }
            proof {
                assert(marks::members(progress.modified) =~= marks::members(
                    old(progress).modified,
                ).union(job_changed(all, m - 1))) by {
                    lemma_job_changed(all, m as int);
                }
                assert(store.functions() =~= bodies.update(p as int, Some(all[m - 1].ssa@)));
                assert forall|k: int| m - 1 <= k < n implies {
                    let x = (#[trigger] all[k]).position as int;
                    &&& store.functions()[x] == Some(all[k].ssa@)
                    &&& store.processed@[x] == (old(store).processed@[x] || all[k].changed)
                } by {
                    if k == m - 1 {
                        assert forall|j: int| m <= j < n implies (#[trigger] all[j]).position
                            != p by {
                            assert(all[m - 1].position != all[j].position);
                        }
                        assert(bodies[p as int] == old(store).functions()[p as int]);
                    } else {
                        assert(all[m - 1].position != all[k].position);
                    }
                }
                assert forall|x: int|
                    0 <= x < old(store).bodies@.len() && (forall|k: int|
                        m - 1 <= k < n ==> (#[trigger] all[k]).position != x) implies {
                    &&& #[trigger] store.functions()[x] == old(store).functions()[x]
                    &&& store.processed@[x] == old(store).processed@[x]
                } by {
                    assert(all[m - 1].position != x);
                    assert(bodies[x] == old(store).functions()[x]);
                }
            }
        }
    }
    assert(seqs::flat(job_events(all), 0) + log@ =~= log@);
    store.events.append_all(log);
}

/// Returns equal functions.
fn copied<T: Target>(bodies: &Vec<Option<SsaFunction<T>>>) -> (r: Vec<Option<SsaFunction<T>>>)
    ensures
        pass::body_views(r@) == pass::body_views(bodies@),
{
    let mut r: Vec<Option<SsaFunction<T>>> = Vec::new();
    let mut i: usize = 0;
    while i < bodies.len()
        invariant
            i <= bodies@.len(),
            r@.len() == i,
            forall|j: int|
                0 <= j < i ==> pass::body_view(#[trigger] r@[j]) == pass::body_view(bodies@[j]),
        decreases bodies@.len() - i,
    {
        let copy: Option<SsaFunction<T>> = match &bodies[i] {
            Some(ssa) => Some(ssa.duplicate()),
            None => None,
        };
        r.push(copy);
        i = i + 1;
    }
    assert(pass::body_views(r@) =~= pass::body_views(bodies@));
    r
}

/// Runs a pass on the listed methods, each by itself.
pub fn run_single_pass<T: Target, P: SsaPass<T>, W: World<T>, D: Dispatch<T, P>>(
    pass: &P,
    world: &W,
    store: &mut Program<T>,
    progress: &mut Progress,
    list: &Vec<usize>,
    s: Settings,
    dispatch: &D,
)
    requires
        state(world.program(), old(store), old(progress)).fits(),
        old(progress).failure is None,
        list@.no_duplicates(),
        forall|k: int| 0 <= k < list@.len() ==> #[trigger] list@[k] < old(store).bodies@.len(),
    ensures
        state(world.program(), final(store), final(progress)) == state(
            world.program(),
            old(store),
            old(progress),
        ).after_pass::<P>(pass.state(), list@, s),
{
    let ghost start = state(world.program(), store, progress);
    let ghost work = start.work::<P>(pass.state(), list@);
    let profile: PassProfile<T> = pass.profile();
    let peers: Vec<Option<SsaFunction<T>>> = if profile.reads_peer_ssa {
        copied(&store.bodies)
    } else {
        Vec::new()
    };
    assert(pass::body_views(peers@) =~= start.around::<P>(pass.state(), s).peers);
    let mut jobs: Vec<Job<T>> = take_jobs(pass, world, store, list, Ghost(start));
    let ghost fresh = jobs@;
    let ghost taken = store.functions();
    let context: PassContext<'_, T, W> = PassContext {
        host: world,
        peers: &peers,
        ptr_size: s.ptr_size,
    };
    assert(context@ == start.around::<P>(pass.state(), s));
    dispatch.run_all(pass, &mut jobs, &context, s.verify_hard);
    let ghost done = jobs@;
    proof {
        seqs::lemma_picked(
            list@,
            |m: usize|
                start.bodies[m as int] is Some && P::runs_on(
                    pass.state(),
                    start.program.methods[m as int],
                    start.program,
                ),
            list@.len(),
        );
        assert(list@.take(list@.len() as int) =~= list@);
        assert forall|k: int| 0 <= k < done.len() implies (#[trigger] done[k]).position == work[k]
            && done[k].outcome() == start.visit_at::<P>(pass.state(), work[k], s) && work[k]
            < start.bodies.len() by {
            assert(done[k].follows::<P>(&fresh[k], pass.state(), context@, s.verify_hard));
            assert(fresh[k].is_fresh(
                work[k],
                start.program.methods[work[k] as int],
                start.bodies[work[k] as int].unwrap(),
            ));
            assert(fresh[k].events@ + start.visit_at::<P>(pass.state(), work[k], s).events =~= start.visit_at::<P>(
                pass.state(),
                work[k],
                s,
            ).events);
            assert(list@.contains(work[k]));
        }
    }
    return_jobs(store, progress, jobs, profile.name);
    proof {
        let end = state(world.program(), store, progress);
        let aim = start.after_pass::<P>(pass.state(), list@, s);
        lemma_jobs_match::<T, P>(start, pass.state(), work, s, done, profile.name@, done.len());
        assert(job_changes(done) == start.visit_changes::<P>(pass.state(), work, s)) by {
            if job_changes(done) {
                let k = choose|k: int| 0 <= k < done.len() && (#[trigger] done[k]).changed;
                assert(start.visit_at::<P>(pass.state(), work[k], s).changed);
            }
            if start.visit_changes::<P>(pass.state(), work, s) {
                let k = choose|k: int|
                    0 <= k < work.len() && start.visit_at::<P>(pass.state(), #[trigger] work[k], s).changed;
                assert(done[k].changed);
            }
        }
        assert forall|m: int|
            #![trigger end.bodies[m]]
            #![trigger end.processed[m]]
            0 <= m < start.bodies.len() implies end.bodies[m] == aim.bodies[m] && end.processed[m]
            == aim.processed[m] by {
            if work.contains(m as usize) {
                let k = choose|k: int| 0 <= k < work.len() && work[k] == m as usize;
                assert(done[k].position == m);
                assert(done[k].outcome() == start.visit_at::<P>(pass.state(), work[k], s));
            } else {
                assert(is_absent(done, m)) by {
                    assert forall|k: int| 0 <= k < done.len() implies (
                    #[trigger] done[k]).position != m by {
                        assert(done[k].position == work[k]);
                    }
                }
                assert(store.functions()[m] == taken[m]);
            }
        }
        assert(end.bodies =~= aim.bodies);
        assert(end.processed =~= aim.processed);
        assert(job_changed(done, 0) =~= start.visit_changed::<P>(pass.state(), work, s)) by {
            assert forall|m: usize| job_changed(done, 0).contains(m) <==> start.visit_changed::<P>(
                pass.state(),
                work,
                s,
            ).contains(m) by {
                if job_changed(done, 0).contains(m) {
                    let k = choose|k: int|
                        0 <= k < done.len() && (#[trigger] done[k]).position == m
                            && done[k].changed;
                    assert(work[k] == m);
                    assert(start.visit_at::<P>(pass.state(), work[k], s).changed);
                }
                if start.visit_changed::<P>(pass.state(), work, s).contains(m) {
                    let k = choose|k: int| 0 <= k < work.len() && work[k] == m;
                    assert(done[k].position == m);
                    assert(done[k].changed);
                }
            }
        }
        assert(end.modified =~= aim.modified);
    }
}

proof fn lemma_jobs_match<T: Target, P: SsaPass<T>>(
    start: Run<T>,
    pass: P::State,
    work: Seq<usize>,
    s: Settings,
    done: Seq<Job<T>>,
    name: Seq<char>,
    n: nat,
)
    requires
        n <= done.len(),
        done.len() == work.len(),
        name == P::profiled(pass).name,
        forall|k: int|
            0 <= k < done.len() ==> (#[trigger] done[k]).position == work[k] && done[k].outcome()
                == start.visit_at::<P>(pass, work[k], s),
    ensures
        seqs::flat(job_events(done), n) == seqs::flat(start.visit_events::<P>(pass, work, s), n),
        job_failure(done, name, n) == start.visit_failure::<P>(pass, work, s, n),
    decreases n,
{
    if n > 0 {
        lemma_jobs_match::<T, P>(start, pass, work, s, done, name, (n - 1) as nat);
        assert(done[n - 1].outcome() == start.visit_at::<P>(pass, work[n - 1], s));
        assert(done[n - 1].outcome().events == done[n - 1].events@);
    }
}

} // verus!
