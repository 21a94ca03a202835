//! What becomes of one method under one pass.
use crate::events::{EventLog, EventView};
use crate::ir::defects::Defect;
use crate::ir::function::{SsaFunction, SsaView};
use crate::passes::deadcode;
use crate::passes::mending;
use crate::passes::rebuild;
use crate::scheduling::pass::{
    ModificationScope, PassContext, PassProfile, SsaPass, Surroundings,
};
use crate::target::Target;
use crate::world::World;
use vstd::prelude::*;

verus! {

/// Why a pass did not get through.
#[derive(Debug, PartialEq, Eq)]
pub enum Failure {
    /// The pass failed, for this reason.
    Run(String),
    /// The function could not be rebuilt after the pass, for these reasons.
    Rebuild(Vec<Defect>),
    /// The pass left a function with these defects.
    Invalid(Vec<Defect>),
}

/// Why a pass did not get through, as a mathematical value.
pub enum FailureView {
    Run(Seq<char>),
    Rebuild(Seq<Defect>),
    Invalid(Seq<Defect>),
}

impl View for Failure {
    type V = FailureView;

    open spec fn view(&self) -> FailureView {
        match *self {
            Failure::Run(message) => FailureView::Run(message@),
            Failure::Rebuild(defects) => FailureView::Rebuild(defects@),
            Failure::Invalid(defects) => FailureView::Invalid(defects@),
        }
    }
}

/// What a pass leaves of one method: the function, the reported events, whether the function counts
/// as changed, and what went wrong.
#[verifier::ext_equal]
pub struct Visit<T: Target> {
    pub ssa: SsaView<T>,
    pub events: Seq<EventView<T>>,
    pub changed: bool,
    pub failure: Option<FailureView>,
}

/// What `pass` leaves of a method.
///
/// A changed function is repaired unless the pass does so itself: lightly where its control flow is
/// as before. Where the control flow may have changed it is rebuilt, and what comes of that must be
/// well-formed. With `verify_hard` every result must be well-formed, and what goes wrong leaves the
/// function as it was.
pub open spec fn visited<T: Target, P: SsaPass<T>>(
    pass: P::State,
    ssa: SsaView<T>,
    method: T::MethodRef,
    around: Surroundings<T>,
    verify_hard: bool,
) -> Visit<T> {
    let attempt = P::attempt(pass, ssa, method, around);
    match attempt.result {
        Err(message) => Visit {
            ssa: if verify_hard {
                ssa
            } else {
                attempt.ssa
            },
            events: attempt.events,
            changed: false,
            failure: Some(FailureView::Run(message)),
        },
        Ok(changed) => {
            let mends = changed && !P::profiled(pass).repairs_ssa;
            let rebuilds = mends && P::profiled(pass).scope == ModificationScope::CfgModifying;
            let mended = if rebuilds {
                attempt.ssa.rebuilt()
            } else if mends {
                attempt.ssa.lightly_repaired()
            } else {
                attempt.ssa
            };
            if rebuilds && !mended.well_formed() {
                Visit {
                    ssa: if verify_hard {
                        ssa
                    } else {
                        mended
                    },
                    events: attempt.events,
                    changed: false,
                    failure: Some(FailureView::Rebuild(mended.defects())),
                }
            } else if verify_hard && !mended.well_formed() {
                Visit {
                    ssa,
                    events: attempt.events,
                    changed: false,
                    failure: Some(FailureView::Invalid(mended.defects())),
                }
            } else {
                Visit { ssa: mended, events: attempt.events, changed, failure: None }
            }
        },
    }
}

/// A method on which a pass is to run, or has run.
pub struct Job<T: Target> {
    /// The position of the method.
    pub position: usize,
    /// The method.
    pub method: T::MethodRef,
    /// The function.
    pub ssa: SsaFunction<T>,
    /// The reported events.
    pub events: EventLog<T>,
    /// Whether the function counts as changed.
    pub changed: bool,
    /// What went wrong.
    pub failure: Option<Failure>,
}

impl<T: Target> Job<T> {
    /// What the run left of the method.
    pub open spec fn outcome(&self) -> Visit<T> {
        Visit {
            ssa: self.ssa@,
            events: self.events@,
            changed: self.changed,
            failure: match self.failure {
                Some(f) => Some(f@),
                None => None,
            },
        }
    }

    /// The job is that of a method on which nothing has run.
    pub open spec fn is_fresh(&self, position: usize, method: T::MethodRef, ssa: SsaView<T>) -> bool {
        &&& self.position == position
        &&& self.method == method
        &&& self.ssa@ == ssa
        &&& self.events@.len() == 0
    }

    /// The job is `before` after `pass` has run on it.
    pub open spec fn follows<P: SsaPass<T>>(
        &self,
        before: &Job<T>,
        pass: P::State,
        around: Surroundings<T>,
        verify_hard: bool,
    ) -> bool {
        let visit = visited::<T, P>(pass, before.ssa@, before.method, around, verify_hard);
        &&& self.position == before.position
        &&& self.method == before.method
        &&& self.outcome() == (Visit { events: before.events@ + visit.events, ..visit })
    }
}

/// Runs `pass` on one method, and repairs and checks what it leaves.
pub fn run_job<T: Target, P: SsaPass<T>, W: World<T>>(
    pass: &P,
    job: &mut Job<T>,
    context: &PassContext<'_, T, W>,
    verify_hard: bool,
)
    ensures
        final(job).follows::<P>(old(job), pass.state(), context@, verify_hard),
{
    let original: Option<SsaFunction<T>> = if verify_hard {
        Some(job.ssa.duplicate())
    } else {
        None
    };
    let method: T::MethodRef = job.method;
    let result: Result<bool, String> = pass.run_on_method(
        &mut job.ssa,
        &method,
        context,
        &mut job.events,
    );
    let changed: bool = match result {
        Ok(changed) => changed,
        Err(message) => {
            if let Some(snapshot) = original {
                job.ssa = snapshot;
            }
            job.changed = false;
            job.failure = Some(Failure::Run(message));
            return;
        },
    };
    let profile: PassProfile<T> = pass.profile();
    let mends: bool = changed && !profile.repairs_ssa;
    let rebuilds: bool = mends && match profile.scope {
        ModificationScope::CfgModifying => true,
        _ => false,
    };
    if rebuilds {
        rebuild::rebuild_ssa(&mut job.ssa);
    } else if mends {
        deadcode::repair_lightly(&mut job.ssa);
    }
    let defects: Vec<Defect> = if rebuilds || verify_hard {
        job.ssa.find_defects()
    } else {
        Vec::new()
    };
    if defects.len() > 0 {
        if let Some(snapshot) = original {
            job.ssa = snapshot;
        }
        job.changed = false;
        if rebuilds {
            job.failure = Some(Failure::Rebuild(defects));
        } else {
            job.failure = Some(Failure::Invalid(defects));
        }
        return;
    }
    job.changed = changed;
    job.failure = None;
}

/// A way to run a pass on many methods, each by itself.
pub trait Dispatch<T: Target, P: SsaPass<T>> {
    /// Runs `pass` on every job.
    fn run_all<W: World<T>>(
        &self,
        pass: &P,
        jobs: &mut Vec<Job<T>>,
        context: &PassContext<'_, T, W>,
        verify_hard: bool,
    )
        ensures
            final(jobs)@.len() == old(jobs)@.len(),
            forall|k: int|
                0 <= k < old(jobs)@.len() ==> (#[trigger] final(jobs)@[k]).follows::<P>(
                    &old(jobs)@[k],
                    pass.state(),
                    context@,
                    verify_hard,
                ),
    ;
}

/// Runs a pass on one method after the other.
pub struct InOrder;

impl<T: Target, P: SsaPass<T>> Dispatch<T, P> for InOrder {
    fn run_all<W: World<T>>(
        &self,
        pass: &P,
        jobs: &mut Vec<Job<T>>,
        context: &PassContext<'_, T, W>,
        verify_hard: bool,
    ) {
        let n: usize = jobs.len();
        let mut k: usize = 0;
        while k < n
            invariant
                k <= n,
                n == jobs@.len(),
                n == old(jobs)@.len(),
                forall|j: int|
                    0 <= j < k ==> (#[trigger] jobs@[j]).follows::<P>(
                        &old(jobs)@[j],
                        pass.state(),
                        context@,
                        verify_hard,
                    ),
                forall|j: int| k <= j < n ==> #[trigger] jobs@[j] == old(jobs)@[j],
            decreases n - k,
        {
            run_job(pass, &mut jobs[k], context, verify_hard);
            k = k + 1;
        }
    }
}

/// With `verify_hard` a pass never leaves a function that is not well-formed where it met one that
/// is.
pub proof fn hard_verification_keeps_well_formed<T: Target, P: SsaPass<T>>(
    pass: P::State,
    ssa: SsaView<T>,
    method: T::MethodRef,
    around: Surroundings<T>,
)
    requires
        ssa.well_formed(),
    ensures
        visited::<T, P>(pass, ssa, method, around, true).ssa.well_formed(),
{
}

/// With `verify_hard` what goes wrong leaves the function as it was, and unchanged.
pub proof fn failure_restores<T: Target, P: SsaPass<T>>(
    pass: P::State,
    ssa: SsaView<T>,
    method: T::MethodRef,
    around: Surroundings<T>,
)
    requires
        visited::<T, P>(pass, ssa, method, around, true).failure is Some,
    ensures
        visited::<T, P>(pass, ssa, method, around, true).ssa == ssa,
        !visited::<T, P>(pass, ssa, method, around, true).changed,
{
}

/// A pass that does not fail and leaves a well-formed function gets through, and what the repair
/// makes of the function is well-formed.
pub proof fn sound_passes_get_through<T: Target, P: SsaPass<T>>(
    pass: P::State,
    ssa: SsaView<T>,
    method: T::MethodRef,
    around: Surroundings<T>,
    verify_hard: bool,
)
    requires
        P::attempt(pass, ssa, method, around).result is Ok,
        P::attempt(pass, ssa, method, around).ssa.well_formed(),
    ensures
        visited::<T, P>(pass, ssa, method, around, verify_hard).failure is None,
        visited::<T, P>(pass, ssa, method, around, verify_hard).ssa.well_formed(),
{
    rebuild::rebuild_keeps_well_formed(P::attempt(pass, ssa, method, around).ssa);
    mending::light_repair_keeps_well_formed(P::attempt(pass, ssa, method, around).ssa);
}

} // verus!
