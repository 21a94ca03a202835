//! What a pass, an iteration and a pipeline do to the methods they work on, and when they stop.
use crate::ir::function::SsaView;
use crate::scheduling::pass::{ModificationScope, SsaPass, Surroundings};
use crate::scheduling::rounds::Crew;
use crate::scheduling::run::{Run, Settings};
use crate::scheduling::scheduler;
use crate::scheduling::visit;
use crate::seqs;
use crate::target::Target;
use vstd::prelude::*;

verus! {

/// A method is worked on exactly where it has its turn, has a function and, where only changed
/// methods are worked on, may have changed.
pub proof fn eligible_methods_have_their_turn<T: Target>(run: Run<T>, dirty_only: bool, m: usize)
    ensures
        run.eligible(dirty_only).contains(m) <==> run.in_turn().contains(m)
            && run.bodies[m as int] is Some && (dirty_only ==> run.dirty[m as int]),
{
    let keep = |m: usize|
        run.bodies[m as int] is Some && (dirty_only ==> run.dirty[m as int]);
    let turn = run.in_turn();
    seqs::lemma_picked(turn, keep, turn.len());
    assert(turn.take(turn.len() as int) =~= turn);
    let list = run.eligible(dirty_only);
    assert(list == seqs::picked(turn, keep, turn.len()));
    if list.contains(m) {
        let k = choose|k: int| 0 <= k < list.len() && list[k] == m;
        assert(keep(list[k]));
    }
    if turn.contains(m) && run.bodies[m as int] is Some && (dirty_only ==> run.dirty[m as int]) {
        assert(turn.take(turn.len() as int).contains(m) && keep(m));
    }
}

proof fn lemma_work<T: Target, P: SsaPass<T>>(run: Run<T>, pass: P::State, list: Seq<usize>, m: usize)
    ensures
        run.work::<P>(pass, list).contains(m) <==> list.contains(m) && run.bodies[m as int] is Some
            && P::runs_on(pass, run.program.methods[m as int], run.program),
{
    let keep = |m: usize|
        run.bodies[m as int] is Some && P::runs_on(
            pass,
            run.program.methods[m as int],
            run.program,
        );
    seqs::lemma_picked(list, keep, list.len());
    assert(list.take(list.len() as int) =~= list);
    let work = run.work::<P>(pass, list);
    assert(work == seqs::picked(list, keep, list.len()));
    if work.contains(m) {
        let k = choose|k: int| 0 <= k < work.len() && work[k] == m;
        assert(keep(work[k]));
    }
    if list.contains(m) && keep(m) {
        assert(list.take(list.len() as int).contains(m) && keep(m));
    }
}

/// A pass leaves every method on which it is not asked to run, or does not run. Of the others it
/// leaves what it makes of each by itself, and notes which of them changed.
pub proof fn passes_touch_only_their_methods<T: Target, P: SsaPass<T>>(
    run: Run<T>,
    pass: P::State,
    list: Seq<usize>,
    s: Settings,
    m: usize,
)
    requires
        m < run.bodies.len(),
        m < run.processed.len(),
    ensures
        ({
            let next = run.after_pass::<P>(pass, list, s);
            let runs = list.contains(m) && run.bodies[m as int] is Some && P::runs_on(
                pass,
                run.program.methods[m as int],
                run.program,
            );
            let left = visit::visited::<T, P>(
                pass,
                run.bodies[m as int].unwrap(),
                run.program.methods[m as int],
                run.around::<P>(pass, s),
                s.verify_hard,
            );
            &&& next.program == run.program
            &&& next.dirty == run.dirty
            &&& !runs ==> {
                &&& next.bodies[m as int] == run.bodies[m as int]
                &&& next.processed[m as int] == run.processed[m as int]
                &&& next.modified.contains(m) == run.modified.contains(m)
            }
            &&& runs ==> {
                &&& next.bodies[m as int] == Some(left.ssa)
                &&& next.processed[m as int] == (run.processed[m as int] || left.changed)
                &&& next.modified.contains(m) == (run.modified.contains(m) || left.changed)
                &&& left.changed ==> next.changed
                &&& left.failure is Some ==> next.failure is Some
            }
        }),
{
    lemma_work::<T, P>(run, pass, list, m);
    let work = run.work::<P>(pass, list);
    if work.contains(m) {
        let k = choose|k: int| 0 <= k < work.len() && work[k] == m;
        assert(run.visit_at::<P>(pass, work[k], s) == run.visit_at::<P>(pass, m, s));
        if run.visit_at::<P>(pass, m, s).failure is Some {
            lemma_failure::<T, P>(run, pass, work, s, work.len(), k);
        }
    }
}

proof fn lemma_failure<T: Target, P: SsaPass<T>>(
    run: Run<T>,
    pass: P::State,
    work: Seq<usize>,
    s: Settings,
    n: nat,
    k: int,
)
    requires
        0 <= k < n <= work.len(),
        run.visit_at::<P>(pass, work[k], s).failure is Some,
    ensures
        run.visit_failure::<P>(pass, work, s, n) is Some,
    decreases n,
{
    if k < n - 1 {
        lemma_failure::<T, P>(run, pass, work, s, (n - 1) as nat, k);
    }
}

/// A pass that may change the control flow and does not repair what it leaves either leaves a
/// well-formed function or does not get through, whether or not every result is verified.
pub proof fn rebuilt_functions_are_checked<T: Target, P: SsaPass<T>>(
    pass: P::State,
    ssa: SsaView<T>,
    method: T::MethodRef,
    around: Surroundings<T>,
    verify_hard: bool,
)
    requires
        P::profiled(pass).scope == ModificationScope::CfgModifying,
        !P::profiled(pass).repairs_ssa,
        P::attempt(pass, ssa, method, around).result == Ok::<bool, Seq<char>>(true),
    ensures
        ({
            let left = visit::visited::<T, P>(pass, ssa, method, around, verify_hard);
            &&& left.failure is None ==> left.changed && left.ssa.well_formed()
            &&& left.failure is Some ==> !left.changed
            &&& left.events == P::attempt(pass, ssa, method, around).events
        }),
{
}

/// What a pass left unchanged stays as the pass left it.
pub proof fn unchanged_functions_are_left<T: Target, P: SsaPass<T>>(
    pass: P::State,
    ssa: SsaView<T>,
    method: T::MethodRef,
    around: Surroundings<T>,
)
    requires
        P::attempt(pass, ssa, method, around).result == Ok::<bool, Seq<char>>(false),
    ensures
        ({
            let left = visit::visited::<T, P>(pass, ssa, method, around, false);
            &&& left.ssa == P::attempt(pass, ssa, method, around).ssa
            &&& !left.changed
            &&& left.failure is None
        }),
{
}

/// After an iteration in which something changed exactly the changed methods may change again; after
/// one in which nothing changed none may.
pub proof fn changed_methods_come_again<T: Target>(run: Run<T>, changed: bool, m: usize)
    requires
        m < run.dirty.len(),
    ensures
        run.closed(changed).dirty[m as int] == (changed && run.modified.contains(m)),
        run.closed(changed).bodies == run.bodies,
        run.closed(changed).events == run.events,
        !run.opened().modified.contains(m),
        run.opened().bodies == run.bodies,
        run.opened().dirty == run.dirty,
{
}

/// A pipeline in which every pass gets through ends before its last iteration only after as many
/// iterations without a change as it waits for.
pub proof fn pipelines_are_patient<T: Target, P: SsaPass<T>>(
    crew: Crew<T, P::State>,
    groups: Seq<Seq<usize>>,
    s: Settings,
    patience: nat,
    fuel: nat,
    done: nat,
    quiet: nat,
)
    requires
        quiet < patience,
        scheduler::pipelined::<T, P>(crew, groups, s, patience, fuel, done, quiet).1 < done + fuel,
        scheduler::pipelined::<T, P>(
            crew,
            groups,
            s,
            patience,
            fuel,
            done,
            quiet,
        ).0.run.failure is None,
    ensures
        scheduler::pipelined::<T, P>(crew, groups, s, patience, fuel, done, quiet).1 >= done
            + patience - quiet,
    decreases fuel,
{
    if fuel > 0 {
        let (a, changed) = scheduler::iterated::<T, P>(crew, groups, s, done == 0);
        let left = (fuel - 1) as nat;
        if a.run.failure is Some {
        } else if changed {
            pipelines_are_patient::<T, P>(a, groups, s, patience, left, done + 1, 0);
        } else if quiet + 1 < patience {
            pipelines_are_patient::<T, P>(a, groups, s, patience, left, done + 1, quiet + 1);
        }
    }
}

/// The iteration that completes the iterations without a change is the last, and so is one in which a
/// pass does not get through.
pub proof fn pipelines_stop_when_settled<T: Target, P: SsaPass<T>>(
    crew: Crew<T, P::State>,
    groups: Seq<Seq<usize>>,
    s: Settings,
    patience: nat,
    fuel: nat,
    done: nat,
    quiet: nat,
)
    requires
        fuel > 0,
        ({
            let (a, changed) = scheduler::iterated::<T, P>(crew, groups, s, done == 0);
            a.run.failure is Some || (!changed && quiet + 1 >= patience)
        }),
    ensures
        scheduler::pipelined::<T, P>(crew, groups, s, patience, fuel, done, quiet) == (
            scheduler::iterated::<T, P>(crew, groups, s, done == 0).0,
            done + 1,
        ),
{
}

} // verus!
