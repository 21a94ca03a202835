//! Control flow simplification.
//!
//! Jumps bypass blocks that only jump elsewhere, a branch whose targets come to the same becomes a
//! jump, and code behind an operation that ends its block is removed.
use crate::events::{EventKind, EventLog, EventView};
use crate::ir::function::{SsaFunction, SsaView};
use crate::ir::ops::{Op, OpView, SsaOp};
use crate::passes::blockmerge;
use crate::passes::blockmerge::{find_jump_ends, redirect_op, spread_block};
use crate::passes::deadcode;
use crate::passes::deadcode::find_dead_from;
use crate::passes::outcome::Outcome;
use crate::passes::utils;
use crate::passes::utils::resolve_chain;
use crate::seqs;
use crate::target::Target;
use crate::text;
use std::collections::BTreeMap;
use vstd::prelude::*;
use vstd::string::StringExecFns;

verus! {

/// All of the numbers are `x`.
pub open spec fn all_are(list: Seq<usize>, x: usize) -> bool {
    forall|i: int| 0 <= i < list.len() ==> #[trigger] list[i] == x
}

/// The chains that begin at the numbers all end at `x`.
pub open spec fn all_end_at(map: Map<usize, usize>, list: Seq<usize>, x: usize) -> bool {
    forall|i: int| 0 <= i < list.len() ==> utils::chain_end(map, #[trigger] list[i]) == x
}

/// The first of the first `n` numbers that is not `x`.
pub open spec fn first_other(list: Seq<usize>, x: usize, n: nat) -> Option<usize>
    decreases n,
{
    if n == 0 {
        None
    } else {
        match first_other(list, x, (n - 1) as nat) {
            Some(y) => Some(y),
            None => if list[n - 1] != x {
                Some(list[n - 1])
            } else {
                None
            },
        }
    }
}

/// The one number other than `x`, where there is exactly one.
pub open spec fn sole_other(list: Seq<usize>, x: usize) -> Option<usize> {
    match first_other(list, x, list.len()) {
        Some(y) => if forall|i: int|
            0 <= i < list.len() ==> #[trigger] list[i] == x || list[i] == y {
            Some(y)
        } else {
            None
        },
        None => None,
    }
}

/// Where two targets come to.
pub open spec fn common_end(map: Map<usize, usize>, a: usize, b: usize) -> Option<usize> {
    if a == b {
        Some(a)
    } else if utils::chain_end(map, a) == utils::chain_end(map, b) {
        Some(utils::chain_end(map, a))
    } else {
        None
    }
}

impl<T: Target> SsaView<T> {
    /// Where all targets of the branch that ends block `b` come to.
    pub open spec fn same_target(self, b: int) -> Option<usize> {
        let map = self.trampolines(false);
        match self.blocks[b].terminator() {
            Some(Op::Branch { true_target, false_target, .. }) => common_end(
                map,
                true_target,
                false_target,
            ),
            Some(Op::BranchCmp { true_target, false_target, .. }) => common_end(
                map,
                true_target,
                false_target,
            ),
            Some(Op::Switch { targets, default, .. }) => if all_are(targets, default) {
                Some(default)
            } else if all_end_at(map, targets, utils::chain_end(map, default)) {
                Some(utils::chain_end(map, default))
            } else {
                sole_other(targets.push(default), b as usize)
            },
            _ => None,
        }
    }

    /// The last operation of block `b` with its jumps bypassing blocks that only jump elsewhere.
    pub open spec fn threaded_op(self, ends: Seq<usize>, b: int) -> OpView<T> {
        blockmerge::bypassing(self.blocks[b].instrs.last(), ends, ends.len())
    }

    /// The last operation of block `b` changes.
    pub open spec fn is_threaded(self, ends: Seq<usize>, b: int) -> bool {
        self.blocks[b].instrs.len() > 0 && blockmerge::bypasses_some(
            self.blocks[b].instrs.last(),
            ends,
            ends.len(),
        )
    }

    /// The function with the last operation of each block bypassing blocks that only jump elsewhere.
    pub open spec fn with_threaded_ends(self, ends: Seq<usize>) -> SsaView<T> {
        SsaView {
            blocks: Seq::new(
                self.blocks.len(),
                |b: int|
                    if self.is_threaded(ends, b) {
                        self.blocks[b].with_op(
                            self.blocks[b].instrs.len() - 1,
                            self.threaded_op(ends, b),
                        )
                    } else {
                        self.blocks[b]
                    },
            ),
            ..self
        }
    }

    /// Block `b`, where its last operation bypasses block `t`.
    pub open spec fn threads_past(self, ends: Seq<usize>, t: int) -> spec_fn(int) -> Seq<usize> {
        |b: int|
            if self.blocks[b].instrs.len() > 0 && blockmerge::bypasses(
                self.blocks[b].instrs.last(),
                ends,
                t,
            ) {
                seq![b as usize]
            } else {
                Seq::empty()
            }
    }

    /// For each block, the blocks whose last operation bypasses it.
    pub open spec fn all_threading(self, ends: Seq<usize>) -> Seq<Seq<usize>> {
        Seq::new(
            self.blocks.len(),
            |t: int| seqs::flat(self.threads_past(ends, t), self.blocks.len()),
        )
    }

    /// The event of block `b`, where its last operation changes.
    pub open spec fn threaded_event(self, ends: Seq<usize>, method: T::MethodRef) -> spec_fn(
        int,
    ) -> Seq<EventView<T>> {
        |b: int|
            if self.is_threaded(ends, b) {
                seq![
                    EventView::at(
                        EventKind::ControlFlowRestructured,
                        method,
                        b,
                        "jump threaded: "@ + text::number_list(
                            self.blocks[b].instrs.last().successors(),
                        ) + " -> "@ + text::number_list(self.threaded_op(ends, b).successors()),
                    ),
                ]
            } else {
                Seq::empty()
            }
    }

    /// The function with the branches of `from` whose targets come to the same made jumps.
    pub open spec fn with_same_targets(self, from: SsaView<T>) -> SsaView<T> {
        SsaView {
            blocks: Seq::new(
                self.blocks.len(),
                |b: int|
                    match from.same_target(b) {
                        Some(target) => self.blocks[b].with_op(
                            self.blocks[b].instrs.len() - 1,
                            Op::Jump { target },
                        ),
                        None => self.blocks[b],
                    },
            ),
            ..self
        }
    }

    /// The event of block `b`, where the targets of its branch come to the same.
    pub open spec fn same_target_event(self, method: T::MethodRef) -> spec_fn(int) -> Seq<
        EventView<T>,
    > {
        |b: int|
            match self.same_target(b) {
                Some(target) => seq![
                    EventView::at(
                        EventKind::BranchSimplified,
                        method,
                        b,
                        "branch to same target simplified: B"@ + text::decimal(b as nat)
                            + " branch -> jump B"@ + text::decimal(target as nat),
                    ),
                ],
                None => Seq::empty(),
            }
    }

    /// How many instructions of block `b` nothing can reach.
    pub open spec fn tail_length(self) -> spec_fn(int) -> nat {
        |b: int|
            match deadcode::dead_from(self.blocks[b].instrs, self.blocks[b].instrs.len()) {
                Some(i) => (self.blocks[b].instrs.len() - i) as nat,
                None => 0,
            }
    }

    /// The function without the code of `from` behind operations that end their block.
    pub open spec fn without_dead_tails(self, from: SsaView<T>) -> SsaView<T> {
        SsaView {
            blocks: Seq::new(
                self.blocks.len(),
                |b: int|
                    self.blocks[b].with_instrs(
                        self.blocks[b].instrs.take(
                            self.blocks[b].instrs.len() - (from.tail_length())(b),
                        ),
                    ),
            ),
            ..self
        }
    }

    /// The event of block `b`, where code is removed.
    pub open spec fn dead_tail_event(self, method: T::MethodRef) -> spec_fn(int) -> Seq<
        EventView<T>,
    > {
        |b: int|
            if (self.tail_length())(b) > 0 {
                seq![
                    EventView::at(
                        EventKind::InstructionRemoved,
                        method,
                        b,
                        "removed "@ + text::decimal((self.tail_length())(b))
                            + " dead instructions after terminator in B"@ + text::decimal(b as nat),
                    ),
                ]
            } else {
                Seq::empty()
            }
    }

    /// The function after its jumps bypass blocks that only jump elsewhere.
    pub open spec fn with_jumps_threaded(self) -> SsaView<T> {
        let ends = self.jump_ends(false);
        self.with_threaded_ends(ends).with_phis_spread(
            ends,
            self.all_threading(ends),
            self.blocks.len(),
        )
    }

    /// One round of simplification.
    pub open spec fn flow_simplified_once(self, method: T::MethodRef) -> deadcode::Removal<T> {
        let threads = seqs::flat(
            self.threaded_event(self.jump_ends(false), method),
            self.blocks.len(),
        );
        let branches = seqs::flat(self.same_target_event(method), self.blocks.len());
        let tails = seqs::flat(self.dead_tail_event(method), self.blocks.len());
        let count = threads.len() + branches.len() + deadcode::total(
            self.tail_length(),
            self.blocks.len(),
        );
        deadcode::Removal {
            ssa: self.with_jumps_threaded().with_same_targets(self).without_dead_tails(
                self,
            ).in_order(count > 0),
            events: threads + branches + tails,
            count,
        }
    }

    /// At most `rounds` rounds of simplification, until one changes nothing.
    pub open spec fn flow_simplified(self, method: T::MethodRef, rounds: nat) -> Outcome<T>
        decreases rounds,
    {
        if rounds == 0 {
            self.untouched()
        } else {
            let first = self.flow_simplified_once(method);
            if first.count == 0 {
                Outcome { ssa: first.ssa, events: first.events, changed: false }
            } else {
                let rest = first.ssa.flow_simplified(method, (rounds - 1) as nat);
                Outcome { ssa: rest.ssa, events: first.events + rest.events, changed: true }
            }
        }
    }
}

/// Returns whether all of the numbers are `x`.
fn check_all_are(list: &Vec<usize>, x: usize) -> (r: bool)
    ensures
        r == all_are(list@, x),
{
    let mut i: usize = 0;
    while i < list.len()
        invariant
            i <= list@.len(),
            forall|j: int| 0 <= j < i ==> #[trigger] list@[j] == x,
        decreases list@.len() - i,
    {
        if list[i] != x {
            assert(list@[i as int] != x);
            return false;
        }
        i = i + 1;
    }
    true
}

/// Returns whether the chains that begin at the numbers all end at `x`.
fn check_all_end_at(map: &BTreeMap<usize, usize>, list: &Vec<usize>, x: usize) -> (r: bool)
    ensures
        r == all_end_at(map@, list@, x),
{
    let mut i: usize = 0;
    while i < list.len()
        invariant
            i <= list@.len(),
            forall|j: int| 0 <= j < i ==> utils::chain_end(map@, #[trigger] list@[j]) == x,
        decreases list@.len() - i,
    {
        if resolve_chain(map, list[i]) != x {
            assert(utils::chain_end(map@, list@[i as int]) != x);
            return false;
        }
        i = i + 1;
    }
    true
}

/// Returns the one number other than `x`, where there is exactly one.
fn find_sole_other(list: &Vec<usize>, x: usize) -> (r: Option<usize>)
    ensures
        r == sole_other(list@, x),
{
    let mut first: Option<usize> = None;
    let mut i: usize = 0;
    while i < list.len()
        invariant
            i <= list@.len(),
            first == first_other(list@, x, i as nat),
        decreases list@.len() - i,
    {
        if first.is_none() && list[i] != x {
            first = Some(list[i]);
        }
        i = i + 1;
    }
    let y: usize = match first {
        Some(y) => y,
        None => return None,
    };
    let mut i: usize = 0;
    while i < list.len()
        invariant
            i <= list@.len(),
            first_other(list@, x, list@.len()) == Some(y),
            forall|j: int| 0 <= j < i ==> #[trigger] list@[j] == x || list@[j] == y,
        decreases list@.len() - i,
    {
        if list[i] != x && list[i] != y {
            assert(list@[i as int] != x);
            return None;
        }
        i = i + 1;
    }
    Some(y)
}

/// Returns where two targets come to.
fn find_common_end(map: &BTreeMap<usize, usize>, a: usize, b: usize) -> (r: Option<usize>)
    ensures
        r == common_end(map@, a, b),
{
    if a == b {
        return Some(a);
    }
    let end: usize = resolve_chain(map, a);
    if end == resolve_chain(map, b) {
        Some(end)
    } else {
        None
    }
}

/// Returns where all targets of the branch that ends a block come to.
fn find_same_target<T: Target>(
    ssa: &SsaFunction<T>,
    b: usize,
    trampolines: &BTreeMap<usize, usize>,
) -> (r: Option<usize>)
    requires
        b < ssa@.blocks.len(),
        trampolines@ == ssa@.trampolines(false),
    ensures
        r == ssa@.same_target(b as int),
{
    assert(ssa.blocks@[b as int]@ == ssa@.blocks[b as int]);
    match ssa.blocks[b].terminator_op() {
        Some(Op::Branch { true_target, false_target, .. }) => find_common_end(
            trampolines,
            *true_target,
            *false_target,
        ),
        Some(Op::BranchCmp { true_target, false_target, .. }) => find_common_end(
            trampolines,
            *true_target,
            *false_target,
        ),
        Some(Op::Switch { targets, default, .. }) => {
            if check_all_are(targets, *default) {
                return Some(*default);
            }
            let end: usize = resolve_chain(trampolines, *default);
            if check_all_end_at(trampolines, targets, end) {
                return Some(end);
            }
            let mut all: Vec<usize> = Vec::new();
            let mut k: usize = 0;
            while k < targets.len()
                invariant
                    k <= targets@.len(),
                    all@ =~= targets@.take(k as int),
                decreases targets@.len() - k,
            {
                all.push(targets[k]);
                k = k + 1;
            }
            all.push(*default);
            assert(all@ =~= targets@.push(*default));
            find_sole_other(&all, b)
        },
        _ => None,
    }
}

/// Returns the blocks whose branch targets come to the same, with where that is.
fn find_same_target_branches<T: Target>(
    ssa: &SsaFunction<T>,
    trampolines: &BTreeMap<usize, usize>,
) -> (r: Vec<Option<usize>>)
    requires
        trampolines@ == ssa@.trampolines(false),
    ensures
        r@.len() == ssa@.blocks.len(),
        forall|b: int| 0 <= b < r@.len() ==> #[trigger] r@[b] == ssa@.same_target(b),
{
    let mut r: Vec<Option<usize>> = Vec::new();
    let mut b: usize = 0;
    while b < ssa.blocks.len()
        invariant
            b <= ssa.blocks@.len(),
            trampolines@ == ssa@.trampolines(false),
            r@.len() == b,
            forall|j: int| 0 <= j < b ==> #[trigger] r@[j] == ssa@.same_target(j),
        decreases ssa.blocks@.len() - b,
    {
        r.push(find_same_target(ssa, b, trampolines));
        b = b + 1;
    }
    r
}

/// Makes jumps bypass blocks that only jump elsewhere.
fn apply_jump_threading<T: Target>(
    ssa: &mut SsaFunction<T>,
    trampolines: &BTreeMap<usize, usize>,
    method: &T::MethodRef,
    events: &mut EventLog<T>,
)
    requires
        trampolines@ == old(ssa)@.trampolines(false),
    ensures
        final(ssa)@ == old(ssa)@.with_jumps_threaded(),
        final(events)@ == old(events)@ + seqs::flat(
            old(ssa)@.threaded_event(old(ssa)@.jump_ends(false), *method),
            old(ssa)@.blocks.len(),
        ),
{
    let ends: Vec<usize> = find_jump_ends(ssa, false, trampolines);
    let ghost s = ssa@;
    let ghost all = s.with_threaded_ends(ends@);
    let ghost event = s.threaded_event(ends@, *method);
    let n: usize = ssa.blocks.len();
    let mut preds: Vec<Vec<usize>> = Vec::new();
    let mut t: usize = 0;
    while t < n
        invariant
            t <= n,
            preds@.len() == t,
            forall|j: int| 0 <= j < t ==> (#[trigger] preds@[j])@.len() == 0,
        decreases n - t,
    {
        preds.push(Vec::new());
        t = t + 1;
    }
    assert(old(events)@ + seqs::flat(event, 0) =~= old(events)@);
    assert forall|t: int| 0 <= t < n implies (#[trigger] preds@[t])@ == seqs::flat(
        s.threads_past(ends@, t),
        0,
    ) by {
        assert(preds@[t]@ =~= Seq::empty());
    }
    let mut b: usize = 0;
    while b < n
        invariant
            b <= n,
            n == s.blocks.len(),
            ends@.len() == n,
            preds@.len() == n,
            all == s.with_threaded_ends(ends@),
            event == s.threaded_event(ends@, *method),
            ssa@ == (SsaView { blocks: ssa@.blocks, ..s }),
            ssa@.blocks.len() == n,
            forall|j: int| 0 <= j < b ==> #[trigger] ssa@.blocks[j] == all.blocks[j],
            forall|j: int| b <= j < n ==> #[trigger] ssa@.blocks[j] == s.blocks[j],
            forall|t: int|
                0 <= t < n ==> (#[trigger] preds@[t])@ == seqs::flat(
                    s.threads_past(ends@, t),
                    b as nat,
                ),
            events@ =~= old(events)@ + seqs::flat(event, b as nat),
        decreases n - b,
    {
        let ghost noted = preds@;
        let ghost logged = events@;
        assert(ssa.blocks@[b as int]@ == ssa@.blocks[b as int]);
        assert(ssa@.blocks[b as int] == s.blocks[b as int]);
        let count: usize = ssa.blocks[b].instrs.len();
        if count > 0 {
            assert(ssa.blocks@[b as int].instrs@[count - 1]@ == s.blocks[b as int].instrs.last());
            let old_targets: Vec<usize> = ssa.blocks[b].instrs[count - 1].op.successors();
            let mut op: SsaOp<T> = ssa.blocks[b].instrs[count - 1].op.duplicate();
            let changed: bool = redirect_op(&mut op, b, &ends, &mut preds);
            if changed {
                let new_targets: Vec<usize> = op.successors();
                let mut message: String = String::from_str("jump threaded: ");
                text::push_number_list(&mut message, &old_targets);
                message.append(" -> ");
                text::push_number_list(&mut message, &new_targets);
                ssa.set_op(b, count - 1, op);
                events.record_at(EventKind::ControlFlowRestructured, method, b, message);
            }
        }
        assert(events@ =~= logged + event(b as int));
        assert forall|t: int| 0 <= t < n implies (#[trigger] preds@[t])@ == seqs::flat(
            s.threads_past(ends@, t),
            (b + 1) as nat,
        ) by {
            assert(noted[t]@ == seqs::flat(s.threads_past(ends@, t), b as nat));
            assert(preds@[t]@ =~= noted[t]@ + (s.threads_past(ends@, t))(b as int));
        }
        b = b + 1;
    }
    assert(ssa@.blocks =~= all.blocks);
    assert(blockmerge::lists(preds@) =~= s.all_threading(ends@));
    let ghost noted = blockmerge::lists(preds@);
    let mut t: usize = 0;
    while t < n
        invariant
            t <= n,
            n == s.blocks.len(),
            ends@.len() == n,
            preds@.len() == n,
            noted == blockmerge::lists(preds@),
            ssa@ == all.with_phis_spread(ends@, noted, t as nat),
        decreases n - t,
    {
        assert(noted[t as int] == preds@[t as int]@);
        let end: usize = ends[t];
        if preds[t].len() > 0 && end < ssa.blocks.len() {
            spread_block(ssa, end, t, &preds[t]);
        }
        t = t + 1;
    }
}

/// Makes branches whose targets come to the same jumps.
fn simplify_same_target_branches<T: Target>(
    ssa: &mut SsaFunction<T>,
    same: &Vec<Option<usize>>,
    Ghost(from): Ghost<SsaView<T>>,
    method: &T::MethodRef,
    events: &mut EventLog<T>,
)
    requires
        old(ssa)@.blocks.len() == from.blocks.len(),
        same@.len() == from.blocks.len(),
        forall|b: int| 0 <= b < same@.len() ==> #[trigger] same@[b] == from.same_target(b),
        forall|b: int|
            0 <= b < from.blocks.len() ==> (#[trigger] old(ssa)@.blocks[b]).instrs.len()
                == from.blocks[b].instrs.len(),
    ensures
        final(ssa)@ == old(ssa)@.with_same_targets(from),
        final(events)@ == old(events)@ + seqs::flat(
            from.same_target_event(*method),
            from.blocks.len(),
        ),
{
    let ghost s = ssa@;
    let ghost goal = s.with_same_targets(from);
    let ghost event = from.same_target_event(*method);
    let n: usize = ssa.blocks.len();
    assert(events@ =~= old(events)@ + seqs::flat(event, 0));
    let mut b: usize = 0;
    while b < n
        invariant
            b <= n,
            n == s.blocks.len(),
            n == from.blocks.len(),
            same@.len() == n,
            forall|b: int| 0 <= b < same@.len() ==> #[trigger] same@[b] == from.same_target(b),
            forall|b: int|
                0 <= b < n ==> (#[trigger] s.blocks[b]).instrs.len() == from.blocks[b].instrs.len(),
            goal == s.with_same_targets(from),
            event == from.same_target_event(*method),
            ssa@ == (SsaView { blocks: ssa@.blocks, ..s }),
            ssa@.blocks.len() == n,
            forall|j: int| 0 <= j < b ==> #[trigger] ssa@.blocks[j] == goal.blocks[j],
            forall|j: int| b <= j < n ==> #[trigger] ssa@.blocks[j] == s.blocks[j],
            events@ =~= old(events)@ + seqs::flat(event, b as nat),
        decreases n - b,
    {
        let ghost logged = events@;
        assert(ssa.blocks@[b as int]@ == ssa@.blocks[b as int]);
        assert(same@[b as int] == from.same_target(b as int));
        assert(s.blocks[b as int].instrs.len() == from.blocks[b as int].instrs.len());
        if let Some(target) = same[b] {
            let count: usize = ssa.blocks[b].instrs.len();
            ssa.set_op(b, count - 1, Op::Jump { target });
            let mut message: String = String::from_str("branch to same target simplified: B");
            text::push_number(&mut message, b);
            message.append(" branch -> jump B");
            text::push_number(&mut message, target);
            events.record_at(EventKind::BranchSimplified, method, b, message);
        }
        assert(events@ =~= logged + event(b as int));
        b = b + 1;
    }
    assert(ssa@.blocks =~= goal.blocks);
}

/// Returns, for each block, how many of its instructions nothing can reach.
fn find_tail_lengths<T: Target>(ssa: &SsaFunction<T>) -> (r: Vec<usize>)
    ensures
        r@.len() == ssa@.blocks.len(),
        forall|b: int| 0 <= b < r@.len() ==> #[trigger] r@[b] == (ssa@.tail_length())(b),
{
    let mut r: Vec<usize> = Vec::new();
    let mut b: usize = 0;
    while b < ssa.blocks.len()
        invariant
            b <= ssa.blocks@.len(),
            r@.len() == b,
            forall|j: int| 0 <= j < b ==> #[trigger] r@[j] == (ssa@.tail_length())(j),
        decreases ssa.blocks@.len() - b,
    {
        assert(ssa.blocks@[b as int]@ == ssa@.blocks[b as int]);
        proof {
            let instrs = ssa@.blocks[b as int].instrs;
            deadcode::dead_code_follows_first_end(instrs, instrs.len());
        }
        let length: usize = match find_dead_from(&ssa.blocks[b]) {
            Some(k) => ssa.blocks[b].instrs.len() - k,
            None => 0,
        };
        r.push(length);
        b = b + 1;
    }
    r
}

/// Removes code behind operations that end their block, and returns how many instructions those are.
fn remove_dead_tails<T: Target>(
    ssa: &mut SsaFunction<T>,
    lengths: &Vec<usize>,
    Ghost(from): Ghost<SsaView<T>>,
    method: &T::MethodRef,
    events: &mut EventLog<T>,
) -> (r: usize)
    requires
        old(ssa)@.blocks.len() == from.blocks.len(),
        lengths@.len() == from.blocks.len(),
        forall|b: int| 0 <= b < lengths@.len() ==> #[trigger] lengths@[b] == (from.tail_length())(b),
        forall|b: int|
            0 <= b < from.blocks.len() ==> (#[trigger] old(ssa)@.blocks[b]).instrs.len()
                == from.blocks[b].instrs.len(),
    ensures
        final(ssa)@ == old(ssa)@.without_dead_tails(from),
        final(events)@ == old(events)@ + seqs::flat(
            from.dead_tail_event(*method),
            from.blocks.len(),
        ),
        r == deadcode::capped(deadcode::total(from.tail_length(), from.blocks.len())),
{
    let ghost s = ssa@;
    let ghost goal = s.without_dead_tails(from);
    let ghost event = from.dead_tail_event(*method);
    let ghost length = from.tail_length();
    let n: usize = ssa.blocks.len();
    let mut removed: usize = 0;
    assert(events@ =~= old(events)@ + seqs::flat(event, 0));
    let mut b: usize = 0;
    while b < n
        invariant
            b <= n,
            n == s.blocks.len(),
            n == from.blocks.len(),
            lengths@.len() == n,
            length == from.tail_length(),
            forall|b: int| 0 <= b < lengths@.len() ==> #[trigger] lengths@[b] == length(b),
            forall|b: int|
                0 <= b < n ==> (#[trigger] s.blocks[b]).instrs.len() == from.blocks[b].instrs.len(),
            goal == s.without_dead_tails(from),
            event == from.dead_tail_event(*method),
            ssa@ == (SsaView { blocks: ssa@.blocks, ..s }),
            ssa@.blocks.len() == n,
            forall|j: int| 0 <= j < b ==> #[trigger] ssa@.blocks[j] == goal.blocks[j],
            forall|j: int| b <= j < n ==> #[trigger] ssa@.blocks[j] == s.blocks[j],
            events@ =~= old(events)@ + seqs::flat(event, b as nat),
            removed == deadcode::capped(deadcode::total(length, b as nat)),
        decreases n - b,
    {
        let ghost logged = events@;
        let ghost before = ssa@;
        assert(ssa.blocks@[b as int]@ == ssa@.blocks[b as int]);
        assert(lengths@[b as int] == length(b as int));
        assert(s.blocks[b as int].instrs.len() == from.blocks[b as int].instrs.len());
        proof {
            let instrs = from.blocks[b as int].instrs;
            deadcode::dead_code_follows_first_end(instrs, instrs.len());
        }
        let count: usize = lengths[b];
        if count > 0 {
            let kept: usize = ssa.blocks[b].instrs.len() - count;
            ssa.blocks[b].instrs.truncate(kept);
            assert(ssa.blocks@[b as int]@.instrs =~= s.blocks[b as int].instrs.take(kept as int));
            assert(ssa@.blocks =~= before.blocks.update(b as int, goal.blocks[b as int]));
            removed = removed.saturating_add(count);
            let mut message: String = String::from_str("removed ");
            text::push_number(&mut message, count);
            message.append(" dead instructions after terminator in B");
            text::push_number(&mut message, b);
            events.record_at(EventKind::InstructionRemoved, method, b, message);
        } else {
            assert(s.blocks[b as int].instrs.take(s.blocks[b as int].instrs.len() as int)
                =~= s.blocks[b as int].instrs);
        }
        assert(events@ =~= logged + event(b as int));
        b = b + 1;
    }
    assert(ssa@.blocks =~= goal.blocks);
    removed
}

/// Simplifies control flow once, and returns the number of changes made.
pub fn run_iteration<T: Target>(
    ssa: &mut SsaFunction<T>,
    method: &T::MethodRef,
    events: &mut EventLog<T>,
) -> (r: usize)
    ensures
        ({
            let step = old(ssa)@.flow_simplified_once(*method);
            &&& final(ssa)@ == step.ssa
            &&& final(events)@ == old(events)@ + step.events
            &&& r == deadcode::capped(step.count)
        }),
{
    let ghost s = ssa@;
    let trampolines: BTreeMap<usize, usize> = ssa.find_trampoline_blocks(false);
    let same: Vec<Option<usize>> = find_same_target_branches(ssa, &trampolines);
    let lengths: Vec<usize> = find_tail_lengths(ssa);
    let mut threads: EventLog<T> = EventLog::new();
    apply_jump_threading(ssa, &trampolines, method, &mut threads);
    proof {
        let ends = s.jump_ends(false);
        blockmerge::lemma_spread_len(
            s.with_threaded_ends(ends),
            ends,
            s.all_threading(ends),
            s.blocks.len(),
        );
    }
    let mut branches: EventLog<T> = EventLog::new();
    simplify_same_target_branches(ssa, &same, Ghost(s), method, &mut branches);
    let mut tails: EventLog<T> = EventLog::new();
    let removed: usize = remove_dead_tails(ssa, &lengths, Ghost(s), method, &mut tails);
    let total_changes: usize = threads.len().saturating_add(branches.len()).saturating_add(removed);
    if total_changes > 0 {
        ssa.repair_ssa();
    }
    assert(threads@ =~= seqs::flat(
        s.threaded_event(s.jump_ends(false), *method),
        s.blocks.len(),
    ));
    assert(branches@ =~= seqs::flat(s.same_target_event(*method), s.blocks.len()));
    assert(tails@ =~= seqs::flat(s.dead_tail_event(*method), s.blocks.len()));
    proof {
        assert(old(events)@ + threads@ + branches@ + tails@ =~= old(events)@ + (threads@
            + branches@ + tails@));
    }
    events.append_all(threads);
    events.append_all(branches);
    events.append_all(tails);
    total_changes
}

/// Simplifies control flow until nothing changes, at most `max_iterations` times.
///
/// Returns whether something changed.
#[verifier::spinoff_prover]
#[verifier::rlimit(40)]
pub fn run<T: Target>(
    ssa: &mut SsaFunction<T>,
    method: &T::MethodRef,
    events: &mut EventLog<T>,
    max_iterations: usize,
) -> (r: bool)
    ensures
        ({
            let outcome = old(ssa)@.flow_simplified(*method, max_iterations as nat);
            &&& final(ssa)@ == outcome.ssa
            &&& final(events)@ == old(events)@ + outcome.events
            &&& r == outcome.changed
        }),
    decreases max_iterations,
{
    let ghost s = ssa@;
    if max_iterations == 0 {
        assert(events@ =~= old(events)@ + Seq::empty());
        return false;
    }
    if run_iteration(ssa, method, events) == 0 {
        return false;
    }
    let ghost first = s.flow_simplified_once(*method);
    let ghost rest = first.ssa.flow_simplified(*method, (max_iterations - 1) as nat);
    let _ = run(ssa, method, events, max_iterations - 1);
    assert(old(events)@ + first.events + rest.events =~= old(events)@ + (first.events
        + rest.events));
    true
}

} // verus!
