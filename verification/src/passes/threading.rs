//! Jump threading: a block continues at once where a branch is known to go when control comes from
//! there.
use crate::analysis::defuse::DefUseIndex;
use crate::analysis::evaluator;
use crate::analysis::evaluator::SsaEvaluator;
use crate::analysis::knowledge;
use crate::analysis::steps;
use crate::events::{EventKind, EventLog, EventView};
use crate::ir::block::{BlockView, SsaBlock};
use crate::ir::function::{SsaFunction, SsaView};
use crate::ir::ops::{Op, OpView, SsaOp};
use crate::ir::value::ConstValue;
use crate::ir::variable::SsaVarId;
use crate::passes::outcome::Outcome;
use crate::pointer::PointerSize;
use crate::seqs;
use crate::target::Target;
use crate::text;
use vstd::prelude::*;
use vstd::string::StringExecFns;

verus! {

/// How many copies are looked through for the value of a condition.
pub const TRACE_DEPTH: usize = 10;

impl<T: Target> BlockView<T> {
    /// No phi node reads `v`.
    pub open spec fn no_phi_reads(self, v: SsaVarId) -> bool {
        forall|p: int|
            0 <= p < self.phis.len() ==> !(#[trigger] self.phis[p]).values().contains(v)
    }

    /// No instruction but the one at `but` reads `v`.
    pub open spec fn no_instr_reads(self, v: SsaVarId, but: int) -> bool {
        forall|i: int|
            0 <= i < self.instrs.len() && i != but ==> !(#[trigger] self.instrs[i]).uses().contains(
                v,
            )
    }
}

impl<T: Target> SsaView<T> {
    /// Only the instruction at `i` of block `b` reads `v`.
    pub open spec fn read_only_at(self, v: SsaVarId, b: int, i: int) -> bool {
        forall|k: int|
            0 <= k < self.blocks.len() ==> (#[trigger] self.blocks[k]).no_phi_reads(v)
                && self.blocks[k].no_instr_reads(
                v,
                if k == b {
                    i
                } else {
                    -1
                },
            )
    }

    /// Block `b` only branches: it defines nothing that is read elsewhere, and does nothing else.
    pub open spec fn only_branches(self, b: int) -> bool {
        let last = self.blocks[b].instrs.len() - 1;
        &&& self.blocks[b].terminator() is Some
        &&& self.blocks[b].terminator()->0 is Branch
        &&& forall|i: int| 0 <= i < last ==> (#[trigger] self.blocks[b].instrs[i]) is Nop
        &&& forall|p: int|
            0 <= p < self.blocks[b].phis.len() ==> self.read_only_at(
                (#[trigger] self.blocks[b].phis[p]).result,
                b,
                last,
            )
    }

    /// What is known at the end of block `b` when control comes from `pred`.
    pub open spec fn known_from(self, pred: usize, b: int, ptr_size: PointerSize) -> Seq<
        Option<ConstValue>,
    > {
        let instrs = self.blocks[pred as int].instrs;
        evaluator::after_phis(
            evaluator::after_ops(
                evaluator::blank(self.vars.len()),
                instrs,
                ptr_size,
                instrs.len(),
            ),
            self.blocks[b].phis,
            pred,
            self.blocks[b].phis.len(),
        )
    }

    /// Where the branch that ends block `b` goes when control comes from `pred`, where that is known.
    pub open spec fn threaded_target(self, pred: usize, b: int, ptr_size: PointerSize) -> Option<
        usize,
    > {
        match self.blocks[b].terminator() {
            Some(Op::Branch { condition, true_target, false_target }) => match evaluator::traced(
                self.known_from(pred, b, ptr_size),
                self,
                condition,
                TRACE_DEPTH as nat,
            ) {
                Some(c) => match c.signed() {
                    Some(v) => if v != 0 {
                        Some(true_target)
                    } else {
                        Some(false_target)
                    },
                    None => None,
                },
                None => None,
            },
            _ => None,
        }
    }

    /// Block `pred` always continues at `target` already.
    pub open spec fn goes_to(self, pred: usize, target: usize) -> bool {
        match self.blocks[pred as int].terminator() {
            Some(Op::Jump { target: t }) => t == target,
            Some(Op::Leave { target: t }) => t == target,
            _ => false,
        }
    }

    /// The predecessor `k` of block `b` with where it can continue at once, if it can.
    pub open spec fn thread_at(self, b: int, ptr_size: PointerSize) -> spec_fn(int) -> Seq<
        (usize, usize),
    > {
        |k: int|
            {
                let pred = self.predecessors(b as usize)[k];
                match self.threaded_target(pred, b, ptr_size) {
                    Some(target) => if self.goes_to(pred, target) {
                        Seq::empty()
                    } else {
                        seq![(pred, target)]
                    },
                    None => Seq::empty(),
                }
            }
    }

    /// The predecessors of block `b` with where they can continue at once.
    pub open spec fn threads_through(self, ptr_size: PointerSize) -> spec_fn(int) -> Seq<
        (usize, usize),
    > {
        |b: int|
            if self.only_branches(b) {
                seqs::flat(self.thread_at(b, ptr_size), self.predecessors(b as usize).len())
            } else {
                Seq::empty()
            }
    }

    /// The blocks that can continue elsewhere at once, with where that is.
    pub open spec fn threadings(self, ptr_size: PointerSize) -> Seq<(usize, usize)> {
        seqs::flat(self.threads_through(ptr_size), self.blocks.len())
    }

    /// Block `pred` continues at `target`.
    pub open spec fn threaded_once(
        self,
        pred: usize,
        target: usize,
        method: T::MethodRef,
    ) -> Outcome<T> {
        let last = self.blocks[pred as int].instrs.len() - 1;
        if last < 0 {
            self.untouched()
        } else {
            match self.blocks[pred as int].instrs[last] {
                Op::Jump { target: was } => if was != target {
                    Outcome {
                        ssa: self.with_op(pred as int, last, Op::Jump { target }),
                        events: seq![
                            EventView::at(
                                EventKind::ControlFlowRestructured,
                                method,
                                pred as int,
                                "jump threaded: B"@ + text::decimal(pred as nat)
                                    + " now jumps to B"@ + text::decimal(target as nat)
                                    + " (was B"@ + text::decimal(was as nat) + ")"@,
                            ),
                        ],
                        changed: true,
                    }
                } else {
                    self.untouched()
                },
                Op::Branch { condition, true_target, false_target } => Outcome {
                    ssa: self.with_op(pred as int, last, Op::Jump { target }),
                    events: seq![
                        EventView::at(
                            EventKind::BranchSimplified,
                            method,
                            pred as int,
                            "branch threaded: B"@ + text::decimal(pred as nat)
                                + " condition on "@ + text::var_debug(condition)
                                + " resolved to B"@ + text::decimal(target as nat)
                                + " (eliminated B"@ + text::decimal(
                                (if target == true_target {
                                    false_target
                                } else {
                                    true_target
                                }) as nat,
                            ) + ")"@,
                        ),
                    ],
                    changed: true,
                },
                Op::Leave { target: was } => if was != target {
                    Outcome {
                        ssa: self.with_op(pred as int, last, Op::Leave { target }),
                        events: seq![
                            EventView::at(
                                EventKind::ControlFlowRestructured,
                                method,
                                pred as int,
                                "leave threaded: B"@ + text::decimal(pred as nat)
                                    + " now leaves to B"@ + text::decimal(target as nat)
                                    + " (was B"@ + text::decimal(was as nat) + ")"@,
                            ),
                        ],
                        changed: true,
                    }
                } else {
                    self.untouched()
                },
                _ => self.untouched(),
            }
        }
    }

    /// The first `n` blocks of `list` continue elsewhere, one after the other.
    pub open spec fn threaded_by(
        self,
        list: Seq<(usize, usize)>,
        method: T::MethodRef,
        n: nat,
    ) -> Outcome<T>
        decreases n,
    {
        if n == 0 {
            self.untouched()
        } else {
            let before = self.threaded_by(list, method, (n - 1) as nat);
            let step = before.ssa.threaded_once(list[n - 1].0, list[n - 1].1, method);
            Outcome {
                ssa: step.ssa,
                events: before.events + step.events,
                changed: before.changed || step.changed,
            }
        }
    }

    /// What the pass makes of the function.
    pub open spec fn threaded(self, method: T::MethodRef, ptr_size: PointerSize) -> Outcome<T> {
        let list = self.threadings(ptr_size);
        let outcome = self.threaded_by(list, method, list.len());
        Outcome { ssa: outcome.ssa.in_order(outcome.changed), ..outcome }
    }
}

/// Returns whether no phi node of a block reads `v`.
pub(crate) fn check_no_phi_reads<T: Target>(block: &SsaBlock<T>, v: SsaVarId) -> (r: bool)
    ensures
        r == block@.no_phi_reads(v),
{
    let mut p: usize = 0;
    while p < block.phis.len()
        invariant
            p <= block.phis@.len(),
            forall|j: int| 0 <= j < p ==> !(#[trigger] block@.phis[j]).values().contains(v),
        decreases block.phis@.len() - p,
    {
        assert(block.phis@[p as int]@ == block@.phis[p as int]);
        let ghost phi = block@.phis[p as int];
        let mut k: usize = 0;
        while k < block.phis[p].operands.len()
            invariant
                p < block.phis@.len(),
                phi == block@.phis[p as int],
                phi == block.phis@[p as int]@,
                k <= phi.operands.len(),
                forall|j: int| 0 <= j < k ==> #[trigger] phi.values()[j] != v,
            decreases phi.operands.len() - k,
        {
            if block.phis[p].operands[k].value == v {
                assert(phi.values()[k as int] == v);
                return false;
            }
            k = k + 1;
        }
        p = p + 1;
    }
    true
}

/// Returns whether no instruction of a block but the one at `but` reads `v`.
pub(crate) fn check_no_instr_reads<T: Target>(block: &SsaBlock<T>, v: SsaVarId, but: Option<usize>) -> (r: bool)
    ensures
        r == block@.no_instr_reads(
            v,
            match but {
                Some(i) => i as int,
                None => -1,
            },
        ),
{
    let ghost skipped = match but {
        Some(i) => i as int,
        None => -1,
    };
    let mut i: usize = 0;
    while i < block.instrs.len()
        invariant
            i <= block.instrs@.len(),
            skipped == (match but {
                Some(i) => i as int,
                None => -1,
            }),
            forall|j: int|
                0 <= j < i && j != skipped ==> !(#[trigger] block@.instrs[j]).uses().contains(v),
        decreases block.instrs@.len() - i,
    {
        assert(block.instrs@[i as int]@ == block@.instrs[i as int]);
        let skip: bool = match but {
            Some(k) => k == i,
            None => false,
        };
        if !skip && block.instrs[i].op.uses_var(v) {
            assert(block@.instrs[i as int].uses().contains(v));
            return false;
        }
        i = i + 1;
    }
    true
}

/// Returns whether only the instruction at `i` of block `b` reads `v`.
fn check_read_only_at<T: Target>(ssa: &SsaFunction<T>, v: SsaVarId, b: usize, i: usize) -> (r: bool)
    ensures
        r == ssa@.read_only_at(v, b as int, i as int),
{
    let mut k: usize = 0;
    while k < ssa.blocks.len()
        invariant
            k <= ssa.blocks@.len(),
            forall|j: int|
                0 <= j < k ==> (#[trigger] ssa@.blocks[j]).no_phi_reads(v)
                    && ssa@.blocks[j].no_instr_reads(
                    v,
                    if j == b {
                        i as int
                    } else {
                        -1
                    },
                ),
        decreases ssa.blocks@.len() - k,
    {
        assert(ssa.blocks@[k as int]@ == ssa@.blocks[k as int]);
        let but: Option<usize> = if k == b {
            Some(i)
        } else {
            None
        };
        if !check_no_phi_reads(&ssa.blocks[k], v) || !check_no_instr_reads(&ssa.blocks[k], v, but) {
            assert(!(ssa@.blocks[k as int].no_phi_reads(v) && ssa@.blocks[k as int].no_instr_reads(
                v,
                if k == b {
                    i as int
                } else {
                    -1
                },
            )));
            return false;
        }
        k = k + 1;
    }
    true
}

/// Returns whether a block only branches.
fn is_safe_to_bypass_branch_block<T: Target>(ssa: &SsaFunction<T>, b: usize) -> (r: bool)
    requires
        b < ssa@.blocks.len(),
    ensures
        r == ssa@.only_branches(b as int),
{
    assert(ssa.blocks@[b as int]@ == ssa@.blocks[b as int]);
    let block: &SsaBlock<T> = &ssa.blocks[b];
    let branches: bool = match block.terminator_op() {
        Some(Op::Branch { .. }) => true,
        _ => false,
    };
    if !branches {
        return false;
    }
    let last: usize = block.instrs.len() - 1;
    let mut i: usize = 0;
    while i < last
        invariant
            i <= last,
            last == block@.instrs.len() - 1,
            block@ == ssa@.blocks[b as int],
            forall|j: int| 0 <= j < i ==> (#[trigger] block@.instrs[j]) is Nop,
        decreases last - i,
    {
        assert(block.instrs@[i as int]@ == block@.instrs[i as int]);
        let nop: bool = match &block.instrs[i].op {
            Op::Nop => true,
            _ => false,
        };
        if !nop {
            assert(!(block@.instrs[i as int] is Nop));
            return false;
        }
        i = i + 1;
    }
    let mut p: usize = 0;
    while p < block.phis.len()
        invariant
            p <= block.phis@.len(),
            last == block@.instrs.len() - 1,
            block@ == ssa@.blocks[b as int],
            forall|j: int|
                0 <= j < p ==> ssa@.read_only_at(
                    (#[trigger] block@.phis[j]).result,
                    b as int,
                    last as int,
                ),
        decreases block.phis@.len() - p,
    {
        assert(block.phis@[p as int]@ == block@.phis[p as int]);
        if !check_read_only_at(ssa, block.phis[p].result, b, last) {
            assert(!ssa@.read_only_at(block@.phis[p as int].result, b as int, last as int));
            return false;
        }
        p = p + 1;
    }
    true
}

/// Returns where the branch that ends block `b` goes when control comes from `pred`.
fn try_thread<T: Target>(
    ssa: &SsaFunction<T>,
    index: &DefUseIndex,
    pred: usize,
    b: usize,
    ptr_size: PointerSize,
) -> (r: Option<usize>)
    requires
        index.describes(ssa@),
        pred < ssa@.blocks.len(),
        b < ssa@.blocks.len(),
    ensures
        r == ssa@.threaded_target(pred, b as int, ptr_size),
{
    assert(ssa.blocks@[b as int]@ == ssa@.blocks[b as int]);
    assert(ssa.blocks@[pred as int]@ == ssa@.blocks[pred as int]);
    let (condition, true_target, false_target) = match ssa.blocks[b].terminator_op() {
        Some(Op::Branch { condition, true_target, false_target }) => (
            *condition,
            *true_target,
            *false_target,
        ),
        _ => return None,
    };
    let mut eval: SsaEvaluator = SsaEvaluator::new(ssa.var_id_capacity(), ptr_size);
    eval.evaluate_block(&ssa.blocks[pred]);
    eval.evaluate_phis(&ssa.blocks[b], pred);
    assert(eval.env@ == ssa@.known_from(pred, b as int, ptr_size));
    match eval.resolve_with_trace(ssa, index, condition, TRACE_DEPTH) {
        Some(value) => match value.as_i64() {
            Some(v) => if v != 0 {
                Some(true_target)
            } else {
                Some(false_target)
            },
            None => None,
        },
        None => None,
    }
}

/// Returns whether a block always continues at `target` already.
fn check_goes_to<T: Target>(ssa: &SsaFunction<T>, pred: usize, target: usize) -> (r: bool)
    requires
        pred < ssa@.blocks.len(),
    ensures
        r == ssa@.goes_to(pred, target),
{
    assert(ssa.blocks@[pred as int]@ == ssa@.blocks[pred as int]);
    match ssa.blocks[pred].terminator_op() {
        Some(Op::Jump { target: t }) => *t == target,
        Some(Op::Leave { target: t }) => *t == target,
        _ => false,
    }
}

proof fn lemma_predecessors_in_range<T: Target>(s: SsaView<T>, b: usize, n: nat)
    requires
        n <= s.blocks.len() <= usize::MAX,
    ensures
        forall|k: int|
            0 <= k < seqs::flat(s.enters(b), n).len() ==> (#[trigger] seqs::flat(
                s.enters(b),
                n,
            )[k]) < n,
    decreases n,
{
    if n > 0 {
        lemma_predecessors_in_range(s, b, (n - 1) as nat);
        let before = seqs::flat(s.enters(b), (n - 1) as nat);
        let whole = seqs::flat(s.enters(b), n);
        assert forall|k: int| 0 <= k < whole.len() implies (#[trigger] whole[k]) < n by {
            if k < before.len() {
                assert(whole[k] == before[k]);
            } else {
                assert(whole[k] == (s.enters(b))(n - 1)[k - before.len()]);
            }
        }
    }
}

/// Returns the blocks that can continue elsewhere at once, with where that is.
fn find_threadings<T: Target>(ssa: &SsaFunction<T>, ptr_size: PointerSize) -> (r: Vec<
    (usize, usize),
>)
    ensures
        r@ == ssa@.threadings(ptr_size),
        forall|k: int| 0 <= k < r@.len() ==> (#[trigger] r@[k]).0 < ssa@.blocks.len(),
{
    let index: DefUseIndex = DefUseIndex::build(ssa);
    let mut r: Vec<(usize, usize)> = Vec::new();
    let ghost f = ssa@.threads_through(ptr_size);
    let mut b: usize = 0;
    while b < ssa.blocks.len()
        invariant
            b <= ssa.blocks@.len(),
            index.describes(ssa@),
            f == ssa@.threads_through(ptr_size),
            r@ == seqs::flat(f, b as nat),
            forall|k: int| 0 <= k < r@.len() ==> (#[trigger] r@[k]).0 < ssa@.blocks.len(),
        decreases ssa.blocks@.len() - b,
    {
        if is_safe_to_bypass_branch_block(ssa, b) {
            let preds: Vec<usize> = ssa.block_predecessors(b);
            proof {
                lemma_predecessors_in_range(ssa@, b, ssa@.blocks.len());
            }
            let ghost g = ssa@.thread_at(b as int, ptr_size);
            assert(r@ =~= seqs::flat(f, b as nat) + seqs::flat(g, 0));
            let mut k: usize = 0;
            while k < preds.len()
                invariant
                    k <= preds@.len(),
                    b < ssa@.blocks.len(),
                    index.describes(ssa@),
                    preds@ == ssa@.predecessors(b),
                    forall|j: int|
                        0 <= j < preds@.len() ==> (#[trigger] preds@[j]) < ssa@.blocks.len(),
                    g == ssa@.thread_at(b as int, ptr_size),
                    r@ =~= seqs::flat(f, b as nat) + seqs::flat(g, k as nat),
                    forall|k: int| 0 <= k < r@.len() ==> (#[trigger] r@[k]).0 < ssa@.blocks.len(),
                decreases preds@.len() - k,
            {
                let ghost before = r@;
                let pred: usize = preds[k];
                if let Some(target) = try_thread(ssa, &index, pred, b, ptr_size) {
                    if !check_goes_to(ssa, pred, target) {
                        r.push((pred, target));
                    }
                }
                assert(r@ =~= before + g(k as int));
                k = k + 1;
            }
        }
        b = b + 1;
    }
    r
}

/// Appends a block number to a text.
fn push_block(text: &mut String, lead: &str, b: usize)
    ensures
        final(text)@ == old(text)@ + lead@ + text::decimal(b as nat),
{
    text.append(lead);
    text::push_number(text, b);
}

/// Makes block `pred` continue at `target`.
fn apply_threading<T: Target>(
    ssa: &mut SsaFunction<T>,
    pred: usize,
    target: usize,
    method: &T::MethodRef,
    events: &mut EventLog<T>,
) -> (r: bool)
    requires
        pred < old(ssa)@.blocks.len(),
    ensures
        ({
            let outcome = old(ssa)@.threaded_once(pred, target, *method);
            &&& final(ssa)@ == outcome.ssa
            &&& final(events)@ == old(events)@ + outcome.events
            &&& r == outcome.changed
        }),
{
    let ghost s = ssa@;
    let ghost outcome = s.threaded_once(pred, target, *method);
    assert(ssa.blocks@[pred as int]@ == ssa@.blocks[pred as int]);
    let count: usize = ssa.blocks[pred].instrs.len();
    if count == 0 {
        assert(events@ =~= old(events)@ + Seq::empty());
        return false;
    }
    let last: usize = count - 1;
    assert(ssa.blocks@[pred as int].instrs@[last as int]@ == s.blocks[pred as int].instrs[last as int]);
    let op: SsaOp<T> = ssa.blocks[pred].instrs[last].op.duplicate();
    match op {
        Op::Jump { target: was } => {
            if was == target {
                assert(events@ =~= old(events)@ + Seq::empty());
                return false;
            }
            ssa.set_op(pred, last, Op::Jump { target });
            let mut message: String = String::from_str("jump threaded: B");
            text::push_number(&mut message, pred);
            push_block(&mut message, " now jumps to B", target);
            push_block(&mut message, " (was B", was);
            message.append(")");
            events.record_at(EventKind::ControlFlowRestructured, method, pred, message);
        },
        Op::Branch { condition, true_target, false_target } => {
            let dropped: usize = if target == true_target {
                false_target
            } else {
                true_target
            };
            ssa.set_op(pred, last, Op::Jump { target });
            let mut message: String = String::from_str("branch threaded: B");
            text::push_number(&mut message, pred);
            message.append(" condition on ");
            text::push_var_debug(&mut message, condition);
            push_block(&mut message, " resolved to B", target);
            push_block(&mut message, " (eliminated B", dropped);
            message.append(")");
            events.record_at(EventKind::BranchSimplified, method, pred, message);
        },
        Op::Leave { target: was } => {
            if was == target {
                assert(events@ =~= old(events)@ + Seq::empty());
                return false;
            }
            ssa.set_op(pred, last, Op::Leave { target });
            let mut message: String = String::from_str("leave threaded: B");
            text::push_number(&mut message, pred);
            push_block(&mut message, " now leaves to B", target);
            push_block(&mut message, " (was B", was);
            message.append(")");
            events.record_at(EventKind::ControlFlowRestructured, method, pred, message);
        },
        _ => {
            assert(events@ =~= old(events)@ + Seq::empty());
            return false;
        },
    }
    assert(events@ =~= old(events)@ + outcome.events);
    true
}

/// Makes blocks continue at once where a branch is known to go.
///
/// Returns whether something changed.
pub fn run<T: Target>(
    ssa: &mut SsaFunction<T>,
    method: &T::MethodRef,
    events: &mut EventLog<T>,
    ptr_size: PointerSize,
) -> (r: bool)
    ensures
        ({
            let outcome = old(ssa)@.threaded(*method, ptr_size);
            &&& final(ssa)@ == outcome.ssa
            &&& final(events)@ == old(events)@ + outcome.events
            &&& r == outcome.changed
        }),
{
    let ghost s = ssa@;
    let list: Vec<(usize, usize)> = find_threadings(ssa, ptr_size);
    let mut changed: bool = false;
    assert(events@ =~= old(events)@ + s.threaded_by(list@, *method, 0).events);
    let mut k: usize = 0;
    while k < list.len()
        invariant
            k <= list@.len(),
            ssa@.blocks.len() == s.blocks.len(),
            forall|j: int| 0 <= j < list@.len() ==> (#[trigger] list@[j]).0 < s.blocks.len(),
            ssa@ == s.threaded_by(list@, *method, k as nat).ssa,
            changed == s.threaded_by(list@, *method, k as nat).changed,
            events@ =~= old(events)@ + s.threaded_by(list@, *method, k as nat).events,
        decreases list@.len() - k,
    {
        let (pred, target) = list[k];
        assert(list@[k as int] == (pred, target));
        if apply_threading(ssa, pred, target, method, events) {
            changed = true;
        }
        k = k + 1;
    }
    if changed {
        ssa.repair_ssa();
    }
    changed
}

/// A block is only made to continue where it would go anyhow: each of the pairs found names a block
/// from which control comes to a block that does nothing but branch, and the way that this branch
/// then takes.
pub proof fn threads_follow_branches<T: Target>(
    ssa: SsaView<T>,
    ptr_size: PointerSize,
    pred: usize,
    target: usize,
) -> (b: int)
    requires
        ssa.threadings(ptr_size).contains((pred, target)),
    ensures
        0 <= b < ssa.blocks.len(),
        ssa.only_branches(b),
        ssa.predecessors(b as usize).contains(pred),
        ssa.threaded_target(pred, b, ptr_size) == Some(target),
        ssa.blocks[b].successors().contains(target),
{
    let pair = (pred, target);
    let b = seqs::lemma_flat_source(ssa.threads_through(ptr_size), ssa.blocks.len(), pair);
    let preds = ssa.predecessors(b as usize);
    let k = seqs::lemma_flat_source(ssa.thread_at(b, ptr_size), preds.len(), pair);
    assert(preds[k] == pred);
    match ssa.blocks[b].terminator() {
        Some(Op::Branch { true_target, false_target, .. }) => {
            let next = ssa.blocks[b].successors();
            assert(next[0] == true_target);
            assert(next[1] == false_target);
        },
        _ => {},
    }
    b
}

proof fn lemma_known_through<T: Target>(
    instrs: Seq<OpView<T>>,
    vars: nat,
    ptr_size: PointerSize,
    trace: Seq<spec_fn(SsaVarId) -> u64>,
    args: spec_fn(usize) -> u64,
    n: nat,
)
    requires
        n <= instrs.len(),
        runs_through(instrs, vars, ptr_size, trace, args),
    ensures
        knowledge::holds_known(
            trace[n as int],
            evaluator::after_ops(evaluator::blank(vars), instrs, ptr_size, n),
        ),
    decreases n,
{
    if n == 0 {
        assert forall|v: SsaVarId| #[trigger]
            knowledge::holds_known_of(trace[0], evaluator::blank(vars), v) by {}
    } else {
        let m = (n - 1) as nat;
        lemma_known_through(instrs, vars, ptr_size, trace, args, m);
        assert(step_runs(instrs, vars, ptr_size, trace, args, n - 1));
        knowledge::knowledge_survives_an_operation(
            evaluator::after_ops(evaluator::blank(vars), instrs, ptr_size, m),
            instrs[n - 1],
            ptr_size,
            trace[n - 1],
            trace[n as int],
            args,
        );
    }
}

/// Instruction `i` leads from one state of the registers to the next; what it computes from known
/// constants stays within their type, and what holds its flags is not known.
pub open spec fn step_runs<T: Target>(
    instrs: Seq<OpView<T>>,
    vars: nat,
    ptr_size: PointerSize,
    trace: Seq<spec_fn(SsaVarId) -> u64>,
    args: spec_fn(usize) -> u64,
    i: int,
) -> bool {
    let known = evaluator::after_ops(evaluator::blank(vars), instrs, ptr_size, i as nat);
    &&& knowledge::operation_leads(instrs[i], trace[i], trace[i + 1], args)
    &&& knowledge::is_exact(known, instrs[i], ptr_size)
    &&& instrs[i].flags_result() matches Some(f) ==> evaluator::known(
        evaluator::after_op(known, instrs[i], ptr_size),
        f,
    ) is None
}

/// The states of the registers while control runs through some instructions.
pub open spec fn runs_through<T: Target>(
    instrs: Seq<OpView<T>>,
    vars: nat,
    ptr_size: PointerSize,
    trace: Seq<spec_fn(SsaVarId) -> u64>,
    args: spec_fn(usize) -> u64,
) -> bool {
    &&& trace.len() == instrs.len() + 1
    &&& forall|i: int|
        0 <= i < instrs.len() ==> #[trigger] step_runs(instrs, vars, ptr_size, trace, args, i)
}

/// Control that runs through `pred`, enters `b` from there and comes to the branch at its end goes
/// where the predecessor is threaded to.
pub proof fn threads_go_where_the_branch_goes<T: Target>(
    ssa: SsaView<T>,
    ptr_size: PointerSize,
    pred: usize,
    b: int,
    target: usize,
    trace: Seq<spec_fn(SsaVarId) -> u64>,
    end: spec_fn(SsaVarId) -> u64,
    args: spec_fn(usize) -> u64,
)
    requires
        ssa.threaded_target(pred, b, ptr_size) == Some(target),
        runs_through(ssa.blocks[pred as int].instrs, ssa.vars.len(), ptr_size, trace, args),
        knowledge::phis_lead(ssa.blocks[b].phis, pred, trace.last(), end),
        knowledge::keeps_copies(ssa, end),
    ensures
        ssa.blocks[b].terminator() is Some,
        steps::next_block(ssa.blocks[b].terminator().unwrap(), end) == Some(target),
{
    let instrs = ssa.blocks[pred as int].instrs;
    let known = evaluator::after_ops(
        evaluator::blank(ssa.vars.len()),
        instrs,
        ptr_size,
        instrs.len(),
    );
    lemma_known_through(instrs, ssa.vars.len(), ptr_size, trace, args, instrs.len());
    knowledge::knowledge_survives_phis::<T>(
        known,
        ssa.blocks[b].phis,
        pred,
        trace.last(),
        end,
    );
    match ssa.blocks[b].terminator() {
        Some(Op::Branch { condition, .. }) => {
            let from = ssa.known_from(pred, b, ptr_size);
            let c = evaluator::traced(from, ssa, condition, TRACE_DEPTH as nat).unwrap();
            let n = c.number().unwrap();
            knowledge::traced_constants_are_held(
                from,
                ssa,
                condition,
                TRACE_DEPTH as nat,
                n,
                end,
            );
            knowledge::registers_tell_zero(n);
        },
        _ => {},
    }
}

/// A predecessor that is threaded goes to its new target, whatever the registers hold, and the rest
/// of the function is as before.
pub proof fn threaded_blocks_go_to_the_target<T: Target>(
    ssa: SsaView<T>,
    pred: usize,
    target: usize,
    method: T::MethodRef,
    env: spec_fn(SsaVarId) -> u64,
    b: int,
)
    requires
        0 <= b < ssa.blocks.len(),
        pred < ssa.blocks.len(),
    ensures
        ({
            let next = ssa.threaded_once(pred, target, method);
            let last = ssa.blocks[pred as int].instrs.len() - 1;
            &&& next.changed ==> steps::next_block(
                next.ssa.blocks[pred as int].instrs[last],
                env,
            ) == Some(target)
            &&& !next.changed ==> next.ssa == ssa
            &&& b != pred ==> next.ssa.blocks[b] == ssa.blocks[b]
            &&& next.ssa.blocks[b].phis == ssa.blocks[b].phis
            &&& next.ssa.blocks[b].instrs.len() == ssa.blocks[b].instrs.len()
            &&& forall|i: int|
                0 <= i < ssa.blocks[b].instrs.len() && (b != pred || i != last) ==> (
                #[trigger] next.ssa.blocks[b].instrs[i]) == ssa.blocks[b].instrs[i]
        }),
{
}

} // verus!
