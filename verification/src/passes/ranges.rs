//! Value range propagation.
//!
//! Follows the edges that control can take and the variables whose ranges change, starting from the
//! entry block with nothing known, and then simplifies the branches and comparisons that the ranges
//! settle.
use crate::analysis::meaning;
use crate::analysis::range;
use crate::analysis::range::ValueRange;
use crate::events::{EventKind, EventLog, EventView};
use crate::ir::block::{BlockView, SsaBlock};
use crate::ir::function::{SsaFunction, SsaView};
use crate::ir::ops::{Op, OpView, SsaOp};
use crate::ir::phi::{PhiNode, PhiOperand, PhiView};
use crate::ir::value::ConstValue;
use crate::ir::variable::{SsaVarId, UseSite};
use crate::passes::outcome::Outcome;
use crate::pointer;
use crate::seqs;
use crate::target::Target;
use crate::text;
use std::collections::{BTreeMap, VecDeque};
use vstd::prelude::*;
use vstd::string::StringExecFns;

verus! {

/// The range known of a variable.
pub open spec fn range_in(ranges: Map<usize, ValueRange>, v: SsaVarId) -> Option<ValueRange> {
    if ranges.contains_key(v.0) {
        Some(ranges[v.0])
    } else {
        None
    }
}

/// The values of one range and the values of the other have one in common.
pub open spec fn overlapping(a: ValueRange, b: ValueRange) -> bool {
    if a is Top || b is Top {
        true
    } else {
        match (a, b) {
            (
                ValueRange::Interval { min: a_min, max: a_max },
                ValueRange::Interval { min: b_min, max: b_max },
            ) => a_max >= b_min && a_min <= b_max,
            _ => false,
        }
    }
}

/// Returns whether two ranges have a value in common.
#[must_use]
pub fn ranges_overlap(a: &ValueRange, b: &ValueRange) -> (r: bool)
    ensures
        r == overlapping(*a, *b),
{
    if a.is_top() || b.is_top() {
        return true;
    }
    if a.is_bottom() || b.is_bottom() {
        return false;
    }
    match (a.max(), a.min(), b.max(), b.min()) {
        (Some(a_max), Some(a_min), Some(b_max), Some(b_min)) => a_max >= b_min && a_min <= b_max,
        _ => true,
    }
}

/// What two ranges say of `left < right`.
pub open spec fn settled_less(left: ValueRange, right: ValueRange) -> Option<bool> {
    match (left, right) {
        (
            ValueRange::Interval { min: l_min, max: l_max },
            ValueRange::Interval { min: r_min, max: r_max },
        ) => if l_max < r_min {
            Some(true)
        } else if l_min >= r_max {
            Some(false)
        } else {
            None
        },
        _ => None,
    }
}

/// What two ranges say of `left < right`, both read as unsigned where `unsigned` holds. They are
/// ranges of signed numbers, and say nothing of an unsigned comparison unless both are known not to
/// be negative.
pub open spec fn settled_order(left: ValueRange, right: ValueRange, unsigned: bool) -> Option<bool> {
    if unsigned && !(left.is_natural() && right.is_natural()) {
        None
    } else {
        settled_less(left, right)
    }
}

/// What two ranges say of `left == right`.
pub open spec fn settled_equal(left: ValueRange, right: ValueRange) -> Option<bool> {
    match (left.only(), right.only()) {
        (Some(l), Some(r)) => Some(l == r),
        _ => if overlapping(left, right) {
            None
        } else {
            Some(false)
        },
    }
}

/// The variable that a comparison defines and the truth value that the ranges give it.
pub open spec fn settled<T: Target, B, A>(
    op: Op<T, B, A>,
    ranges: Map<usize, ValueRange>,
) -> Option<(SsaVarId, bool)> {
    let compared = |dest: SsaVarId, truth: Option<bool>|
        match truth {
            Some(b) => Some((dest, b)),
            None => None,
        };
    match op {
        Op::Clt { dest, left, right, unsigned } => match (
            range_in(ranges, left),
            range_in(ranges, right),
        ) {
            (Some(l), Some(r)) => compared(dest, settled_order(l, r, unsigned)),
            _ => None,
        },
        Op::Cgt { dest, left, right, unsigned } => match (
            range_in(ranges, left),
            range_in(ranges, right),
        ) {
            (Some(l), Some(r)) => compared(dest, settled_order(r, l, unsigned)),
            _ => None,
        },
        Op::Ceq { dest, left, right } => match (range_in(ranges, left), range_in(ranges, right)) {
            (Some(l), Some(r)) => compared(dest, settled_equal(l, r)),
            _ => None,
        },
        _ => None,
    }
}

/// What the ranges say of a comparison holds of all values in them.
pub proof fn settled_comparisons_hold(left: ValueRange, right: ValueRange, x: int, y: int)
    requires
        left.contains(x),
        right.contains(y),
    ensures
        settled_less(left, right) matches Some(b) ==> b == (x < y),
        settled_equal(left, right) matches Some(b) ==> b == (x == y),
{
}

/// The ranges found for the variables of a function.
pub struct RangeResult {
    pub ranges: BTreeMap<usize, ValueRange>,
}

impl RangeResult {
    /// Returns the range found for a variable.
    #[must_use]
    pub fn get_range(&self, var: SsaVarId) -> (r: Option<ValueRange>)
        ensures
            r == range_in(self.ranges@, var),
    {
        broadcast use vstd::std_specs::btree::group_btree_axioms;

        match self.ranges.get(&var.0) {
            Some(range) => Some(*range),
            None => None,
        }
    }
}

/// Returns what two ranges say of `left < right`.
fn compare_ranges(left: &ValueRange, right: &ValueRange, unsigned: bool) -> (r: Option<bool>)
    ensures
        r == settled_order(*left, *right, unsigned),
{
    if unsigned && !(left.is_always_non_negative() && right.is_always_non_negative()) {
        return None;
    }
    if let (Some(l_max), Some(r_min)) = (left.max(), right.min()) {
        if l_max < r_min {
            return Some(true);
        }
    }
    if let (Some(l_min), Some(r_max)) = (left.min(), right.max()) {
        if l_min >= r_max {
            return Some(false);
        }
    }
    None
}

/// Returns the variable that a comparison defines and the truth value that the ranges give it.
#[must_use]
pub fn try_simplify_comparison<T: Target>(op: &SsaOp<T>, result: &RangeResult) -> (r: Option<
    (SsaVarId, bool),
>)
    ensures
        r == settled(op@, result.ranges@),
{
    let (dest, truth) = match op {
        Op::Clt { dest, left, right, unsigned } => match (
            result.get_range(*left),
            result.get_range(*right),
        ) {
            (Some(l), Some(r)) => (*dest, compare_ranges(&l, &r, *unsigned)),
            _ => return None,
        },
        Op::Cgt { dest, left, right, unsigned } => match (
            result.get_range(*left),
            result.get_range(*right),
        ) {
            (Some(l), Some(r)) => (*dest, compare_ranges(&r, &l, *unsigned)),
            _ => return None,
        },
        Op::Ceq { dest, left, right } => match (
            result.get_range(*left),
            result.get_range(*right),
        ) {
            (Some(l), Some(r)) => {
                let truth: Option<bool> = match (l.as_constant(), r.as_constant()) {
                    (Some(x), Some(y)) => Some(x == y),
                    _ => if ranges_overlap(&l, &r) {
                        None
                    } else {
                        Some(false)
                    },
                };
                (*dest, truth)
            },
            _ => return None,
        },
        _ => return None,
    };
    match truth {
        Some(b) => Some((dest, b)),
        None => None,
    }
}

/// The state of the propagation.
pub struct RangeView {
    /// The ranges found so far.
    pub ranges: Map<usize, ValueRange>,
    /// The edges found to be taken.
    pub edges: Seq<(usize, usize)>,
    /// For each block, whether control was found to reach it.
    pub reached: Seq<bool>,
    /// The variables whose range changed.
    pub changed: Seq<SsaVarId>,
    /// The edges to look at.
    pub pending: Seq<(usize, usize)>,
}

/// How many of the first `n` blocks are not reached.
pub open spec fn not_reached(reached: Seq<bool>, n: nat) -> nat
    decreases n,
{
    if n == 0 {
        0
    } else {
        not_reached(reached, (n - 1) as nat) + (if reached[n - 1] {
            0nat
        } else {
            1nat
        })
    }
}

proof fn lemma_not_reached(reached: Seq<bool>, b: int, n: nat)
    requires
        0 <= b < reached.len(),
        !reached[b],
        n <= reached.len(),
    ensures
        not_reached(reached.update(b, true), n) == (if b < n {
            not_reached(reached, n) - 1
        } else {
            not_reached(reached, n) as int
        }),
    decreases n,
{
    if n > 0 {
        lemma_not_reached(reached, b, (n - 1) as nat);
    }
}

impl RangeView {
    /// The range known of a variable, any value where none is.
    pub open spec fn range(self, v: SsaVarId) -> ValueRange {
        match range_in(self.ranges, v) {
            Some(r) => r,
            None => ValueRange::Top,
        }
    }

    /// A range is found for a variable.
    pub open spec fn updated(self, v: SsaVarId, range: ValueRange) -> RangeView {
        if self.range(v) == range {
            self
        } else {
            RangeView {
                ranges: self.ranges.insert(v.0, range),
                changed: self.changed.push(v),
                ..self
            }
        }
    }

    /// The range of the result of an operation.
    pub open spec fn evaluated<T: Target, B, A>(self, op: Op<T, B, A>) -> ValueRange {
        match op {
            Op::Const { value, .. } => match value.signed() {
                Some(v) => ValueRange::Interval { min: v, max: v },
                None => ValueRange::Top,
            },
            Op::Copy { src, .. } => self.range(src),
            Op::Add { left, right, .. } => self.range(left).plus(self.range(right)),
            Op::Sub { left, right, .. } => self.range(left).minus(self.range(right)),
            Op::Mul { left, right, .. } => self.range(left).times(self.range(right)),
            Op::And { left, right, .. } => match self.range(right).only() {
                Some(mask) => masked(mask),
                None => match self.range(left).only() {
                    Some(mask) => masked(mask),
                    None => ValueRange::Top,
                },
            },
            Op::Shr { value, amount, unsigned, .. } => match (
                self.range(amount).only(),
                self.range(value),
            ) {
                (Some(by), ValueRange::Interval { min, max }) => if 0 <= by < 64 && unsigned && min
                    >= 0 {
                    ValueRange::span(min >> (by as u32), max >> (by as u32))
                } else {
                    ValueRange::Top
                },
                _ => ValueRange::Top,
            },
            Op::Rem { left, right, .. } => match (self.range(right).only(), self.range(left)) {
                (Some(n), ValueRange::Interval { min, .. }) => if n > 0 && min >= 0 {
                    ValueRange::span(0, (n - 1) as i64)
                } else {
                    ValueRange::Top
                },
                _ => ValueRange::Top,
            },
            Op::ArrayLength { .. } => ValueRange::Interval { min: 0, max: i64::MAX },
            Op::Ceq { .. } => ValueRange::Interval { min: 0, max: 1 },
            Op::Clt { .. } => ValueRange::Interval { min: 0, max: 1 },
            Op::Cgt { .. } => ValueRange::Interval { min: 0, max: 1 },
            _ => ValueRange::Top,
        }
    }

    /// The state after the first `n` of some operations are evaluated.
    pub open spec fn after_ops<T: Target>(self, instrs: Seq<OpView<T>>, n: nat) -> RangeView
        decreases n,
    {
        if n == 0 {
            self
        } else {
            let before = self.after_ops(instrs, (n - 1) as nat);
            match instrs[n - 1].result() {
                Some(dest) => before.updated(dest, before.evaluated(instrs[n - 1])),
                None => before,
            }
        }
    }

    /// The least range that holds those of the first `n` operands whose edge into `b` is taken.
    pub open spec fn joined(self, operands: Seq<PhiOperand>, b: usize, n: nat) -> ValueRange
        decreases n,
    {
        if n == 0 {
            ValueRange::Bottom
        } else {
            let before = self.joined(operands, b, (n - 1) as nat);
            if self.edges.contains((operands[n - 1].predecessor, b)) {
                before.joined(self.range(operands[n - 1].value))
            } else {
                before
            }
        }
    }

    /// The range of the result of a phi node in block `b`: any value where no edge is taken.
    pub open spec fn phi_range(self, phi: PhiView, b: usize) -> ValueRange {
        if exists|i: int|
            0 <= i < phi.operands.len() && self.edges.contains(
                ((#[trigger] phi.operands[i]).predecessor, b),
            ) {
            self.joined(phi.operands, b, phi.operands.len())
        } else {
            ValueRange::Top
        }
    }

    /// The state after the first `n` phi nodes of block `b` are evaluated for an edge from `from`.
    pub open spec fn after_phis(
        self,
        phis: Seq<PhiView>,
        from: usize,
        b: usize,
        n: nat,
    ) -> RangeView
        decreases n,
    {
        if n == 0 {
            self
        } else {
            let before = self.after_phis(phis, from, b, (n - 1) as nat);
            if phis[n - 1].has_predecessor(from) {
                before.updated(phis[n - 1].result, before.phi_range(phis[n - 1], b))
            } else {
                before
            }
        }
    }

    /// An edge is to be looked at, unless it is already taken.
    pub open spec fn with_edge(self, from: usize, to: usize) -> RangeView {
        if self.edges.contains((from, to)) {
            self
        } else {
            RangeView { pending: self.pending.push((from, to)), ..self }
        }
    }

    /// The edges to the first `n` of some blocks are to be looked at.
    pub open spec fn with_edges(self, from: usize, targets: Seq<usize>, n: nat) -> RangeView
        decreases n,
    {
        if n == 0 {
            self
        } else {
            self.with_edges(from, targets, (n - 1) as nat).with_edge(from, targets[n - 1])
        }
    }

    /// The blocks that control can continue at, given what is known of the condition.
    pub open spec fn live_targets<T: Target>(self, block: BlockView<T>) -> Seq<usize> {
        match block.terminator() {
            Some(Op::Branch { condition, true_target, false_target }) => {
                let range = self.range(condition);
                match range.only() {
                    Some(v) => if v != 0 {
                        seq![true_target]
                    } else {
                        seq![false_target]
                    },
                    None => if range.least() matches Some(m) && m > 0 {
                        seq![true_target]
                    } else {
                        seq![true_target, false_target]
                    },
                }
            },
            Some(Op::Switch { value, targets, default }) => match self.range(value).only() {
                Some(v) => if 0 <= v < targets.len() {
                    seq![targets[v as int]]
                } else if v < 0 {
                    targets.push(default)
                } else {
                    seq![default]
                },
                None => targets.push(default),
            },
            Some(op) => op.successors(),
            None => Seq::empty(),
        }
    }

    /// The edges that leave block `b` are to be looked at.
    pub open spec fn leaving<T: Target>(self, b: usize, block: BlockView<T>) -> RangeView {
        let targets = self.live_targets(block);
        self.with_edges(b, targets, targets.len())
    }

    /// An edge is found to be taken.
    pub open spec fn taken<T: Target>(self, ssa: SsaView<T>, from: usize, to: usize) -> RangeView {
        let marked = RangeView { edges: self.edges.push((from, to)), ..self };
        if to >= ssa.blocks.len() || to >= self.reached.len() {
            marked
        } else {
            let block = ssa.blocks[to as int];
            if self.reached[to as int] {
                marked.after_phis(block.phis, from, to, block.phis.len())
            } else {
                RangeView { reached: self.reached.update(to as int, true), ..marked }.after_ops(
                    block.instrs,
                    block.instrs.len(),
                ).after_phis(block.phis, from, to, block.phis.len()).leaving(to, block)
            }
        }
    }

    /// The state after all pending edges are looked at.
    pub open spec fn drained<T: Target>(self, ssa: SsaView<T>) -> RangeView
        decreases not_reached(self.reached, self.reached.len()), self.pending.len(),
    {
        if self.pending.len() == 0 {
            self
        } else {
            let (from, to) = self.pending[0];
            let rest = RangeView { pending: self.pending.drop_first(), ..self };
            proof {
                rest.lemma_taken(ssa, from, to);
            }
            if rest.edges.contains((from, to)) {
                rest.drained(ssa)
            } else {
                rest.taken(ssa, from, to).drained(ssa)
            }
        }
    }

    /// A use of a variable whose range changed is evaluated again.
    pub open spec fn at_use<T: Target>(self, ssa: SsaView<T>, site: UseSite) -> RangeView {
        if site.block >= ssa.blocks.len() || site.block >= self.reached.len()
            || !self.reached[site.block as int] {
            self
        } else {
            let block = ssa.blocks[site.block as int];
            if site.is_phi_operand {
                if site.instruction < block.phis.len() {
                    let phi = block.phis[site.instruction as int];
                    self.updated(phi.result, self.phi_range(phi, site.block))
                } else {
                    self
                }
            } else if site.instruction < block.instrs.len() {
                let op = block.instrs[site.instruction as int];
                let evaluated = match op.result() {
                    Some(dest) => self.updated(dest, self.evaluated(op)),
                    None => self,
                };
                if op.ends_block() {
                    evaluated.leaving(site.block, block)
                } else {
                    evaluated
                }
            } else {
                self
            }
        }
    }

    /// The first `n` uses of a variable whose range changed are evaluated again.
    pub open spec fn at_uses<T: Target>(
        self,
        ssa: SsaView<T>,
        uses: Seq<UseSite>,
        n: nat,
    ) -> RangeView
        decreases n,
    {
        if n == 0 {
            self
        } else {
            self.at_uses(ssa, uses, (n - 1) as nat).at_use(ssa, uses[n - 1])
        }
    }

    /// The state after at most `rounds` rounds: all pending edges, then one changed variable.
    pub open spec fn propagated<T: Target>(self, ssa: SsaView<T>, rounds: nat) -> RangeView
        decreases rounds,
    {
        if rounds == 0 {
            self
        } else {
            let drained = self.drained(ssa);
            if drained.changed.len() == 0 {
                drained
            } else {
                let v = drained.changed[0];
                let rest = RangeView { changed: drained.changed.drop_first(), ..drained };
                let next = if v.0 < ssa.vars.len() {
                    let uses = ssa.vars[v.0 as int].uses;
                    rest.at_uses(ssa, uses, uses.len())
                } else {
                    rest
                };
                next.propagated(ssa, (rounds - 1) as nat)
            }
        }
    }

    /// The state before propagation: nothing known, control at the entry.
    pub open spec fn initial<T: Target>(ssa: SsaView<T>) -> RangeView {
        let blank = RangeView {
            ranges: Map::new(|v: usize| v < ssa.vars.len(), |v: usize| ValueRange::Top),
            edges: Seq::empty(),
            reached: Seq::new(ssa.blocks.len(), |b: int| b == 0),
            changed: Seq::empty(),
            pending: Seq::empty(),
        };
        if ssa.blocks.len() == 0 {
            blank
        } else {
            let entry = ssa.blocks[0];
            RangeView {
                pending: entry.successors().map_values(|to: usize| (0usize, to)),
                ..blank
            }.after_ops(entry.instrs, entry.instrs.len())
        }
    }

    proof fn lemma_after_ops<T: Target>(self, instrs: Seq<OpView<T>>, n: nat)
        ensures
            self.after_ops(instrs, n).reached == self.reached,
            self.after_ops(instrs, n).pending == self.pending,
        decreases n,
    {
        if n > 0 {
            self.lemma_after_ops(instrs, (n - 1) as nat);
        }
    }

    proof fn lemma_after_phis(self, phis: Seq<PhiView>, from: usize, b: usize, n: nat)
        ensures
            self.after_phis(phis, from, b, n).reached == self.reached,
            self.after_phis(phis, from, b, n).pending == self.pending,
        decreases n,
    {
        if n > 0 {
            self.lemma_after_phis(phis, from, b, (n - 1) as nat);
        }
    }

    proof fn lemma_with_edges(self, from: usize, targets: Seq<usize>, n: nat)
        ensures
            self.with_edges(from, targets, n).reached == self.reached,
        decreases n,
    {
        if n > 0 {
            self.lemma_with_edges(from, targets, (n - 1) as nat);
        }
    }

    /// Taking an edge reaches a new block, or leaves the pending edges as they are.
    pub proof fn lemma_taken<T: Target>(self, ssa: SsaView<T>, from: usize, to: usize)
        ensures
            self.taken(ssa, from, to).reached.len() == self.reached.len(),
            ({
                let next = self.taken(ssa, from, to);
                ||| not_reached(next.reached, next.reached.len()) < not_reached(
                    self.reached,
                    self.reached.len(),
                )
                ||| next.reached == self.reached && next.pending == self.pending
            }),
    {
        if to < ssa.blocks.len() && to < self.reached.len() {
            let block = ssa.blocks[to as int];
            let marked = RangeView { edges: self.edges.push((from, to)), ..self };
            if self.reached[to as int] {
                marked.lemma_after_phis(block.phis, from, to, block.phis.len());
            } else {
                let first = RangeView { reached: self.reached.update(to as int, true), ..marked };
                first.lemma_after_ops(block.instrs, block.instrs.len());
                let second = first.after_ops(block.instrs, block.instrs.len());
                second.lemma_after_phis(block.phis, from, to, block.phis.len());
                let third = second.after_phis(block.phis, from, to, block.phis.len());
                third.lemma_with_edges(to, third.live_targets(block), third.live_targets(block).len());
                lemma_not_reached(self.reached, to as int, self.reached.len());
            }
        }
    }
}

/// The range of a conjunction with `mask`: up to the mask, and any value where the mask is negative.
pub open spec fn masked(mask: i64) -> ValueRange {
    if mask >= 0 {
        ValueRange::Interval { min: 0, max: mask }
    } else {
        ValueRange::Top
    }
}

/// The propagation of ranges.
struct RangeAnalysis {
    ranges: BTreeMap<usize, ValueRange>,
    executable_edges: Vec<(usize, usize)>,
    executable_blocks: Vec<bool>,
    ssa_worklist: VecDeque<SsaVarId>,
    cfg_worklist: VecDeque<(usize, usize)>,
}

impl View for RangeAnalysis {
    type V = RangeView;

    closed spec fn view(&self) -> RangeView {
        RangeView {
            ranges: self.ranges@,
            edges: self.executable_edges@,
            reached: self.executable_blocks@,
            changed: self.ssa_worklist@,
            pending: self.cfg_worklist@,
        }
    }
}

impl RangeAnalysis {
    /// Starts with nothing known, control at the entry.
    fn initialize<T: Target>(ssa: &SsaFunction<T>) -> (r: Self)
        ensures
            r@ == RangeView::initial(ssa@),
    {
        broadcast use vstd::std_specs::btree::group_btree_axioms;

        let mut ranges: BTreeMap<usize, ValueRange> = BTreeMap::new();
        let n: usize = ssa.var_id_capacity();
        let mut v: usize = 0;
        while v < n
            invariant
                v <= n,
                ranges@ =~= Map::new(|k: usize| k < v, |k: usize| ValueRange::Top),
            decreases n - v,
        {
            ranges.insert(v, ValueRange::top());
            v = v + 1;
        }
        let mut executable_blocks: Vec<bool> = Vec::new();
        let mut b: usize = 0;
        while b < ssa.blocks.len()
            invariant
                b <= ssa.blocks@.len(),
                executable_blocks@ =~= Seq::new(b as nat, |j: int| j == 0),
            decreases ssa.blocks@.len() - b,
        {
            executable_blocks.push(b == 0);
            b = b + 1;
        }
        let mut r = RangeAnalysis {
            ranges,
            executable_edges: Vec::new(),
            executable_blocks,
            ssa_worklist: VecDeque::new(),
            cfg_worklist: VecDeque::new(),
        };
        assert(r@.edges =~= Seq::empty());
        assert(r@.changed =~= Seq::empty());
        assert(r@.pending =~= Seq::empty());
        if ssa.blocks.len() > 0 {
            let successors: Vec<usize> = ssa.blocks[0].successors();
            let ghost start = r@;
            let ghost targets = successors@.map_values(|to: usize| (0usize, to));
            let mut k: usize = 0;
            while k < successors.len()
                invariant
                    k <= successors@.len(),
                    targets == successors@.map_values(|to: usize| (0usize, to)),
                    r@ == (RangeView { pending: r@.pending, ..start }),
                    r@.pending =~= targets.take(k as int),
                decreases successors@.len() - k,
            {
                r.cfg_worklist.push_back((0, successors[k]));
                k = k + 1;
            }
            assert(r@.pending =~= targets);
            r.process_block_definitions(&ssa.blocks[0]);
        }
        r
    }

    /// Returns the range known of a variable.
    fn get_range(&self, var: SsaVarId) -> (r: ValueRange)
        ensures
            r == self@.range(var),
    {
        broadcast use vstd::std_specs::btree::group_btree_axioms;

        match self.ranges.get(&var.0) {
            Some(range) => *range,
            None => ValueRange::top(),
        }
    }

    /// Notes the range of a variable.
    fn update_range(&mut self, var: SsaVarId, new_range: ValueRange)
        ensures
            final(self)@ == old(self)@.updated(var, new_range),
    {
        broadcast use vstd::std_specs::btree::group_btree_axioms;

        let old_range: ValueRange = self.get_range(var);
        if old_range != new_range {
            self.ranges.insert(var.0, new_range);
            self.ssa_worklist.push_back(var);
        }
    }

    /// Returns whether an edge is taken.
    fn is_taken(&self, from: usize, to: usize) -> (r: bool)
        ensures
            r == self@.edges.contains((from, to)),
    {
        let mut i: usize = 0;
        while i < self.executable_edges.len()
            invariant
                i <= self.executable_edges@.len(),
                forall|j: int| 0 <= j < i ==> self.executable_edges@[j] != (from, to),
            decreases self.executable_edges@.len() - i,
        {
            if self.executable_edges[i].0 == from && self.executable_edges[i].1 == to {
                assert(self.executable_edges@[i as int] == (from, to));
                return true;
            }
            i = i + 1;
        }
        false
    }

    /// Notes an edge to look at, unless it is already taken.
    fn add_cfg_edge(&mut self, from: usize, to: usize)
        ensures
            final(self)@ == old(self)@.with_edge(from, to),
    {
        if !self.is_taken(from, to) {
            self.cfg_worklist.push_back((from, to));
        }
    }

    /// Returns the range of the result of an operation.
    fn evaluate_instruction<T: Target>(&self, op: &SsaOp<T>) -> (r: ValueRange)
        ensures
            r == self@.evaluated(op@),
    {
        match op {
            Op::Const { value, .. } => match value.as_i64() {
                Some(v) => ValueRange::constant(v),
                None => ValueRange::top(),
            },
            Op::Copy { src, .. } => self.get_range(*src),
            Op::Add { left, right, .. } => self.get_range(*left).add(&self.get_range(*right)),
            Op::Sub { left, right, .. } => self.get_range(*left).sub(&self.get_range(*right)),
            Op::Mul { left, right, .. } => self.get_range(*left).mul(&self.get_range(*right)),
            Op::And { left, right, .. } => match self.get_range(*right).as_constant() {
                Some(mask) => mask_range(mask),
                None => match self.get_range(*left).as_constant() {
                    Some(mask) => mask_range(mask),
                    None => ValueRange::top(),
                },
            },
            Op::Shr { value, amount, unsigned, .. } => {
                let range: ValueRange = self.get_range(*value);
                if let Some(by) = self.get_range(*amount).as_constant() {
                    if by >= 0 && by < 64 && *unsigned && range.is_always_non_negative() {
                        if let (Some(min), Some(max)) = (range.min(), range.max()) {
                            return ValueRange::bounded(min >> (by as u32), max >> (by as u32));
                        }
                    }
                }
                ValueRange::top()
            },
            Op::Rem { left, right, .. } => {
                if let Some(n) = self.get_range(*right).as_constant() {
                    if n > 0 && self.get_range(*left).is_always_non_negative() {
                        return ValueRange::bounded(0, n - 1);
                    }
                }
                ValueRange::top()
            },
            Op::ArrayLength { .. } => ValueRange::non_negative(),
            Op::Ceq { .. } => ValueRange::bounded(0, 1),
            Op::Clt { .. } => ValueRange::bounded(0, 1),
            Op::Cgt { .. } => ValueRange::bounded(0, 1),
            _ => ValueRange::top(),
        }
    }

    /// Evaluates the instructions of a block.
    fn process_block_definitions<T: Target>(&mut self, block: &SsaBlock<T>)
        ensures
            final(self)@ == old(self)@.after_ops(block@.instrs, block@.instrs.len()),
    {
        let mut i: usize = 0;
        while i < block.instrs.len()
            invariant
                i <= block.instrs@.len(),
                self@ == old(self)@.after_ops(block@.instrs, i as nat),
            decreases block.instrs@.len() - i,
        {
            let op: &SsaOp<T> = &block.instrs[i].op;
            assert(op@ == block@.instrs[i as int]);
            if let Some(dest) = op.dest() {
                let range: ValueRange = self.evaluate_instruction(op);
                self.update_range(dest, range);
            }
            i = i + 1;
        }
    }

    /// Returns the range of the result of a phi node.
    fn evaluate_phi(&self, phi: &PhiNode, block_id: usize) -> (r: ValueRange)
        ensures
            r == self@.phi_range(phi@, block_id),
    {
        let mut result: ValueRange = ValueRange::bottom();
        let mut has_executable_operand: bool = false;
        let mut i: usize = 0;
        while i < phi.operands.len()
            invariant
                i <= phi.operands@.len(),
                result == self@.joined(phi@.operands, block_id, i as nat),
                has_executable_operand == (exists|j: int|
                    0 <= j < i && self@.edges.contains(
                        ((#[trigger] phi@.operands[j]).predecessor, block_id),
                    )),
            decreases phi.operands@.len() - i,
        {
            let operand: PhiOperand = phi.operands[i];
            assert(operand == phi@.operands[i as int]);
            if self.is_taken(operand.predecessor, block_id) {
                has_executable_operand = true;
                let range: ValueRange = self.get_range(operand.value);
                result = result.join(&range);
            }
            i = i + 1;
        }
        if !has_executable_operand {
            return ValueRange::top();
        }
        result
    }

    /// Notes the edges that leave a block.
    fn propagate_outgoing_edges<T: Target>(&mut self, block_id: usize, block: &SsaBlock<T>)
        ensures
            final(self)@ == old(self)@.leaving(block_id, block@),
    {
        let targets: Vec<usize> = self.find_live_targets(block);
        let mut i: usize = 0;
        while i < targets.len()
            invariant
                i <= targets@.len(),
                targets@ == old(self)@.live_targets(block@),
                self@ == old(self)@.with_edges(block_id, targets@, i as nat),
            decreases targets@.len() - i,
        {
            self.add_cfg_edge(block_id, targets[i]);
            i = i + 1;
        }
    }

    /// Returns the blocks that control can continue at.
    fn find_live_targets<T: Target>(&self, block: &SsaBlock<T>) -> (r: Vec<usize>)
        ensures
            r@ == self@.live_targets(block@),
    {
        let op: &SsaOp<T> = match block.terminator_op() {
            Some(op) => op,
            None => return Vec::new(),
        };
        match op {
            Op::Branch { condition, true_target, false_target } => {
                let range: ValueRange = self.get_range(*condition);
                let mut r: Vec<usize> = Vec::new();
                if let Some(v) = range.as_constant() {
                    if v != 0 {
                        r.push(*true_target);
                    } else {
                        r.push(*false_target);
                    }
                } else if range.is_always_positive() {
                    r.push(*true_target);
                } else {
                    r.push(*true_target);
                    r.push(*false_target);
                }
                assert(r@ =~= self@.live_targets(block@));
                r
            },
            Op::Switch { value, targets, default } => {
                if let Some(v) = self.get_range(*value).as_constant() {
                    if v >= 0 {
                        let mut r: Vec<usize> = Vec::new();
                        if (v as u64) < targets.len() as u64 {
                            r.push(targets[v as usize]);
                        } else {
                            r.push(*default);
                        }
                        assert(r@ =~= self@.live_targets(block@));
                        return r;
                    }
                }
                op.successors()
            },
            _ => op.successors(),
        }
    }

    /// Follows an edge found to be taken.
    fn process_edge<T: Target>(&mut self, from: usize, to: usize, ssa: &SsaFunction<T>)
        requires
            old(self)@.reached.len() == ssa@.blocks.len(),
        ensures
            final(self)@ == old(self)@.taken(ssa@, from, to),
    {
        self.executable_edges.push((from, to));
        if to < ssa.blocks.len() {
            let ghost marked = self@;
            let block: &SsaBlock<T> = &ssa.blocks[to];
            assert(block@ == ssa@.blocks[to as int]);
            let first_visit: bool = !self.executable_blocks[to];
            if first_visit {
                self.executable_blocks.set(to, true);
                self.process_block_definitions(block);
            }
            let ghost start = self@;
            let mut p: usize = 0;
            while p < block.phis.len()
                invariant
                    p <= block.phis@.len(),
                    self@ == start.after_phis(block@.phis, from, to, p as nat),
                decreases block.phis@.len() - p,
            {
                let phi: &PhiNode = &block.phis[p];
                assert(phi@ == block@.phis[p as int]);
                if phi.has_operand_from(from) {
                    let range: ValueRange = self.evaluate_phi(phi, to);
                    self.update_range(phi.result, range);
                }
                p = p + 1;
            }
            if first_visit {
                self.propagate_outgoing_edges(to, block);
            }
        }
    }

    /// Follows all pending edges.
    fn drain_edges<T: Target>(&mut self, ssa: &SsaFunction<T>)
        requires
            old(self)@.reached.len() == ssa@.blocks.len(),
        ensures
            final(self)@ == old(self)@.drained(ssa@),
            final(self)@.reached.len() == ssa@.blocks.len(),
    {
        loop
            invariant
                self@.reached.len() == ssa@.blocks.len(),
                self@.drained(ssa@) == old(self)@.drained(ssa@),
            decreases not_reached(self@.reached, self@.reached.len()), self@.pending.len(),
        {
            let ghost before = self@;
            match self.cfg_worklist.pop_front() {
                None => {
                    return ;
                },
                Some((from, to)) => {
                    let ghost rest = self@;
                    assert(rest.pending =~= before.pending.drop_first());
                    proof {
                        rest.lemma_taken(ssa@, from, to);
                    }
                    if !self.is_taken(from, to) {
                        self.process_edge(from, to, ssa);
                    }
                },
            }
        }
    }

    /// Evaluates a use of a variable whose range changed again.
    fn process_use<T: Target>(&mut self, ssa: &SsaFunction<T>, site: UseSite)
        requires
            old(self)@.reached.len() == ssa@.blocks.len(),
        ensures
            final(self)@ == old(self)@.at_use(ssa@, site),
            final(self)@.reached.len() == ssa@.blocks.len(),
    {
        if site.block >= ssa.blocks.len() || !self.executable_blocks[site.block] {
            return ;
        }
        let block: &SsaBlock<T> = &ssa.blocks[site.block];
        assert(block@ == ssa@.blocks[site.block as int]);
        if site.is_phi_operand {
            if site.instruction < block.phis.len() {
                let phi: &PhiNode = &block.phis[site.instruction];
                assert(phi@ == block@.phis[site.instruction as int]);
                let range: ValueRange = self.evaluate_phi(phi, site.block);
                self.update_range(phi.result, range);
            }
        } else if site.instruction < block.instrs.len() {
            let op: &SsaOp<T> = &block.instrs[site.instruction].op;
            assert(op@ == block@.instrs[site.instruction as int]);
            if let Some(dest) = op.dest() {
                let range: ValueRange = self.evaluate_instruction(op);
                self.update_range(dest, range);
            }
            if op.is_terminator() {
                proof {
                    let targets = self@.live_targets(block@);
                    self@.lemma_with_edges(site.block, targets, targets.len());
                }
                self.propagate_outgoing_edges(site.block, block);
            }
        }
    }

    /// Evaluates the uses of a variable whose range changed again.
    fn process_variable_uses<T: Target>(&mut self, var: SsaVarId, ssa: &SsaFunction<T>)
        requires
            old(self)@.reached.len() == ssa@.blocks.len(),
        ensures
            final(self)@ == (if var.0 < ssa@.vars.len() {
                old(self)@.at_uses(
                    ssa@,
                    ssa@.vars[var.0 as int].uses,
                    ssa@.vars[var.0 as int].uses.len(),
                )
            } else {
                old(self)@
            }),
            final(self)@.reached.len() == ssa@.blocks.len(),
    {
        if let Some(ssa_var) = ssa.slot(var) {
            let uses: &Vec<UseSite> = ssa_var.uses();
            let mut i: usize = 0;
            while i < uses.len()
                invariant
                    i <= uses@.len(),
                    self@.reached.len() == ssa@.blocks.len(),
                    self@ == old(self)@.at_uses(ssa@, uses@, i as nat),
                decreases uses@.len() - i,
            {
                self.process_use(ssa, uses[i]);
                i = i + 1;
            }
        }
    }

    /// Propagates for at most `max_iterations` rounds.
    fn propagate<T: Target>(&mut self, ssa: &SsaFunction<T>, max_iterations: usize)
        requires
            old(self)@.reached.len() == ssa@.blocks.len(),
        ensures
            final(self)@ == old(self)@.propagated(ssa@, max_iterations as nat),
    {
        let mut rounds: usize = max_iterations;
        while rounds > 0
            invariant
                self@.reached.len() == ssa@.blocks.len(),
                self@.propagated(ssa@, rounds as nat) == old(self)@.propagated(
                    ssa@,
                    max_iterations as nat,
                ),
            decreases rounds,
        {
            self.drain_edges(ssa);
            let ghost drained = self@;
            match self.ssa_worklist.pop_front() {
                None => {
                    return ;
                },
                Some(var) => {
                    assert(self@.changed =~= drained.changed.drop_first());
                    self.process_variable_uses(var, ssa);
                },
            }
            rounds = rounds - 1;
        }
    }
}

/// Returns the range of a conjunction with `mask`.
fn mask_range(mask: i64) -> (r: ValueRange)
    ensures
        r == masked(mask),
{
    if mask >= 0 {
        ValueRange::bounded(0, mask)
    } else {
        ValueRange::top()
    }
}

impl<T: Target> SsaView<T> {
    /// The ranges found for the variables.
    pub open spec fn found_ranges(self, max_iterations: nat) -> Map<usize, ValueRange> {
        RangeView::initial(self).propagated(self, max_iterations).ranges
    }

    /// Where the branch that ends block `b` always goes, and on which truth value.
    pub open spec fn range_decided(self, ranges: Map<usize, ValueRange>, b: int) -> Option<
        (usize, bool),
    > {
        match self.blocks[b].terminator() {
            Some(Op::Branch { condition, true_target, false_target }) => match range_in(
                ranges,
                condition,
            ) {
                Some(range) => match range.only() {
                    Some(v) => if v == 0 {
                        Some((false_target, false))
                    } else {
                        Some((true_target, true))
                    },
                    None => None,
                },
                None => None,
            },
            _ => None,
        }
    }

    /// The operation in place of the one at `i` of block `b`.
    pub open spec fn range_rewritten(
        self,
        ranges: Map<usize, ValueRange>,
        b: int,
        i: int,
    ) -> OpView<T> {
        let op = self.blocks[b].instrs[i];
        match (self.range_decided(ranges, b), settled(op, ranges)) {
            (Some((target, _)), None) => if i == self.blocks[b].instrs.len() - 1 {
                Op::Jump { target }
            } else {
                op
            },
            (_, Some((dest, truth))) => Op::Const {
                dest,
                value: if truth {
                    ConstValue::True
                } else {
                    ConstValue::False
                },
            },
            _ => op,
        }
    }

    /// The events of the branches that always go to one target.
    pub open spec fn range_branch_events(
        self,
        method: T::MethodRef,
        ranges: Map<usize, ValueRange>,
    ) -> spec_fn(int) -> Seq<EventView<T>> {
        |b: int|
            match self.range_decided(ranges, b) {
                Some((target, truth)) => seq![
                    EventView::at(
                        EventKind::OpaquePredicateRemoved,
                        method,
                        b,
                        "range analysis: condition always "@ + text::bool_name(truth),
                    ),
                    EventView::at(
                        EventKind::BranchSimplified,
                        method,
                        b,
                        "simplified to unconditional jump to "@ + text::decimal(target as nat),
                    ),
                ],
                None => Seq::empty(),
            }
    }

    /// The event of the comparison at `i` of block `b`, where the ranges settle it.
    pub open spec fn range_fold_event(
        self,
        method: T::MethodRef,
        ranges: Map<usize, ValueRange>,
        b: int,
    ) -> spec_fn(int) -> Seq<EventView<T>> {
        |i: int|
            match settled(self.blocks[b].instrs[i], ranges) {
                Some((_, truth)) => seq![
                    EventView::at(
                        EventKind::ConstantFolded,
                        method,
                        i,
                        "range analysis: comparison → "@ + text::bool_name(truth),
                    ),
                ],
                None => Seq::empty(),
            }
    }

    /// The events of the comparisons that the ranges settle, block by block.
    pub open spec fn range_fold_events(
        self,
        method: T::MethodRef,
        ranges: Map<usize, ValueRange>,
    ) -> spec_fn(int) -> Seq<EventView<T>> {
        |b: int| seqs::flat(self.range_fold_event(method, ranges, b), self.blocks[b].instrs.len())
    }

    /// The function with the branches and comparisons that the ranges settle simplified.
    pub open spec fn with_ranges_applied(self, ranges: Map<usize, ValueRange>) -> SsaView<T> {
        SsaView {
            blocks: Seq::new(
                self.blocks.len(),
                |b: int|
                    self.blocks[b].with_instrs(
                        Seq::new(
                            self.blocks[b].instrs.len(),
                            |i: int| self.range_rewritten(ranges, b, i),
                        ),
                    ),
            ),
            ..self
        }
    }

    /// What the pass makes of the function.
    pub open spec fn range_simplified(self, method: T::MethodRef, max_iterations: nat) -> Outcome<
        T,
    > {
        let ranges = self.found_ranges(max_iterations);
        let events = seqs::flat(self.range_branch_events(method, ranges), self.blocks.len())
            + seqs::flat(self.range_fold_events(method, ranges), self.blocks.len());
        Outcome {
            ssa: self.with_ranges_applied(ranges),
            events,
            changed: events.len() > 0,
        }
    }
}

/// Returns where the branch that ends a block always goes.
fn decide_branch<T: Target>(ssa: &SsaFunction<T>, b: usize, result: &RangeResult) -> (r: Option<
    (usize, bool),
>)
    requires
        b < ssa@.blocks.len(),
    ensures
        r == ssa@.range_decided(result.ranges@, b as int),
{
    assert(ssa.blocks@[b as int]@ == ssa@.blocks[b as int]);
    if let Some(Op::Branch { condition, true_target, false_target }) =
        ssa.blocks[b].terminator_op() {
        if let Some(range) = result.get_range(*condition) {
            if let Some(v) = range.as_constant() {
                if v == 0 {
                    return Some((*false_target, false));
                }
                return Some((*true_target, true));
            }
        }
    }
    None
}

/// Rewrites one block, and reports its changes.
fn simplify_block<T: Target>(
    ssa: &mut SsaFunction<T>,
    b: usize,
    result: &RangeResult,
    method: &T::MethodRef,
    branches: &mut EventLog<T>,
    folds: &mut EventLog<T>,
)
    requires
        b < old(ssa)@.blocks.len(),
    ensures
        final(ssa)@ == old(ssa)@.with_block(
            b as int,
            old(ssa)@.with_ranges_applied(result.ranges@).blocks[b as int],
        ),
        final(branches)@ == old(branches)@ + (old(ssa)@.range_branch_events(
            *method,
            result.ranges@,
        ))(b as int),
        final(folds)@ == old(folds)@ + (old(ssa)@.range_fold_events(*method, result.ranges@))(
            b as int,
        ),
{
    let ghost s = ssa@;
    let ghost ranges = result.ranges@;
    let ghost event = s.range_fold_event(*method, ranges, b as int);
    let decision: Option<(usize, bool)> = decide_branch(ssa, b, result);
    let n: usize = ssa.blocks[b].instrs.len();
    assert(old(folds)@ + seqs::flat(event, 0) =~= old(folds)@);
    assert(ssa@.blocks =~= s.with_block(b as int, ssa@.blocks[b as int]).blocks);
    let mut i: usize = 0;
    while i < n
        invariant
            s == old(ssa)@,
            ranges == result.ranges@,
            b < s.blocks.len(),
            n == s.blocks[b as int].instrs.len(),
            i <= n,
            decision == s.range_decided(ranges, b as int),
            event == s.range_fold_event(*method, ranges, b as int),
            ssa@ == s.with_block(b as int, ssa@.blocks[b as int]),
            ssa@.blocks[b as int] == s.blocks[b as int].with_instrs(
                ssa@.blocks[b as int].instrs,
            ),
            ssa@.blocks[b as int].instrs.len() == n,
            forall|j: int|
                0 <= j < i ==> #[trigger] ssa@.blocks[b as int].instrs[j] == s.range_rewritten(
                    ranges,
                    b as int,
                    j,
                ),
            forall|j: int|
                i <= j < n ==> #[trigger] ssa@.blocks[b as int].instrs[j]
                    == s.blocks[b as int].instrs[j],
            folds@ == old(folds)@ + seqs::flat(event, i as nat),
        decreases n - i,
    {
        let ghost before = folds@;
        assert(ssa@.blocks.len() == s.blocks.len());
        assert(ssa.blocks@[b as int]@ == ssa@.blocks[b as int]);
        assert(ssa.blocks@[b as int].instrs@[i as int]@ == ssa@.blocks[b as int].instrs[i as int]);
        let folded: Option<(SsaVarId, bool)> = try_simplify_comparison(
            &ssa.blocks[b].instrs[i].op,
            result,
        );
        match folded {
            Some((dest, truth)) => {
                let value: ConstValue = if truth {
                    ConstValue::True
                } else {
                    ConstValue::False
                };
                ssa.set_op(b, i, Op::Const { dest, value });
                let mut message: String = String::from_str("range analysis: comparison → ");
                text::push_bool(&mut message, truth);
                folds.record_at(EventKind::ConstantFolded, method, i, message);
            },
            None => {
                if let Some((target, _)) = decision {
                    if i + 1 == n {
                        ssa.set_op(b, i, Op::Jump { target });
                    }
                }
            },
        }
        assert(folds@ =~= before + event(i as int));
        assert(old(folds)@ + seqs::flat(event, i as nat) + event(i as int) =~= old(folds)@
            + seqs::flat(event, (i + 1) as nat));
        assert(ssa@.blocks =~= s.with_block(b as int, ssa@.blocks[b as int]).blocks);
        i = i + 1;
    }
    assert(ssa@.blocks[b as int].instrs =~= s.with_ranges_applied(
        ranges,
    ).blocks[b as int].instrs);
    if let Some((target, truth)) = decision {
        let mut condition: String = String::from_str("range analysis: condition always ");
        text::push_bool(&mut condition, truth);
        branches.record_at(EventKind::OpaquePredicateRemoved, method, b, condition);
        let mut simplified: String = String::from_str("simplified to unconditional jump to ");
        text::push_number(&mut simplified, target);
        branches.record_at(EventKind::BranchSimplified, method, b, simplified);
    }
    assert(branches@ =~= old(branches)@ + (s.range_branch_events(*method, ranges))(b as int));
}

/// Returns the ranges found for the variables of a function.
#[must_use]
pub fn analyze<T: Target>(ssa: &SsaFunction<T>, max_iterations: usize) -> (r: RangeResult)
    ensures
        r.ranges@ == ssa@.found_ranges(max_iterations as nat),
{
    let mut analysis: RangeAnalysis = RangeAnalysis::initialize(ssa);
    proof {
        if ssa@.blocks.len() > 0 {
            let entry = ssa@.blocks[0];
            let blank = RangeView {
                ranges: Map::new(|v: usize| v < ssa@.vars.len(), |v: usize| ValueRange::Top),
                edges: Seq::empty(),
                reached: Seq::new(ssa@.blocks.len(), |b: int| b == 0),
                changed: Seq::empty(),
                pending: entry.successors().map_values(|to: usize| (0usize, to)),
            };
            blank.lemma_after_ops(entry.instrs, entry.instrs.len());
        }
    }
    analysis.propagate(ssa, max_iterations);
    RangeResult { ranges: analysis.ranges }
}

/// Propagates ranges through a function and simplifies what they settle.
///
/// Returns whether a branch or a comparison was simplified.
pub fn run<T: Target>(
    ssa: &mut SsaFunction<T>,
    method: &T::MethodRef,
    events: &mut EventLog<T>,
    max_iterations: usize,
) -> (r: bool)
    ensures
        ({
            let outcome = old(ssa)@.range_simplified(*method, max_iterations as nat);
            &&& final(ssa)@ == outcome.ssa
            &&& final(events)@ == old(events)@ + outcome.events
            &&& r == outcome.changed
        }),
{
    let result: RangeResult = analyze(ssa, max_iterations);
    let ghost s = ssa@;
    let ghost ranges = result.ranges@;
    let ghost target = s.with_ranges_applied(ranges);
    let n: usize = ssa.block_count();
    let mut branches: EventLog<T> = EventLog::new();
    let mut folds: EventLog<T> = EventLog::new();
    let mut b: usize = 0;
    while b < n
        invariant
            s == old(ssa)@,
            ranges == result.ranges@,
            target == s.with_ranges_applied(ranges),
            n == s.blocks.len(),
            b <= n,
            ssa@.blocks.len() == n,
            ssa@ == (SsaView { blocks: ssa@.blocks, ..s }),
            forall|j: int| 0 <= j < b ==> #[trigger] ssa@.blocks[j] == target.blocks[j],
            forall|j: int| b <= j < n ==> #[trigger] ssa@.blocks[j] == s.blocks[j],
            branches@ == seqs::flat(s.range_branch_events(*method, ranges), b as nat),
            folds@ == seqs::flat(s.range_fold_events(*method, ranges), b as nat),
        decreases n - b,
    {
        let ghost before = ssa@;
        proof {
            assert(before.blocks[b as int] == s.blocks[b as int]);
            assert(before.with_ranges_applied(ranges).blocks[b as int].instrs
                =~= target.blocks[b as int].instrs) by {
                assert forall|i: int|
                    0 <= i < s.blocks[b as int].instrs.len() implies before.range_rewritten(
                    ranges,
                    b as int,
                    i,
                ) == s.range_rewritten(ranges, b as int, i) by {}
            }
            assert((before.range_branch_events(*method, ranges))(b as int) == (
            s.range_branch_events(*method, ranges))(b as int));
            lemma_same_fold_events(before, s, *method, ranges, b as int);
        }
        simplify_block(ssa, b, &result, method, &mut branches, &mut folds);
        b = b + 1;
    }
    assert(ssa@.blocks =~= target.blocks);
    let changed: bool = !branches.is_empty() || !folds.is_empty();
    events.append_all(branches);
    events.append_all(folds);
    assert(events@ =~= old(events)@ + s.range_simplified(*method, max_iterations as nat).events);
    changed
}

proof fn lemma_same_fold_events<T: Target>(
    a: SsaView<T>,
    b: SsaView<T>,
    method: T::MethodRef,
    ranges: Map<usize, ValueRange>,
    k: int,
)
    requires
        a.blocks[k] == b.blocks[k],
    ensures
        (a.range_fold_events(method, ranges))(k) == (b.range_fold_events(method, ranges))(k),
{
    assert(a.range_fold_event(method, ranges, k) =~= b.range_fold_event(method, ranges, k));
}

proof fn lemma_and_bounded(x: i64, mask: i64)
    requires
        mask >= 0,
    ensures
        0 <= x & mask <= mask,
{
    assert(0 <= x & mask <= mask) by (bit_vector)
        requires
            mask >= 0,
    ;
}

/// The range of a conjunction with a mask holds the conjunction.
pub proof fn mask_is_sound(x: i64, mask: i64)
    ensures
        masked(mask).contains((x & mask) as int),
{
    if mask >= 0 {
        lemma_and_bounded(x, mask);
    }
}

/// The range of a shifted value holds the shift of every value in the range.
pub proof fn shift_is_sound(min: i64, max: i64, x: i64, by: u32)
    requires
        0 <= min <= x <= max,
        by < 64,
    ensures
        ValueRange::span(min >> by, max >> by).contains((x >> by) as int),
{
    assert(min >> by <= x >> by && x >> by <= max >> by) by (bit_vector)
        requires
            0 <= min <= x <= max,
            by < 64,
    ;
}

/// The range of a remainder holds the remainder of every value that is not negative.
pub proof fn remainder_is_sound(x: i64, n: i64)
    requires
        x >= 0,
        n > 0,
    ensures
        ValueRange::span(0, (n - 1) as i64).contains(x as int % n as int),
{
}

/// A register and its signed reading are congruent.
proof fn lemma_signed(x: u64) -> (k: int)
    ensures
        meaning::signed(x) == x + k * pointer::modulus(64),
        i64::MIN <= meaning::signed(x) <= i64::MAX,
        meaning::signed(x) >= 0 ==> meaning::signed(x) == x,
{
    let m = pointer::modulus(64);
    assert(0 * m == 0 && -1 * m == -m) by (nonlinear_arith);
    if x < 0x8000_0000_0000_0000 {
        0
    } else {
        -1
    }
}

/// A register holds congruent numbers alike.
proof fn lemma_congruent(a: int, b: int, k: int)
    requires
        a == b + k * pointer::modulus(64),
    ensures
        meaning::signed(meaning::register(a)) == pointer::wrap_signed(b, pointer::modulus(64)),
        i64::MIN <= pointer::wrap_signed(b, pointer::modulus(64)) <= i64::MAX,
{
    let m = pointer::modulus(64);
    vstd::arithmetic::div_mod::lemma_mod_multiples_vanish(k, b, m);
    assert(m * k + b == a) by (nonlinear_arith)
        requires
            a == b + k * m,
    ;
    vstd::arithmetic::div_mod::lemma_small_mod((a % m) as nat, m as nat);
}

/// The signed reading of a variable lies in the range known of it.
pub open spec fn holds_in(
    state: RangeView,
    env: spec_fn(SsaVarId) -> u64,
    v: SsaVarId,
) -> bool {
    state.range(v).contains(meaning::signed(env(v)))
}

/// The range of the result of an operation holds what the operation computes, where the ranges of
/// its operands hold their values.
pub proof fn evaluated_ranges_hold<T: Target>(
    state: RangeView,
    op: OpView<T>,
    env: spec_fn(SsaVarId) -> u64,
    args: spec_fn(usize) -> u64,
)
    requires
        meaning::result(op, env, args) is Some,
        forall|k: int|
            0 <= k < op.uses().len() ==> #[trigger] holds_in(state, env, op.uses()[k]),
    ensures
        state.evaluated(op).contains(
            meaning::signed(meaning::result(op, env, args).unwrap()),
        ),
{
    let m = pointer::modulus(64);
    let uses = op.uses();
    let x = meaning::result(op, env, args).unwrap();
    let _ = lemma_signed(x);
    match op {
        Op::Const { value, .. } => {
            if let Some(n) = value.signed() {
                assert(n as int == n as int + 0 * m);
                lemma_congruent(n as int, n as int, 0);
                vstd::arithmetic::div_mod::lemma_small_mod((n as int % m) as nat, m as nat);
            }
        },
        Op::Copy { src, .. } => {
            assert(uses[0] == src);
            assert(holds_in(state, env, uses[0]));
        },
        Op::Add { left, right, .. } => {
            assert(uses[0] == left && uses[1] == right);
            assert(holds_in(state, env, uses[0]) && holds_in(state, env, uses[1]));
            let j = lemma_signed(env(left));
            let k = lemma_signed(env(right));
            let a = meaning::signed(env(left));
            let b = meaning::signed(env(right));
            assert(env(left) + env(right) == (a + b) + (-(j + k)) * m) by (nonlinear_arith)
                requires
                    a == env(left) + j * m,
                    b == env(right) + k * m,
            ;
            lemma_congruent(env(left) + env(right), a + b, -(j + k));
            range::add_is_sound(state.range(left), state.range(right), a as i64, b as i64);
        },
        Op::Sub { left, right, .. } => {
            assert(uses[0] == left && uses[1] == right);
            assert(holds_in(state, env, uses[0]) && holds_in(state, env, uses[1]));
            let j = lemma_signed(env(left));
            let k = lemma_signed(env(right));
            let a = meaning::signed(env(left));
            let b = meaning::signed(env(right));
            assert(env(left) - env(right) == (a - b) + (k - j) * m) by (nonlinear_arith)
                requires
                    a == env(left) + j * m,
                    b == env(right) + k * m,
            ;
            lemma_congruent(env(left) - env(right), a - b, k - j);
            range::sub_is_sound(state.range(left), state.range(right), a as i64, b as i64);
        },
        Op::Mul { left, right, .. } => {
            assert(uses[0] == left && uses[1] == right);
            assert(holds_in(state, env, uses[0]) && holds_in(state, env, uses[1]));
            let j = lemma_signed(env(left));
            let k = lemma_signed(env(right));
            let a = meaning::signed(env(left));
            let b = meaning::signed(env(right));
            let c = -(a * k) - (b * j) + j * k * m;
            assert(env(left) * env(right) == a * b + c * m) by (nonlinear_arith)
                requires
                    a == env(left) + j * m,
                    b == env(right) + k * m,
                    c == -(a * k) - (b * j) + j * k * m,
            ;
            lemma_congruent(env(left) * env(right), a * b, c);
            range::mul_is_sound(state.range(left), state.range(right), a as i64, b as i64);
        },
        Op::And { left, right, .. } => {
            assert(uses[0] == left && uses[1] == right);
            assert(holds_in(state, env, uses[0]) && holds_in(state, env, uses[1]));
            let _ = lemma_signed(env(left));
            let _ = lemma_signed(env(right));
            let a = env(left);
            let b = env(right);
            assert(a & b <= a && a & b <= b) by (bit_vector);
        },
        Op::Shr { value, amount, unsigned, .. } => {
            assert(uses[0] == value && uses[1] == amount);
            assert(holds_in(state, env, uses[0]) && holds_in(state, env, uses[1]));
            let _ = lemma_signed(env(value));
            let _ = lemma_signed(env(amount));
            if let (Some(by), ValueRange::Interval { min, max }) = (
                state.range(amount).only(),
                state.range(value),
            ) {
                if 0 <= by < 64 && unsigned && min >= 0 {
                    let v = env(value);
                    let w = v as i64;
                    let n = by as u32;
                    let d = env(amount) % 64;
                    assert(d == n);
                    shift_is_sound(min, max, w, n);
                    assert(v >> d == (w >> n) as u64 && w >> n >= 0) by (bit_vector)
                        requires
                            w >= 0,
                            v == w as u64,
                            d == n,
                            n < 64,
                    ;
                }
            }
        },
        Op::Rem { left, right, unsigned, .. } => {
            assert(uses[0] == left && uses[1] == right);
            assert(holds_in(state, env, uses[0]) && holds_in(state, env, uses[1]));
            let _ = lemma_signed(env(left));
            let _ = lemma_signed(env(right));
            if let (Some(n), ValueRange::Interval { min, .. }) = (
                state.range(right).only(),
                state.range(left),
            ) {
                if n > 0 && min >= 0 {
                    let a = env(left) as int;
                    assert(env(right) == n);
                    vstd::arithmetic::div_mod::lemma_mod_bound(a, n as int);
                    lemma_congruent(a % (n as int), a % (n as int), 0);
                    vstd::arithmetic::div_mod::lemma_small_mod(
                        (a % (n as int)) as nat,
                        m as nat,
                    );
                }
            }
        },
        _ => {},
    }
}

/// A comparison that the ranges settle computes the truth value that they give it, where they hold
/// the values of its operands.
pub proof fn settled_comparisons_compute_their_truth<T: Target>(
    state: RangeView,
    op: OpView<T>,
    env: spec_fn(SsaVarId) -> u64,
    args: spec_fn(usize) -> u64,
)
    requires
        settled(op, state.ranges) is Some,
        forall|k: int|
            0 <= k < op.uses().len() ==> #[trigger] holds_in(state, env, op.uses()[k]),
    ensures
        meaning::result(op, env, args) == Some(
            meaning::truth(settled(op, state.ranges).unwrap().1),
        ),
{
    let uses = op.uses();
    assert(uses.len() == 2);
    assert(holds_in(state, env, uses[0]) && holds_in(state, env, uses[1]));
    let _ = lemma_signed(env(uses[0]));
    let _ = lemma_signed(env(uses[1]));
    settled_comparisons_hold(
        state.range(uses[0]),
        state.range(uses[1]),
        meaning::signed(env(uses[0])),
        meaning::signed(env(uses[1])),
    );
    settled_comparisons_hold(
        state.range(uses[1]),
        state.range(uses[0]),
        meaning::signed(env(uses[1])),
        meaning::signed(env(uses[0])),
    );
}

} // verus!
