//! Ranges that have settled hold of every value that the function computes.
//!
//! Propagation that ends because nothing is left to look at has settled: the range of every variable
//! is what its assignment gives for the ranges of its operands, and every edge that control can take
//! was looked at.
use crate::analysis::assignments;
use crate::analysis::assignments::assigned_once;
use crate::analysis::meaning;
use crate::analysis::range::ValueRange;
use crate::ir::block::BlockView;
use crate::ir::function;
use crate::ir::function::SsaView;
use crate::ir::ops::{Op, OpView};
use crate::ir::phi::{PhiOperand, PhiView};
use crate::ir::variable::{SsaVarId, UseSite};
use crate::passes::ranges;
use crate::passes::ranges::RangeView;
use crate::target::Target;
use vstd::prelude::*;

verus! {

impl RangeView {
    /// The range of what instruction `i` of block `b` assigns is what it gives for the ranges of its
    /// operands.
    pub open spec fn op_settled<T: Target>(self, ssa: SsaView<T>, b: int, i: int) -> bool {
        let op = ssa.blocks[b].instrs[i];
        op.result() matches Some(dest) ==> self.range(dest) == self.evaluated(op)
    }

    /// The range of what phi node `p` of block `b` assigns joins those of the edges taken.
    pub open spec fn phi_settled<T: Target>(self, ssa: SsaView<T>, b: int, p: int) -> bool {
        let phi = ssa.blocks[b].phis[p];
        self.range(phi.result) == self.phi_range(phi, b as usize)
    }

    /// The edge from block `b` to the target `k` that control can take was looked at.
    pub open spec fn exit_settled<T: Target>(self, ssa: SsaView<T>, b: int, k: int) -> bool {
        self.edges.contains((b as usize, self.live_targets(ssa.blocks[b])[k]))
    }

    /// Every edge taken leads to a block that control was found to reach.
    pub open spec fn edges_reach<T: Target>(self, ssa: SsaView<T>) -> bool {
        forall|e: int|
            0 <= e < self.edges.len() && (#[trigger] self.edges[e]).1 < ssa.blocks.len()
                ==> self.reached[self.edges[e].1 as int]
    }

    /// Nothing is left to look at: ranges and edges agree with each other.
    pub open spec fn is_closed<T: Target>(self, ssa: SsaView<T>) -> bool {
        &&& self.reached.len() == ssa.blocks.len()
        &&& self.edges_reach(ssa)
        &&& ssa.blocks.len() > 0 ==> self.reached[0]
        &&& forall|b: int, i: int|
            0 <= b < ssa.blocks.len() && self.reached[b] && 0 <= i < ssa.blocks[b].instrs.len()
                ==> #[trigger] self.op_settled(ssa, b, i)
        &&& forall|b: int, p: int|
            0 <= b < ssa.blocks.len() && self.reached[b] && 0 <= p < ssa.blocks[b].phis.len()
                ==> #[trigger] self.phi_settled(ssa, b, p)
        &&& forall|b: int, k: int|
            0 <= b < ssa.blocks.len() && self.reached[b] && 0 <= k < self.live_targets(
                ssa.blocks[b],
            ).len() ==> #[trigger] self.exit_settled(ssa, b, k)
    }
}

/// Settled ranges hold of what an instruction computes from values that they hold of.
pub proof fn settled_ranges_hold_of_results<T: Target>(
    state: RangeView,
    ssa: SsaView<T>,
    b: int,
    i: int,
    env: spec_fn(SsaVarId) -> u64,
    args: spec_fn(usize) -> u64,
)
    requires
        state.is_closed(ssa),
        0 <= b < ssa.blocks.len(),
        state.reached[b],
        0 <= i < ssa.blocks[b].instrs.len(),
        ssa.blocks[b].instrs[i].result() is Some,
        meaning::result(ssa.blocks[b].instrs[i], env, args) is Some,
        forall|k: int|
            0 <= k < ssa.blocks[b].instrs[i].uses().len() ==> #[trigger] ranges::holds_in(
                state,
                env,
                ssa.blocks[b].instrs[i].uses()[k],
            ),
    ensures
        state.range(ssa.blocks[b].instrs[i].result().unwrap()).contains(
            meaning::signed(meaning::result(ssa.blocks[b].instrs[i], env, args).unwrap()),
        ),
{
    assert(state.op_settled(ssa, b, i));
    ranges::evaluated_ranges_hold(state, ssa.blocks[b].instrs[i], env, args);
}

proof fn lemma_joined_holds(
    state: RangeView,
    operands: Seq<PhiOperand>,
    b: usize,
    n: nat,
    k: int,
    x: int,
)
    requires
        0 <= k < n <= operands.len(),
        state.edges.contains((operands[k].predecessor, b)),
        state.range(operands[k].value).contains(x),
        i64::MIN <= x <= i64::MAX,
    ensures
        state.joined(operands, b, n).contains(x),
    decreases n,
{
    if k < n - 1 {
        lemma_joined_holds(state, operands, b, (n - 1) as nat, k, x);
    }
}

/// Settled ranges hold of what a phi node passes on from an edge taken.
pub proof fn settled_ranges_hold_of_phis<T: Target>(
    state: RangeView,
    ssa: SsaView<T>,
    b: int,
    p: int,
    k: int,
    env: spec_fn(SsaVarId) -> u64,
)
    requires
        state.is_closed(ssa),
        0 <= b < ssa.blocks.len(),
        state.reached[b],
        0 <= p < ssa.blocks[b].phis.len(),
        0 <= k < ssa.blocks[b].phis[p].operands.len(),
        state.edges.contains((ssa.blocks[b].phis[p].operands[k].predecessor, b as usize)),
        ranges::holds_in(state, env, ssa.blocks[b].phis[p].operands[k].value),
    ensures
        state.range(ssa.blocks[b].phis[p].result).contains(
            meaning::signed(env(ssa.blocks[b].phis[p].operands[k].value)),
        ),
{
    let phi = ssa.blocks[b].phis[p];
    assert(state.phi_settled(ssa, b, p));
    lemma_joined_holds(
        state,
        phi.operands,
        b as usize,
        phi.operands.len(),
        k,
        meaning::signed(env(phi.operands[k].value)),
    );
}

/// Where a branch goes, given the value of its condition, an edge was taken, and the block there was
/// found to be reached.
pub proof fn settled_branches_reach_their_target<T: Target>(
    state: RangeView,
    ssa: SsaView<T>,
    b: int,
    env: spec_fn(SsaVarId) -> u64,
)
    requires
        state.is_closed(ssa),
        0 <= b < ssa.blocks.len(),
        state.reached[b],
        ssa.blocks[b].terminator() is Some,
        ssa.blocks[b].terminator().unwrap() is Branch,
        ranges::holds_in(state, env, ssa.blocks[b].terminator().unwrap()->Branch_condition),
    ensures
        ({
            let op = ssa.blocks[b].terminator().unwrap();
            let to = if env(op->Branch_condition) != 0 {
                op->Branch_true_target
            } else {
                op->Branch_false_target
            };
            &&& state.edges.contains((b as usize, to))
            &&& to < ssa.blocks.len() ==> state.reached[to as int]
        }),
{
    let op = ssa.blocks[b].terminator().unwrap();
    let c = op->Branch_condition;
    let to = if env(c) != 0 {
        op->Branch_true_target
    } else {
        op->Branch_false_target
    };
    let targets = state.live_targets(ssa.blocks[b]);
    assert(meaning::signed(env(c)) == 0 <==> env(c) == 0);
    let k: int = if targets[0] == to {
        0
    } else {
        1
    };
    assert(targets[k] == to);
    assert(state.exit_settled(ssa, b, k));
    let e = choose|e: int| 0 <= e < state.edges.len() && state.edges[e] == (b as usize, to);
    assert(state.edges[e].1 == to);
}

/// A place that is to be looked at: a block, a position in it, and whether that is the position of an
/// instruction, of a phi node, or stands for the exits of the block.
type Place = (int, int, int);

impl RangeView {
    /// One of the variables waits for its uses to be looked at.
    spec fn awaits(self, vars: Seq<SsaVarId>) -> bool {
        exists|k: int| 0 <= k < vars.len() && self.changed.contains(#[trigger] vars[k])
    }

    spec fn op_ok<T: Target>(self, ssa: SsaView<T>, stale: Set<Place>, b: int, i: int) -> bool {
        self.op_settled(ssa, b, i) || self.awaits(ssa.blocks[b].instrs[i].uses())
            || stale.contains((b, i, 0int))
    }

    spec fn phi_ok<T: Target>(self, ssa: SsaView<T>, stale: Set<Place>, b: int, p: int) -> bool {
        self.phi_settled(ssa, b, p) || self.awaits(ssa.blocks[b].phis[p].values())
            || stale.contains((b, p, 1int))
    }

    spec fn phi_idle<T: Target>(self, ssa: SsaView<T>, b: int, p: int) -> bool {
        self.range(ssa.blocks[b].phis[p].result) == ValueRange::Top
    }

    spec fn exit_ok<T: Target>(self, ssa: SsaView<T>, stale: Set<Place>, b: int, k: int) -> bool {
        let edge = (b as usize, self.live_targets(ssa.blocks[b])[k]);
        self.edges.contains(edge) || self.pending.contains(edge) || self.awaits(
            ssa.blocks[b].instrs.last().uses(),
        ) || stale.contains((b, -1int, 2int))
    }

    /// What is not settled is either stale or waits for a variable, an edge or a block to be looked
    /// at.
    spec fn steady<T: Target>(self, ssa: SsaView<T>, stale: Set<Place>) -> bool {
        &&& self.reached.len() == ssa.blocks.len()
        &&& self.edges_reach(ssa)
        &&& ssa.blocks.len() > 0 ==> self.reached[0]
        &&& forall|b: int, i: int|
            0 <= b < ssa.blocks.len() && self.reached[b] && 0 <= i < ssa.blocks[b].instrs.len()
                ==> #[trigger] self.op_ok(ssa, stale, b, i)
        &&& forall|b: int, p: int|
            0 <= b < ssa.blocks.len() && self.reached[b] && 0 <= p < ssa.blocks[b].phis.len()
                ==> #[trigger] self.phi_ok(ssa, stale, b, p)
        &&& forall|b: int, p: int|
            0 <= b < ssa.blocks.len() && !self.reached[b] && 0 <= p < ssa.blocks[b].phis.len()
                ==> #[trigger] self.phi_idle(ssa, b, p)
        &&& forall|b: int, k: int|
            0 <= b < ssa.blocks.len() && self.reached[b] && 0 <= k < self.live_targets(
                ssa.blocks[b],
            ).len() ==> #[trigger] self.exit_ok(ssa, stale, b, k)
    }

    spec fn op_gives<T: Target>(
        self,
        ssa: SsaView<T>,
        b: int,
        i: int,
        v: SsaVarId,
        r: ValueRange,
    ) -> bool {
        ssa.blocks[b].instrs[i].result() == Some(v) ==> self.evaluated(ssa.blocks[b].instrs[i])
            == r
    }

    spec fn phi_gives<T: Target>(
        self,
        ssa: SsaView<T>,
        b: int,
        p: int,
        v: SsaVarId,
        r: ValueRange,
    ) -> bool {
        ssa.blocks[b].phis[p].result == v ==> self.reached[b] && self.phi_range(
            ssa.blocks[b].phis[p],
            b as usize,
        ) == r
    }

    /// Whatever assigns `v` gives it the range `r`.
    spec fn gives<T: Target>(self, ssa: SsaView<T>, v: SsaVarId, r: ValueRange) -> bool {
        &&& forall|b: int, i: int|
            0 <= b < ssa.blocks.len() && 0 <= i < ssa.blocks[b].instrs.len()
                ==> #[trigger] self.op_gives(ssa, b, i, v, r)
        &&& forall|b: int, p: int|
            0 <= b < ssa.blocks.len() && 0 <= p < ssa.blocks[b].phis.len()
                ==> #[trigger] self.phi_gives(ssa, b, p, v, r)
    }
}

proof fn lemma_evaluated<T: Target>(a: RangeView, b: RangeView, op: OpView<T>)
    requires
        forall|k: int|
            0 <= k < op.uses().len() ==> a.range(#[trigger] op.uses()[k]) == b.range(op.uses()[k]),
    ensures
        a.evaluated(op) == b.evaluated(op),
{
    let uses = op.uses();
    match op {
        Op::Copy { src, .. } => {
            assert(uses[0] == src);
        },
        Op::Add { left, right, .. }
        | Op::Sub { left, right, .. }
        | Op::Mul { left, right, .. }
        | Op::And { left, right, .. }
        | Op::Rem { left, right, .. } => {
            assert(uses[0] == left && uses[1] == right);
        },
        Op::Shr { value, amount, .. } => {
            assert(uses[0] == value && uses[1] == amount);
        },
        _ => {},
    }
}

proof fn lemma_joined(a: RangeView, b: RangeView, operands: Seq<PhiOperand>, to: usize, n: nat)
    requires
        n <= operands.len(),
        forall|k: int|
            0 <= k < operands.len() ==> a.range((#[trigger] operands[k]).value) == b.range(
                operands[k].value,
            ) && a.edges.contains((operands[k].predecessor, to)) == b.edges.contains(
                (operands[k].predecessor, to),
            ),
    ensures
        a.joined(operands, to, n) == b.joined(operands, to, n),
    decreases n,
{
    if n > 0 {
        lemma_joined(a, b, operands, to, (n - 1) as nat);
        assert(a.range(operands[n - 1].value) == b.range(operands[n - 1].value));
    }
}

proof fn lemma_phi_range(a: RangeView, b: RangeView, phi: PhiView, to: usize)
    requires
        forall|k: int|
            0 <= k < phi.operands.len() ==> a.range((#[trigger] phi.operands[k]).value) == b.range(
                phi.operands[k].value,
            ) && a.edges.contains((phi.operands[k].predecessor, to)) == b.edges.contains(
                (phi.operands[k].predecessor, to),
            ),
    ensures
        a.phi_range(phi, to) == b.phi_range(phi, to),
{
    lemma_joined(a, b, phi.operands, to, phi.operands.len());
    let in_a = exists|i: int|
        0 <= i < phi.operands.len() && a.edges.contains(
            ((#[trigger] phi.operands[i]).predecessor, to),
        );
    let in_b = exists|i: int|
        0 <= i < phi.operands.len() && b.edges.contains(
            ((#[trigger] phi.operands[i]).predecessor, to),
        );
    if in_a {
        let i = choose|i: int|
            0 <= i < phi.operands.len() && a.edges.contains(
                ((#[trigger] phi.operands[i]).predecessor, to),
            );
        assert(b.edges.contains((phi.operands[i].predecessor, to)));
    }
    if in_b {
        let i = choose|i: int|
            0 <= i < phi.operands.len() && b.edges.contains(
                ((#[trigger] phi.operands[i]).predecessor, to),
            );
        assert(a.edges.contains((phi.operands[i].predecessor, to)));
    }
}

proof fn lemma_live_targets<T: Target>(a: RangeView, b: RangeView, block: BlockView<T>)
    requires
        forall|k: int|
            0 <= k < block.instrs.last().uses().len() ==> a.range(
                #[trigger] block.instrs.last().uses()[k],
            ) == b.range(block.instrs.last().uses()[k]),
    ensures
        a.live_targets(block) == b.live_targets(block),
{
    match block.terminator() {
        Some(Op::Branch { condition, .. }) => {
            assert(block.instrs.last().uses()[0] == condition);
        },
        Some(Op::Switch { value, .. }) => {
            assert(block.instrs.last().uses()[0] == value);
        },
        _ => {},
    }
}

proof fn lemma_awaits_more(a: RangeView, b: RangeView, vars: Seq<SsaVarId>)
    requires
        a.awaits(vars),
        forall|v: SsaVarId| #[trigger] a.changed.contains(v) ==> b.changed.contains(v),
    ensures
        b.awaits(vars),
{
    let k = choose|k: int| 0 <= k < vars.len() && a.changed.contains(#[trigger] vars[k]);
    assert(b.changed.contains(vars[k]));
}

proof fn lemma_updated<T: Target>(
    state: RangeView,
    ssa: SsaView<T>,
    stale: Set<Place>,
    v: SsaVarId,
    r: ValueRange,
)
    requires
        state.steady(ssa, stale),
        state.gives(ssa, v, r),
    ensures
        state.updated(v, r).steady(ssa, stale),
        state.updated(v, r).range(v) == r,
        state.updated(v, r).reached == state.reached,
        state.updated(v, r).edges == state.edges,
        state.updated(v, r).pending == state.pending,
{
    let next = state.updated(v, r);
    if state.range(v) != r {
        assert(next.changed.contains(v)) by {
            assert(next.changed[state.changed.len() as int] == v);
        }
        assert forall|w: SsaVarId| #[trigger] state.changed.contains(w) implies next.changed.contains(
            w,
        ) by {
            let k = choose|k: int| 0 <= k < state.changed.len() && state.changed[k] == w;
            assert(next.changed[k] == w);
        }
        assert forall|w: SsaVarId| w != v implies #[trigger] next.range(w) == state.range(w) by {
            assert(w.0 != v.0);
        }
        assert forall|b: int, i: int|
            0 <= b < ssa.blocks.len() && next.reached[b] && 0 <= i
                < ssa.blocks[b].instrs.len() implies #[trigger] next.op_ok(ssa, stale, b, i) by {
            let op = ssa.blocks[b].instrs[i];
            assert(state.op_ok(ssa, stale, b, i));
            assert(state.op_gives(ssa, b, i, v, r));
            if op.uses().contains(v) {
                let k = choose|k: int| 0 <= k < op.uses().len() && op.uses()[k] == v;
                assert(next.changed.contains(op.uses()[k]));
            } else if state.awaits(op.uses()) {
                lemma_awaits_more(state, next, op.uses());
            } else if state.op_settled(ssa, b, i) {
                assert forall|k: int| 0 <= k < op.uses().len() implies state.range(
                    #[trigger] op.uses()[k],
                ) == next.range(op.uses()[k]) by {
                    assert(op.uses().contains(op.uses()[k]));
                }
                lemma_evaluated(state, next, op);
            }
        }
        assert forall|b: int, p: int|
            0 <= b < ssa.blocks.len() && next.reached[b] && 0 <= p
                < ssa.blocks[b].phis.len() implies #[trigger] next.phi_ok(ssa, stale, b, p) by {
            let phi = ssa.blocks[b].phis[p];
            let values = phi.values();
            assert(state.phi_ok(ssa, stale, b, p));
            assert(state.phi_gives(ssa, b, p, v, r));
            if values.contains(v) {
                let k = choose|k: int| 0 <= k < values.len() && values[k] == v;
                assert(next.changed.contains(values[k]));
            } else if state.awaits(values) {
                lemma_awaits_more(state, next, values);
            } else if state.phi_settled(ssa, b, p) {
                assert forall|k: int| 0 <= k < phi.operands.len() implies state.range(
                    (#[trigger] phi.operands[k]).value,
                ) == next.range(phi.operands[k].value) by {
                    assert(values[k] == phi.operands[k].value);
                    assert(values.contains(values[k]));
                }
                lemma_phi_range(state, next, phi, b as usize);
            }
        }
        assert forall|b: int, p: int|
            0 <= b < ssa.blocks.len() && !next.reached[b] && 0 <= p
                < ssa.blocks[b].phis.len() implies #[trigger] next.phi_idle(ssa, b, p) by {
            assert(state.phi_idle(ssa, b, p));
            assert(state.phi_gives(ssa, b, p, v, r));
        }
        assert forall|b: int, k: int|
            0 <= b < ssa.blocks.len() && next.reached[b] && 0 <= k < next.live_targets(
                ssa.blocks[b],
            ).len() implies #[trigger] next.exit_ok(ssa, stale, b, k) by {
            let uses = ssa.blocks[b].instrs.last().uses();
            if uses.contains(v) {
                let j = choose|j: int| 0 <= j < uses.len() && uses[j] == v;
                assert(next.changed.contains(uses[j]));
            } else {
                assert forall|j: int| 0 <= j < uses.len() implies state.range(#[trigger] uses[j])
                    == next.range(uses[j]) by {
                    assert(uses.contains(uses[j]));
                }
                lemma_live_targets(state, next, ssa.blocks[b]);
                assert(state.exit_ok(ssa, stale, b, k));
                if state.awaits(uses) {
                    lemma_awaits_more(state, next, uses);
                }
            }
        }
    }
}

/// The state after instruction `i` of block `b` is evaluated.
spec fn after_op<T: Target>(state: RangeView, op: OpView<T>) -> RangeView {
    match op.result() {
        Some(dest) => state.updated(dest, state.evaluated(op)),
        None => state,
    }
}

proof fn lemma_after_op<T: Target>(
    state: RangeView,
    ssa: SsaView<T>,
    stale: Set<Place>,
    b: int,
    i: int,
)
    requires
        state.steady(ssa, stale),
        assigned_once(ssa),
        0 <= b < ssa.blocks.len(),
        state.reached[b],
        0 <= i < ssa.blocks[b].instrs.len(),
    ensures
        after_op(state, ssa.blocks[b].instrs[i]).steady(ssa, stale.remove((b, i, 0int))),
        after_op(state, ssa.blocks[b].instrs[i]).reached == state.reached,
        after_op(state, ssa.blocks[b].instrs[i]).edges == state.edges,
        after_op(state, ssa.blocks[b].instrs[i]).pending == state.pending,
{
    let op = ssa.blocks[b].instrs[i];
    let next = after_op(state, op);
    let less = stale.remove((b, i, 0int));
    if let Some(dest) = op.result() {
        let r = state.evaluated(op);
        assert forall|c: int, j: int|
            0 <= c < ssa.blocks.len() && 0 <= j
                < ssa.blocks[c].instrs.len() implies #[trigger] state.op_gives(
            ssa,
            c,
            j,
            dest,
            r,
        ) by {
            assert(ssa.blocks[c].instrs[j].result() == Some(dest) ==> c == b && j == i);
        }
        assert forall|c: int, p: int|
            0 <= c < ssa.blocks.len() && 0 <= p
                < ssa.blocks[c].phis.len() implies #[trigger] state.phi_gives(
            ssa,
            c,
            p,
            dest,
            r,
        ) by {
            assert(ssa.blocks[b].instrs[i].result() != Some(ssa.blocks[c].phis[p].result));
        }
        lemma_updated(state, ssa, stale, dest, r);
        if op.uses().contains(dest) && state.range(dest) != r {
            let k = choose|k: int| 0 <= k < op.uses().len() && op.uses()[k] == dest;
            assert(next.changed[state.changed.len() as int] == dest);
            assert(next.changed.contains(op.uses()[k]));
            assert(next.awaits(op.uses()));
        } else {
            assert forall|k: int| 0 <= k < op.uses().len() implies state.range(
                #[trigger] op.uses()[k],
            ) == next.range(op.uses()[k]) by {
                assert(op.uses().contains(op.uses()[k]));
            }
            lemma_evaluated(state, next, op);
            assert(next.op_settled(ssa, b, i));
        }
    }
    assert forall|c: int, j: int|
        0 <= c < ssa.blocks.len() && next.reached[c] && 0 <= j
            < ssa.blocks[c].instrs.len() implies #[trigger] next.op_ok(ssa, less, c, j) by {
        assert(next.op_ok(ssa, stale, c, j));
    }
    assert forall|c: int, p: int|
        0 <= c < ssa.blocks.len() && next.reached[c] && 0 <= p
            < ssa.blocks[c].phis.len() implies #[trigger] next.phi_ok(ssa, less, c, p) by {
        assert(next.phi_ok(ssa, stale, c, p));
    }
    assert forall|c: int, k: int|
        0 <= c < ssa.blocks.len() && next.reached[c] && 0 <= k < next.live_targets(
            ssa.blocks[c],
        ).len() implies #[trigger] next.exit_ok(ssa, less, c, k) by {
        assert(next.exit_ok(ssa, stale, c, k));
    }
}

proof fn lemma_after_phi<T: Target>(
    state: RangeView,
    ssa: SsaView<T>,
    stale: Set<Place>,
    b: int,
    p: int,
)
    requires
        state.steady(ssa, stale),
        assigned_once(ssa),
        0 <= b < ssa.blocks.len(),
        state.reached[b],
        0 <= p < ssa.blocks[b].phis.len(),
    ensures
        ({
            let phi = ssa.blocks[b].phis[p];
            let next = state.updated(phi.result, state.phi_range(phi, b as usize));
            &&& next.steady(ssa, stale.remove((b, p, 1int)))
            &&& next.reached == state.reached
            &&& next.edges == state.edges
            &&& next.pending == state.pending
        }),
{
    let phi = ssa.blocks[b].phis[p];
    let values = phi.values();
    let r = state.phi_range(phi, b as usize);
    let next = state.updated(phi.result, r);
    let less = stale.remove((b, p, 1int));
    assert forall|c: int, j: int|
        0 <= c < ssa.blocks.len() && 0 <= j
            < ssa.blocks[c].instrs.len() implies #[trigger] state.op_gives(
        ssa,
        c,
        j,
        phi.result,
        r,
    ) by {
        assert(ssa.blocks[c].instrs[j].result() != Some(ssa.blocks[b].phis[p].result));
    }
    assert forall|c: int, q: int|
        0 <= c < ssa.blocks.len() && 0 <= q < ssa.blocks[c].phis.len() implies #[trigger] state.phi_gives(
        ssa,
        c,
        q,
        phi.result,
        r,
    ) by {
        assert(ssa.blocks[c].phis[q].result == ssa.blocks[b].phis[p].result ==> c == b && q == p);
    }
    lemma_updated(state, ssa, stale, phi.result, r);
    if values.contains(phi.result) && state.range(phi.result) != r {
        let k = choose|k: int| 0 <= k < values.len() && values[k] == phi.result;
        assert(next.changed[state.changed.len() as int] == phi.result);
        assert(next.changed.contains(values[k]));
        assert(next.awaits(values));
    } else {
        assert forall|k: int| 0 <= k < phi.operands.len() implies state.range(
            (#[trigger] phi.operands[k]).value,
        ) == next.range(phi.operands[k].value) by {
            assert(values[k] == phi.operands[k].value);
            assert(values.contains(values[k]));
        }
        lemma_phi_range(state, next, phi, b as usize);
        assert(next.phi_settled(ssa, b, p));
    }
    assert forall|c: int, j: int|
        0 <= c < ssa.blocks.len() && next.reached[c] && 0 <= j
            < ssa.blocks[c].instrs.len() implies #[trigger] next.op_ok(ssa, less, c, j) by {
        assert(next.op_ok(ssa, stale, c, j));
    }
    assert forall|c: int, q: int|
        0 <= c < ssa.blocks.len() && next.reached[c] && 0 <= q
            < ssa.blocks[c].phis.len() implies #[trigger] next.phi_ok(ssa, less, c, q) by {
        assert(next.phi_ok(ssa, stale, c, q));
    }
    assert forall|c: int, k: int|
        0 <= c < ssa.blocks.len() && next.reached[c] && 0 <= k < next.live_targets(
            ssa.blocks[c],
        ).len() implies #[trigger] next.exit_ok(ssa, less, c, k) by {
        assert(next.exit_ok(ssa, stale, c, k));
    }
}

/// The places in `stale` but for the first `n` instructions of block `b`.
spec fn but_instrs(stale: Set<Place>, b: int, n: nat) -> Set<Place> {
    Set::new(|s: Place| stale.contains(s) && !(s.0 == b && s.2 == 0 && 0 <= s.1 < n))
}

proof fn lemma_after_instrs<T: Target>(
    state: RangeView,
    ssa: SsaView<T>,
    stale: Set<Place>,
    b: int,
    n: nat,
)
    requires
        state.steady(ssa, stale),
        assigned_once(ssa),
        0 <= b < ssa.blocks.len(),
        state.reached[b],
        n <= ssa.blocks[b].instrs.len(),
    ensures
        ({
            let next = state.after_ops(ssa.blocks[b].instrs, n);
            &&& next.steady(ssa, but_instrs(stale, b, n))
            &&& next.reached == state.reached
            &&& next.edges == state.edges
            &&& next.pending == state.pending
        }),
    decreases n,
{
    if n == 0 {
        assert(but_instrs(stale, b, 0) =~= stale);
    } else {
        let m = (n - 1) as nat;
        lemma_after_instrs(state, ssa, stale, b, m);
        let before = state.after_ops(ssa.blocks[b].instrs, m);
        lemma_after_op(before, ssa, but_instrs(stale, b, m), b, n - 1);
        assert(but_instrs(stale, b, m).remove((b, n - 1, 0int)) =~= but_instrs(stale, b, n));
    }
}

/// The places in `stale` but for those of the first `n` phi nodes of block `b` that an edge from
/// `from` concerns.
spec fn but_phis(stale: Set<Place>, phis: Seq<PhiView>, from: usize, b: int, n: nat) -> Set<Place> {
    Set::new(
        |s: Place|
            stale.contains(s) && !(s.0 == b && s.2 == 1 && 0 <= s.1 < n
                && phis[s.1].has_predecessor(from)),
    )
}

proof fn lemma_after_all_phis<T: Target>(
    state: RangeView,
    ssa: SsaView<T>,
    stale: Set<Place>,
    from: usize,
    b: int,
    n: nat,
)
    requires
        state.steady(ssa, stale),
        assigned_once(ssa),
        0 <= b < ssa.blocks.len(),
        state.reached[b],
        n <= ssa.blocks[b].phis.len(),
    ensures
        ({
            let next = state.after_phis(ssa.blocks[b].phis, from, b as usize, n);
            &&& next.steady(ssa, but_phis(stale, ssa.blocks[b].phis, from, b, n))
            &&& next.reached == state.reached
            &&& next.edges == state.edges
            &&& next.pending == state.pending
        }),
    decreases n,
{
    let phis = ssa.blocks[b].phis;
    if n == 0 {
        assert(but_phis(stale, phis, from, b, 0) =~= stale);
    } else {
        let m = (n - 1) as nat;
        lemma_after_all_phis(state, ssa, stale, from, b, m);
        let before = state.after_phis(phis, from, b as usize, m);
        if phis[n - 1].has_predecessor(from) {
            lemma_after_phi(before, ssa, but_phis(stale, phis, from, b, m), b, n - 1);
            assert(but_phis(stale, phis, from, b, m).remove((b, n - 1, 1int)) =~= but_phis(
                stale,
                phis,
                from,
                b,
                n,
            ));
        } else {
            assert(but_phis(stale, phis, from, b, m) =~= but_phis(stale, phis, from, b, n));
        }
    }
}

proof fn lemma_with_edges(state: RangeView, from: usize, targets: Seq<usize>, n: nat)
    requires
        n <= targets.len(),
    ensures
        ({
            let next = state.with_edges(from, targets, n);
            &&& next == RangeView { pending: next.pending, ..state }
            &&& forall|e: (usize, usize)| #[trigger]
                state.pending.contains(e) ==> next.pending.contains(e)
            &&& forall|k: int|
                0 <= k < n ==> state.edges.contains((from, #[trigger] targets[k]))
                    || next.pending.contains((from, targets[k]))
        }),
    decreases n,
{
    if n > 0 {
        let m = (n - 1) as nat;
        lemma_with_edges(state, from, targets, m);
        let before = state.with_edges(from, targets, m);
        let next = state.with_edges(from, targets, n);
        if !before.edges.contains((from, targets[n - 1])) {
            assert forall|e: (usize, usize)| #[trigger]
                before.pending.contains(e) implies next.pending.contains(e) by {
                let k = choose|k: int| 0 <= k < before.pending.len() && before.pending[k] == e;
                assert(next.pending[k] == e);
            }
            assert(next.pending[before.pending.len() as int] == (from, targets[n - 1]));
        }
    }
}

proof fn lemma_leaving<T: Target>(state: RangeView, ssa: SsaView<T>, stale: Set<Place>, b: int)
    requires
        state.steady(ssa, stale),
        0 <= b < ssa.blocks.len(),
    ensures
        ({
            let next = state.leaving(b as usize, ssa.blocks[b]);
            &&& next.steady(ssa, stale.remove((b, -1int, 2int)))
            &&& next.reached == state.reached
        }),
{
    let next = state.leaving(b as usize, ssa.blocks[b]);
    let targets = state.live_targets(ssa.blocks[b]);
    let less = stale.remove((b, -1int, 2int));
    lemma_with_edges(state, b as usize, targets, targets.len());
    assert forall|v: SsaVarId| next.range(v) == state.range(v) by {}
    assert forall|c: int, j: int|
        0 <= c < ssa.blocks.len() && next.reached[c] && 0 <= j
            < ssa.blocks[c].instrs.len() implies #[trigger] next.op_ok(ssa, less, c, j) by {
        assert(state.op_ok(ssa, stale, c, j));
        lemma_evaluated(state, next, ssa.blocks[c].instrs[j]);
        if state.awaits(ssa.blocks[c].instrs[j].uses()) {
            lemma_awaits_more(state, next, ssa.blocks[c].instrs[j].uses());
        }
    }
    assert forall|c: int, q: int|
        0 <= c < ssa.blocks.len() && next.reached[c] && 0 <= q
            < ssa.blocks[c].phis.len() implies #[trigger] next.phi_ok(ssa, less, c, q) by {
        assert(state.phi_ok(ssa, stale, c, q));
        lemma_phi_range(state, next, ssa.blocks[c].phis[q], c as usize);
        if state.awaits(ssa.blocks[c].phis[q].values()) {
            lemma_awaits_more(state, next, ssa.blocks[c].phis[q].values());
        }
    }
    assert forall|c: int, q: int|
        0 <= c < ssa.blocks.len() && !next.reached[c] && 0 <= q
            < ssa.blocks[c].phis.len() implies #[trigger] next.phi_idle(ssa, c, q) by {
        assert(state.phi_idle(ssa, c, q));
    }
    assert forall|c: int, k: int|
        0 <= c < ssa.blocks.len() && next.reached[c] && 0 <= k < next.live_targets(
            ssa.blocks[c],
        ).len() implies #[trigger] next.exit_ok(ssa, less, c, k) by {
        lemma_live_targets(state, next, ssa.blocks[c]);
        assert(state.exit_ok(ssa, stale, c, k));
        if state.awaits(ssa.blocks[c].instrs.last().uses()) {
            lemma_awaits_more(state, next, ssa.blocks[c].instrs.last().uses());
        }
        if c == b {
            assert(state.edges.contains((b as usize, targets[k])) || next.pending.contains(
                (b as usize, targets[k]),
            ));
        }
    }
}

/// The phi nodes of block `to` that an edge from `from` concerns; with `all`, every other place in
/// the block too.
spec fn touched<T: Target>(ssa: SsaView<T>, from: usize, to: int, all: bool) -> Set<Place> {
    Set::new(
        |s: Place|
            s.0 == to && ((s.2 == 1 && 0 <= s.1 < ssa.blocks[to].phis.len()
                && ssa.blocks[to].phis[s.1].has_predecessor(from)) || (all && (s.2 == 0 || s.2
                == 2))),
    )
}

/// The state after the first pending edge is marked as taken.
spec fn marked(state: RangeView) -> RangeView {
    let (from, to) = state.pending[0];
    RangeView {
        edges: state.edges.push((from, to)),
        pending: state.pending.drop_first(),
        reached: if to < state.reached.len() {
            state.reached.update(to as int, true)
        } else {
            state.reached
        },
        ..state
    }
}

proof fn lemma_marked<T: Target>(state: RangeView, ssa: SsaView<T>)
    requires
        state.steady(ssa, Set::empty()),
        state.pending.len() > 0,
        ssa.blocks.len() <= usize::MAX,
    ensures
        ({
            let (from, to) = state.pending[0];
            marked(state).steady(
                ssa,
                if to < ssa.blocks.len() {
                    touched(ssa, from, to as int, !state.reached[to as int])
                } else {
                    Set::empty()
                },
            )
        }),
{
    let (from, to) = state.pending[0];
    let next = marked(state);
    let none = Set::<Place>::empty();
    let stale = if to < ssa.blocks.len() {
        touched(ssa, from, to as int, !state.reached[to as int])
    } else {
        none
    };
    assert forall|e: (usize, usize)|
        #![trigger state.edges.contains(e)]
        #![trigger next.edges.contains(e)]
        next.edges.contains(e) == (state.edges.contains(e) || e == (from, to)) by {
        if state.edges.contains(e) {
            let k = choose|k: int| 0 <= k < state.edges.len() && state.edges[k] == e;
            assert(next.edges[k] == e);
        }
        assert(next.edges[state.edges.len() as int] == (from, to));
    }
    assert forall|e: (usize, usize)| #[trigger]
        state.pending.contains(e) implies next.pending.contains(e) || e == (from, to) by {
        let k = choose|k: int| 0 <= k < state.pending.len() && state.pending[k] == e;
        if k > 0 {
            assert(next.pending[k - 1] == e);
        }
    }
    assert forall|v: SsaVarId| next.range(v) == state.range(v) by {}
    assert(next.edges_reach(ssa)) by {
        assert forall|e: int|
            0 <= e < next.edges.len() && (#[trigger] next.edges[e]).1
                < ssa.blocks.len() implies next.reached[next.edges[e].1 as int] by {
            if e < state.edges.len() {
                assert(state.edges[e] == next.edges[e]);
            }
        }
    }
    assert forall|c: int, j: int|
        0 <= c < ssa.blocks.len() && next.reached[c] && 0 <= j
            < ssa.blocks[c].instrs.len() implies #[trigger] next.op_ok(ssa, stale, c, j) by {
        if state.reached[c] {
            assert(state.op_ok(ssa, none, c, j));
            lemma_evaluated(state, next, ssa.blocks[c].instrs[j]);
            if state.awaits(ssa.blocks[c].instrs[j].uses()) {
                lemma_awaits_more(state, next, ssa.blocks[c].instrs[j].uses());
            }
        } else {
            assert(c == to);
        }
    }
    assert forall|c: int, q: int|
        0 <= c < ssa.blocks.len() && next.reached[c] && 0 <= q
            < ssa.blocks[c].phis.len() implies #[trigger] next.phi_ok(ssa, stale, c, q) by {
        let phi = ssa.blocks[c].phis[q];
        if c == to && phi.has_predecessor(from) {
            assert(stale.contains((c, q, 1int)));
        } else {
            assert forall|k: int| 0 <= k < phi.operands.len() implies state.range(
                (#[trigger] phi.operands[k]).value,
            ) == next.range(phi.operands[k].value) && state.edges.contains(
                (phi.operands[k].predecessor, c as usize),
            ) == next.edges.contains((phi.operands[k].predecessor, c as usize)) by {
                if c == to {
                    assert(phi.operands[k].predecessor != from);
                }
                assert((phi.operands[k].predecessor, c as usize) != (from, to));
            }
            lemma_phi_range(state, next, phi, c as usize);
            if state.reached[c] {
                assert(state.phi_ok(ssa, none, c, q));
                if state.awaits(phi.values()) {
                    lemma_awaits_more(state, next, phi.values());
                }
            } else {
                assert(state.phi_idle(ssa, c, q));
                assert forall|k: int|
                    0 <= k < phi.operands.len() implies !state.edges.contains(
                    ((#[trigger] phi.operands[k]).predecessor, c as usize),
                ) by {
                    if state.edges.contains((phi.operands[k].predecessor, c as usize)) {
                        let e = choose|e: int|
                            0 <= e < state.edges.len() && state.edges[e] == (
                                phi.operands[k].predecessor,
                                c as usize,
                            );
                        assert(state.edges[e].1 < ssa.blocks.len());
                    }
                }
            }
        }
    }
    assert forall|c: int, q: int|
        0 <= c < ssa.blocks.len() && !next.reached[c] && 0 <= q
            < ssa.blocks[c].phis.len() implies #[trigger] next.phi_idle(ssa, c, q) by {
        assert(state.phi_idle(ssa, c, q));
    }
    assert forall|c: int, k: int|
        0 <= c < ssa.blocks.len() && next.reached[c] && 0 <= k < next.live_targets(
            ssa.blocks[c],
        ).len() implies #[trigger] next.exit_ok(ssa, stale, c, k) by {
        if state.reached[c] {
            lemma_live_targets(state, next, ssa.blocks[c]);
            assert(state.exit_ok(ssa, none, c, k));
            if state.awaits(ssa.blocks[c].instrs.last().uses()) {
                lemma_awaits_more(state, next, ssa.blocks[c].instrs.last().uses());
            }
        } else {
            assert(c == to);
        }
    }
}

/// The state after the first pending edge is looked at.
spec fn followed<T: Target>(state: RangeView, ssa: SsaView<T>) -> RangeView {
    let (from, to) = state.pending[0];
    let rest = RangeView { pending: state.pending.drop_first(), ..state };
    if rest.edges.contains((from, to)) {
        rest
    } else {
        rest.taken(ssa, from, to)
    }
}

proof fn lemma_followed<T: Target>(state: RangeView, ssa: SsaView<T>)
    requires
        state.steady(ssa, Set::empty()),
        state.pending.len() > 0,
        assigned_once(ssa),
        ssa.blocks.len() <= usize::MAX,
    ensures
        followed(state, ssa).steady(ssa, Set::empty()),
{
    let (from, to) = state.pending[0];
    let none = Set::<Place>::empty();
    let rest = RangeView { pending: state.pending.drop_first(), ..state };
    if rest.edges.contains((from, to)) {
        assert forall|v: SsaVarId| rest.range(v) == state.range(v) by {}
        assert forall|c: int, j: int|
            0 <= c < ssa.blocks.len() && rest.reached[c] && 0 <= j
                < ssa.blocks[c].instrs.len() implies #[trigger] rest.op_ok(ssa, none, c, j) by {
            assert(state.op_ok(ssa, none, c, j));
            lemma_evaluated(state, rest, ssa.blocks[c].instrs[j]);
            if state.awaits(ssa.blocks[c].instrs[j].uses()) {
                lemma_awaits_more(state, rest, ssa.blocks[c].instrs[j].uses());
            }
        }
        assert forall|c: int, q: int|
            0 <= c < ssa.blocks.len() && rest.reached[c] && 0 <= q
                < ssa.blocks[c].phis.len() implies #[trigger] rest.phi_ok(ssa, none, c, q) by {
            assert(state.phi_ok(ssa, none, c, q));
            lemma_phi_range(state, rest, ssa.blocks[c].phis[q], c as usize);
            if state.awaits(ssa.blocks[c].phis[q].values()) {
                lemma_awaits_more(state, rest, ssa.blocks[c].phis[q].values());
            }
        }
        assert forall|c: int, q: int|
            0 <= c < ssa.blocks.len() && !rest.reached[c] && 0 <= q
                < ssa.blocks[c].phis.len() implies #[trigger] rest.phi_idle(ssa, c, q) by {
            assert(state.phi_idle(ssa, c, q));
        }
        assert forall|c: int, k: int|
            0 <= c < ssa.blocks.len() && rest.reached[c] && 0 <= k < rest.live_targets(
                ssa.blocks[c],
            ).len() implies #[trigger] rest.exit_ok(ssa, none, c, k) by {
            lemma_live_targets(state, rest, ssa.blocks[c]);
            assert(state.exit_ok(ssa, none, c, k));
            if state.awaits(ssa.blocks[c].instrs.last().uses()) {
                lemma_awaits_more(state, rest, ssa.blocks[c].instrs.last().uses());
            }
            let e = (c as usize, state.live_targets(ssa.blocks[c])[k]);
            if state.pending.contains(e) {
                let m = choose|m: int| 0 <= m < state.pending.len() && state.pending[m] == e;
                if m > 0 {
                    assert(rest.pending[m - 1] == e);
                }
            }
        }
    } else {
        lemma_marked(state, ssa);
        let first = marked(state);
        if to < ssa.blocks.len() {
            let b = to as int;
            let block = ssa.blocks[b];
            let fresh = !state.reached[b];
            let stale = touched(ssa, from, b, fresh);
            if fresh {
                let n = block.instrs.len();
                lemma_after_instrs(first, ssa, stale, b, n);
                let second = first.after_ops(block.instrs, n);
                let stale = but_instrs(stale, b, n);
                lemma_after_all_phis(second, ssa, stale, from, b, block.phis.len());
                let third = second.after_phis(block.phis, from, to, block.phis.len());
                let stale = but_phis(stale, block.phis, from, b, block.phis.len());
                lemma_leaving(third, ssa, stale, b);
                let last = third.leaving(to, block);
                lemma_fewer(last, ssa, stale.remove((b, -1int, 2int)));
                assert(last == followed(state, ssa));
            } else {
                lemma_after_all_phis(first, ssa, stale, from, b, block.phis.len());
                let last = first.after_phis(block.phis, from, to, block.phis.len());
                assert(first.reached =~= state.reached);
                assert(but_phis(stale, block.phis, from, b, block.phis.len()) =~= none);
                assert(last == followed(state, ssa));
            }
        } else {
            assert(first == followed(state, ssa));
        }
    }
}

/// Places that do not exist need not be looked at.
proof fn lemma_fewer<T: Target>(state: RangeView, ssa: SsaView<T>, stale: Set<Place>)
    requires
        state.steady(ssa, stale),
        forall|s: Place| #[trigger]
            stale.contains(s) ==> s.2 == 2 && s.1 != -1 || s.2 == 0 && !(0 <= s.1
                < ssa.blocks[s.0].instrs.len()),
    ensures
        state.steady(ssa, Set::empty()),
{
    let none = Set::<Place>::empty();
    assert forall|c: int, j: int|
        0 <= c < ssa.blocks.len() && state.reached[c] && 0 <= j
            < ssa.blocks[c].instrs.len() implies #[trigger] state.op_ok(ssa, none, c, j) by {
        assert(state.op_ok(ssa, stale, c, j));
    }
    assert forall|c: int, q: int|
        0 <= c < ssa.blocks.len() && state.reached[c] && 0 <= q
            < ssa.blocks[c].phis.len() implies #[trigger] state.phi_ok(ssa, none, c, q) by {
        assert(state.phi_ok(ssa, stale, c, q));
    }
    assert forall|c: int, k: int|
        0 <= c < ssa.blocks.len() && state.reached[c] && 0 <= k < state.live_targets(
            ssa.blocks[c],
        ).len() implies #[trigger] state.exit_ok(ssa, none, c, k) by {
        assert(state.exit_ok(ssa, stale, c, k));
    }
}

proof fn lemma_drained<T: Target>(state: RangeView, ssa: SsaView<T>)
    requires
        state.steady(ssa, Set::empty()),
        assigned_once(ssa),
        ssa.blocks.len() <= usize::MAX,
    ensures
        state.drained(ssa).steady(ssa, Set::empty()),
        state.drained(ssa).pending.len() == 0,
    decreases ranges::not_reached(state.reached, state.reached.len()), state.pending.len(),
{
    if state.pending.len() > 0 {
        let (from, to) = state.pending[0];
        let rest = RangeView { pending: state.pending.drop_first(), ..state };
        rest.lemma_taken(ssa, from, to);
        lemma_followed(state, ssa);
        lemma_drained(followed(state, ssa), ssa);
    }
}

/// The places that a recorded use stands for: its reader and, where that ends the block, the exits.
spec fn at_site<T: Target>(ssa: SsaView<T>, site: UseSite, s: Place) -> bool {
    &&& s.0 == site.block
    &&& if site.is_phi_operand {
        s.1 == site.instruction && s.2 == 1
    } else {
        (s.1 == site.instruction && s.2 == 0) || (s.1 == -1 && s.2 == 2 && site.block
            < ssa.blocks.len() && site.instruction == ssa.blocks[site.block as int].instrs.len() - 1)
    }
}

/// The places in `stale` but for those of a recorded use.
spec fn but_site<T: Target>(ssa: SsaView<T>, stale: Set<Place>, site: UseSite) -> Set<Place> {
    Set::new(|s: Place| stale.contains(s) && !at_site(ssa, site, s))
}

/// Places may count as stale, and those that do not exist need not.
proof fn lemma_stale<T: Target>(
    state: RangeView,
    ssa: SsaView<T>,
    stale: Set<Place>,
    other: Set<Place>,
)
    requires
        state.steady(ssa, stale),
        forall|s: Place| #[trigger]
            stale.contains(s) ==> other.contains(s) || !(0 <= s.0 < ssa.blocks.len())
                || !state.reached[s.0] || (s.2 == 0 && !(0 <= s.1
                < ssa.blocks[s.0].instrs.len())) || (s.2 == 1 && !(0 <= s.1
                < ssa.blocks[s.0].phis.len())) || (s.2 == 2 && (s.1 != -1 || state.live_targets(
                ssa.blocks[s.0],
            ).len() == 0)),
    ensures
        state.steady(ssa, other),
{
    assert forall|c: int, j: int|
        0 <= c < ssa.blocks.len() && state.reached[c] && 0 <= j
            < ssa.blocks[c].instrs.len() implies #[trigger] state.op_ok(ssa, other, c, j) by {
        assert(state.op_ok(ssa, stale, c, j));
    }
    assert forall|c: int, q: int|
        0 <= c < ssa.blocks.len() && state.reached[c] && 0 <= q
            < ssa.blocks[c].phis.len() implies #[trigger] state.phi_ok(ssa, other, c, q) by {
        assert(state.phi_ok(ssa, stale, c, q));
    }
    assert forall|c: int, k: int|
        0 <= c < ssa.blocks.len() && state.reached[c] && 0 <= k < state.live_targets(
            ssa.blocks[c],
        ).len() implies #[trigger] state.exit_ok(ssa, other, c, k) by {
        assert(state.exit_ok(ssa, stale, c, k));
    }
}

proof fn lemma_at_use<T: Target>(
    state: RangeView,
    ssa: SsaView<T>,
    stale: Set<Place>,
    site: UseSite,
)
    requires
        state.steady(ssa, stale),
        assigned_once(ssa),
    ensures
        state.at_use(ssa, site).steady(ssa, but_site(ssa, stale, site)),
{
    let other = but_site(ssa, stale, site);
    let next = state.at_use(ssa, site);
    if site.block >= ssa.blocks.len() || !state.reached[site.block as int] {
        lemma_stale(state, ssa, stale, other);
    } else {
        let b = site.block as int;
        let i = site.instruction as int;
        let block = ssa.blocks[b];
        if site.is_phi_operand {
            if i < block.phis.len() {
                lemma_after_phi(state, ssa, stale, b, i);
                lemma_stale(next, ssa, stale.remove((b, i, 1int)), other);
            } else {
                lemma_stale(state, ssa, stale, other);
            }
        } else if i < block.instrs.len() {
            let op = block.instrs[i];
            lemma_after_op(state, ssa, stale, b, i);
            let evaluated = after_op(state, op);
            let less = stale.remove((b, i, 0int));
            if op.ends_block() {
                lemma_leaving(evaluated, ssa, less, b);
                lemma_stale(next, ssa, less.remove((b, -1int, 2int)), other);
            } else {
                if i == block.instrs.len() - 1 {
                    assert(block.terminator() is None);
                    assert(next.live_targets(block).len() == 0);
                }
                lemma_stale(next, ssa, less, other);
            }
        } else {
            lemma_stale(state, ssa, stale, other);
        }
    }
}

/// The places in `stale` but for those of the first `n` of the recorded uses.
spec fn but_sites<T: Target>(
    ssa: SsaView<T>,
    stale: Set<Place>,
    uses: Seq<UseSite>,
    n: nat,
) -> Set<Place> {
    Set::new(
        |s: Place|
            stale.contains(s) && !exists|k: int| 0 <= k < n && at_site(ssa, #[trigger] uses[k], s),
    )
}

proof fn lemma_at_uses<T: Target>(
    state: RangeView,
    ssa: SsaView<T>,
    stale: Set<Place>,
    uses: Seq<UseSite>,
    n: nat,
)
    requires
        state.steady(ssa, stale),
        assigned_once(ssa),
        n <= uses.len(),
    ensures
        state.at_uses(ssa, uses, n).steady(ssa, but_sites(ssa, stale, uses, n)),
    decreases n,
{
    if n == 0 {
        assert(but_sites(ssa, stale, uses, 0) =~= stale);
    } else {
        let m = (n - 1) as nat;
        lemma_at_uses(state, ssa, stale, uses, m);
        let before = but_sites(ssa, stale, uses, m);
        lemma_at_use(state.at_uses(ssa, uses, m), ssa, before, uses[n - 1]);
        assert(but_site(ssa, before, uses[n - 1]) =~= but_sites(ssa, stale, uses, n)) by {
            assert forall|s: Place|
                but_site(ssa, before, uses[n - 1]).contains(s) <==> but_sites(
                    ssa,
                    stale,
                    uses,
                    n,
                ).contains(s) by {
                if exists|k: int| 0 <= k < n && at_site(ssa, #[trigger] uses[k], s) {
                    let k = choose|k: int| 0 <= k < n && at_site(ssa, #[trigger] uses[k], s);
                    if k < m {
                        assert(at_site(ssa, uses[k], s));
                    }
                }
                if exists|k: int| 0 <= k < m && at_site(ssa, #[trigger] uses[k], s) {
                    let k = choose|k: int| 0 <= k < m && at_site(ssa, #[trigger] uses[k], s);
                    assert(0 <= k < n && at_site(ssa, uses[k], s));
                }
            }
        }
    }
}

proof fn lemma_read_sites(reads: Seq<SsaVarId>, v: SsaVarId, site: UseSite, n: nat)
    requires
        n <= reads.len(),
    ensures
        reads.take(n as int).contains(v) ==> function::read_sites(reads, v, site, n).contains(
            site,
        ),
    decreases n,
{
    if n > 0 {
        lemma_read_sites(reads, v, site, (n - 1) as nat);
        let before = function::read_sites(reads, v, site, (n - 1) as nat);
        let all = function::read_sites(reads, v, site, n);
        if reads[n - 1] == v {
            assert(all[before.len() as int] == site);
        } else if reads.take(n as int).contains(v) {
            let k = choose|k: int| 0 <= k < n && reads.take(n as int)[k] == v;
            assert(reads.take(n - 1)[k] == v);
        }
    }
}

proof fn lemma_phi_site(phis: Seq<PhiView>, b: usize, v: SsaVarId, n: nat, p: int)
    requires
        0 <= p < n <= phis.len(),
        phis[p].values().contains(v),
    ensures
        function::phi_sites(phis, b, v, n).contains(
            UseSite { block: b, instruction: p as usize, is_phi_operand: true },
        ),
    decreases n,
{
    let site = UseSite { block: b, instruction: p as usize, is_phi_operand: true };
    let m = (n - 1) as nat;
    let before = function::phi_sites(phis, b, v, m);
    let all = function::phi_sites(phis, b, v, n);
    if p < m {
        lemma_phi_site(phis, b, v, m, p);
        let k = choose|k: int| 0 <= k < before.len() && before[k] == site;
        assert(all[k] == site);
    } else {
        let reads = phis[p].values();
        lemma_read_sites(reads, v, site, reads.len());
        assert(reads.take(reads.len() as int) =~= reads);
        let own = function::read_sites(reads, v, site, reads.len());
        let k = choose|k: int| 0 <= k < own.len() && own[k] == site;
        assert(all[before.len() + k] == site);
    }
}

proof fn lemma_instr_site<T: Target>(instrs: Seq<OpView<T>>, b: usize, v: SsaVarId, n: nat, i: int)
    requires
        0 <= i < n <= instrs.len(),
        instrs[i].uses().contains(v),
    ensures
        function::instr_sites(instrs, b, v, n).contains(
            UseSite { block: b, instruction: i as usize, is_phi_operand: false },
        ),
    decreases n,
{
    let site = UseSite { block: b, instruction: i as usize, is_phi_operand: false };
    let m = (n - 1) as nat;
    let before = function::instr_sites(instrs, b, v, m);
    let all = function::instr_sites(instrs, b, v, n);
    if i < m {
        lemma_instr_site(instrs, b, v, m, i);
        let k = choose|k: int| 0 <= k < before.len() && before[k] == site;
        assert(all[k] == site);
    } else {
        let reads = instrs[i].uses();
        lemma_read_sites(reads, v, site, reads.len());
        assert(reads.take(reads.len() as int) =~= reads);
        let own = function::read_sites(reads, v, site, reads.len());
        let k = choose|k: int| 0 <= k < own.len() && own[k] == site;
        assert(all[before.len() + k] == site);
    }
}

proof fn lemma_block_site<T: Target>(
    blocks: Seq<BlockView<T>>,
    v: SsaVarId,
    n: nat,
    b: int,
    site: UseSite,
)
    requires
        0 <= b < n <= blocks.len(),
        function::phi_sites(blocks[b].phis, b as usize, v, blocks[b].phis.len()).contains(site)
            || function::instr_sites(
            blocks[b].instrs,
            b as usize,
            v,
            blocks[b].instrs.len(),
        ).contains(site),
    ensures
        function::block_sites(blocks, v, n).contains(site),
    decreases n,
{
    let m = (n - 1) as nat;
    let before = function::block_sites(blocks, v, m);
    let all = function::block_sites(blocks, v, n);
    let phis = function::phi_sites(blocks[m as int].phis, m as usize, v, blocks[m as int].phis.len());
    let instrs = function::instr_sites(
        blocks[m as int].instrs,
        m as usize,
        v,
        blocks[m as int].instrs.len(),
    );
    if b < m {
        lemma_block_site(blocks, v, m, b, site);
        let k = choose|k: int| 0 <= k < before.len() && before[k] == site;
        assert(all[k] == site);
    } else if phis.contains(site) {
        let k = choose|k: int| 0 <= k < phis.len() && phis[k] == site;
        assert(all[before.len() + k] == site);
    } else {
        let k = choose|k: int| 0 <= k < instrs.len() && instrs[k] == site;
        assert(all[before.len() + phis.len() + k] == site);
    }
}

/// The place reads `v`.
spec fn reads_at<T: Target>(ssa: SsaView<T>, v: SsaVarId, s: Place) -> bool {
    &&& 0 <= s.0 < ssa.blocks.len()
    &&& {
        let block = ssa.blocks[s.0];
        ||| s.2 == 0 && 0 <= s.1 < block.instrs.len() && block.instrs[s.1].uses().contains(v)
        ||| s.2 == 1 && 0 <= s.1 < block.phis.len() && block.phis[s.1].values().contains(v)
        ||| s.2 == 2 && s.1 == -1 && block.instrs.len() > 0 && block.instrs.last().uses().contains(
            v,
        )
    }
}

/// The lists of a function are no longer than its machine can count.
spec fn is_countable<T: Target>(ssa: SsaView<T>) -> bool {
    &&& ssa.blocks.len() <= usize::MAX
    &&& forall|b: int|
        0 <= b < ssa.blocks.len() ==> (#[trigger] ssa.blocks[b]).instrs.len() <= usize::MAX
            && ssa.blocks[b].phis.len() <= usize::MAX
}

proof fn lemma_awaits_rest(state: RangeView, rest: RangeView, vars: Seq<SsaVarId>)
    requires
        state.changed.len() > 0,
        rest.changed == state.changed.drop_first(),
        state.awaits(vars),
        !vars.contains(state.changed[0]),
    ensures
        rest.awaits(vars),
{
    let k = choose|k: int| 0 <= k < vars.len() && state.changed.contains(#[trigger] vars[k]);
    let m = choose|m: int| 0 <= m < state.changed.len() && state.changed[m] == vars[k];
    assert(vars.contains(vars[k]));
    assert(rest.changed[m - 1] == vars[k]);
    assert(rest.changed.contains(vars[k]));
}

proof fn lemma_popped<T: Target>(state: RangeView, ssa: SsaView<T>)
    requires
        state.steady(ssa, Set::empty()),
        state.changed.len() > 0,
    ensures
        (RangeView { changed: state.changed.drop_first(), ..state }).steady(
            ssa,
            Set::new(|s: Place| reads_at(ssa, state.changed[0], s)),
        ),
{
    let v = state.changed[0];
    let rest = RangeView { changed: state.changed.drop_first(), ..state };
    let none = Set::<Place>::empty();
    let stale = Set::new(|s: Place| reads_at(ssa, v, s));
    assert forall|w: SsaVarId| rest.range(w) == state.range(w) by {}
    assert forall|c: int, j: int|
        0 <= c < ssa.blocks.len() && rest.reached[c] && 0 <= j
            < ssa.blocks[c].instrs.len() implies #[trigger] rest.op_ok(ssa, stale, c, j) by {
        let uses = ssa.blocks[c].instrs[j].uses();
        assert(state.op_ok(ssa, none, c, j));
        lemma_evaluated(state, rest, ssa.blocks[c].instrs[j]);
        if uses.contains(v) {
            assert(reads_at(ssa, v, (c, j, 0int)));
            assert(stale.contains((c, j, 0int)));
        } else if state.awaits(uses) {
            lemma_awaits_rest(state, rest, uses);
        }
    }
    assert forall|c: int, q: int|
        0 <= c < ssa.blocks.len() && rest.reached[c] && 0 <= q
            < ssa.blocks[c].phis.len() implies #[trigger] rest.phi_ok(ssa, stale, c, q) by {
        let values = ssa.blocks[c].phis[q].values();
        assert(state.phi_ok(ssa, none, c, q));
        lemma_phi_range(state, rest, ssa.blocks[c].phis[q], c as usize);
        if values.contains(v) {
            assert(reads_at(ssa, v, (c, q, 1int)));
            assert(stale.contains((c, q, 1int)));
        } else if state.awaits(values) {
            lemma_awaits_rest(state, rest, values);
        }
    }
    assert forall|c: int, q: int|
        0 <= c < ssa.blocks.len() && !rest.reached[c] && 0 <= q
            < ssa.blocks[c].phis.len() implies #[trigger] rest.phi_idle(ssa, c, q) by {
        assert(state.phi_idle(ssa, c, q));
    }
    assert forall|c: int, k: int|
        0 <= c < ssa.blocks.len() && rest.reached[c] && 0 <= k < rest.live_targets(
            ssa.blocks[c],
        ).len() implies #[trigger] rest.exit_ok(ssa, stale, c, k) by {
        let uses = ssa.blocks[c].instrs.last().uses();
        lemma_live_targets(state, rest, ssa.blocks[c]);
        assert(state.exit_ok(ssa, none, c, k));
        assert(ssa.blocks[c].instrs.len() > 0);
        if uses.contains(v) {
            assert(reads_at(ssa, v, (c, -1int, 2int)));
            assert(stale.contains((c, -1int, 2int)));
        } else if state.awaits(uses) {
            lemma_awaits_rest(state, rest, uses);
        }
    }
}

/// The state after the uses of the first changed variable are looked at.
spec fn relooked<T: Target>(state: RangeView, ssa: SsaView<T>) -> RangeView {
    let v = state.changed[0];
    let rest = RangeView { changed: state.changed.drop_first(), ..state };
    if v.0 < ssa.vars.len() {
        let uses = ssa.vars[v.0 as int].uses;
        rest.at_uses(ssa, uses, uses.len())
    } else {
        rest
    }
}

proof fn lemma_relooked<T: Target>(state: RangeView, ssa: SsaView<T>)
    requires
        state.steady(ssa, Set::empty()),
        state.changed.len() > 0,
        ssa.well_formed(),
        ssa.with_uses() == ssa,
        is_countable(ssa),
        assigned_once(ssa),
    ensures
        relooked(state, ssa).steady(ssa, Set::empty()),
{
    let v = state.changed[0];
    let rest = RangeView { changed: state.changed.drop_first(), ..state };
    let stale = Set::new(|s: Place| reads_at(ssa, v, s));
    let none = Set::<Place>::empty();
    lemma_popped(state, ssa);
    if v.0 < ssa.vars.len() {
        let uses = ssa.vars[v.0 as int].uses;
        assert(ssa.with_uses().vars[v.0 as int].uses == function::block_sites(
            ssa.blocks,
            SsaVarId((v.0 as int) as usize),
            ssa.blocks.len(),
        ));
        assert(SsaVarId((v.0 as int) as usize) == v);
        lemma_at_uses(rest, ssa, stale, uses, uses.len());
        let left = but_sites(ssa, stale, uses, uses.len());
        assert forall|s: Place| #[trigger] left.contains(s) implies false by {
            assert(reads_at(ssa, v, s));
            let block = ssa.blocks[s.0];
            let i: int = if s.2 == 2 {
                block.instrs.len() - 1
            } else {
                s.1
            };
            let site = UseSite {
                block: s.0 as usize,
                instruction: i as usize,
                is_phi_operand: s.2 == 1,
            };
            if s.2 == 1 {
                lemma_phi_site(block.phis, s.0 as usize, v, block.phis.len(), i);
            } else {
                lemma_instr_site(block.instrs, s.0 as usize, v, block.instrs.len(), i);
            }
            lemma_block_site(ssa.blocks, v, ssa.blocks.len(), s.0, site);
            let k = choose|k: int| 0 <= k < uses.len() && uses[k] == site;
            assert(at_site(ssa, uses[k], s));
        }
        assert(left =~= none);
    } else {
        assert forall|s: Place| #[trigger] stale.contains(s) implies false by {
            assert(reads_at(ssa, v, s));
            assert(ssa.block_in_range(s.0));
            let block = ssa.blocks[s.0];
            if s.2 == 1 {
                let phi = block.phis[s.1];
                assert(ssa.phi_in_range(phi));
                let k = choose|k: int| 0 <= k < phi.values().len() && phi.values()[k] == v;
                assert(phi.operands[k].value == v);
            } else {
                let i: int = if s.2 == 2 {
                    block.instrs.len() - 1
                } else {
                    s.1
                };
                let op = block.instrs[i];
                assert(ssa.op_in_range(op));
                let k = choose|k: int| 0 <= k < op.uses().len() && op.uses()[k] == v;
                assert(op.uses()[k].0 < ssa.vars.len());
            }
        }
        assert(stale =~= none);
    }
}

proof fn lemma_propagated<T: Target>(state: RangeView, ssa: SsaView<T>, rounds: nat)
    requires
        state.steady(ssa, Set::empty()),
        ssa.well_formed(),
        ssa.with_uses() == ssa,
        is_countable(ssa),
        assigned_once(ssa),
    ensures
        state.propagated(ssa, rounds).steady(ssa, Set::empty()),
    decreases rounds,
{
    if rounds > 0 {
        let drained = state.drained(ssa);
        lemma_drained(state, ssa);
        if drained.changed.len() > 0 {
            lemma_relooked(drained, ssa);
            lemma_propagated(relooked(drained, ssa), ssa, (rounds - 1) as nat);
        }
    }
}

proof fn lemma_initial<T: Target>(ssa: SsaView<T>)
    requires
        assigned_once(ssa),
        is_countable(ssa),
    ensures
        RangeView::initial(ssa).steady(ssa, Set::empty()),
{
    let none = Set::<Place>::empty();
    if ssa.blocks.len() > 0 {
        let entry = ssa.blocks[0];
        let first = RangeView {
            ranges: Map::new(|v: usize| v < ssa.vars.len(), |v: usize| ValueRange::Top),
            edges: Seq::empty(),
            reached: Seq::new(ssa.blocks.len(), |b: int| b == 0),
            changed: Seq::empty(),
            pending: entry.successors().map_values(|to: usize| (0usize, to)),
        };
        let stale = Set::new(|s: Place| s.0 == 0 && s.2 == 0);
        assert forall|v: SsaVarId| #[trigger] first.range(v) == ValueRange::Top by {}
        assert(first.steady(ssa, stale)) by {
            assert forall|b: int, i: int|
                0 <= b < ssa.blocks.len() && first.reached[b] && 0 <= i
                    < ssa.blocks[b].instrs.len() implies #[trigger] first.op_ok(
                ssa,
                stale,
                b,
                i,
            ) by {
                assert(stale.contains((b, i, 0int)));
            }
            assert forall|b: int, k: int|
                0 <= b < ssa.blocks.len() && first.reached[b] && 0 <= k < first.live_targets(
                    ssa.blocks[b],
                ).len() implies #[trigger] first.exit_ok(ssa, stale, b, k) by {
                let to = first.live_targets(entry)[k];
                let targets = entry.successors();
                assert(targets.contains(to)) by {
                    match entry.terminator() {
                        Some(Op::Branch { .. }) => {
                            assert(targets[k] == to);
                        },
                        _ => {
                            assert(targets[k] == to);
                        },
                    }
                }
                let j = choose|j: int| 0 <= j < targets.len() && targets[j] == to;
                assert(first.pending[j] == (0usize, to));
                assert(first.pending.contains((0usize, to)));
            }
        }
        let n = entry.instrs.len();
        lemma_after_instrs(first, ssa, stale, 0, n);
        let last = first.after_ops(entry.instrs, n);
        lemma_stale(last, ssa, but_instrs(stale, 0, n), none);
        assert(last == RangeView::initial(ssa));
    }
}

/// Propagation that ends with nothing left to look at has settled, in a well-formed function whose
/// uses are recorded.
pub proof fn finished_propagation_is_closed<T: Target>(ssa: SsaView<T>, rounds: nat)
    requires
        ssa.well_formed(),
        ssa.with_uses() == ssa,
        ssa.blocks.len() <= usize::MAX,
        forall|b: int|
            0 <= b < ssa.blocks.len() ==> (#[trigger] ssa.blocks[b]).instrs.len() <= usize::MAX
                && ssa.blocks[b].phis.len() <= usize::MAX,
        RangeView::initial(ssa).propagated(ssa, rounds).changed.len() == 0,
        RangeView::initial(ssa).propagated(ssa, rounds).pending.len() == 0,
    ensures
        RangeView::initial(ssa).propagated(ssa, rounds).is_closed(ssa),
{
    let end = RangeView::initial(ssa).propagated(ssa, rounds);
    let none = Set::<Place>::empty();
    assignments::assigned_once_where_well_formed(ssa);
    lemma_initial(ssa);
    lemma_propagated(RangeView::initial(ssa), ssa, rounds);
    assert forall|b: int, i: int|
        0 <= b < ssa.blocks.len() && end.reached[b] && 0 <= i
            < ssa.blocks[b].instrs.len() implies #[trigger] end.op_settled(ssa, b, i) by {
        assert(end.op_ok(ssa, none, b, i));
    }
    assert forall|b: int, p: int|
        0 <= b < ssa.blocks.len() && end.reached[b] && 0 <= p
            < ssa.blocks[b].phis.len() implies #[trigger] end.phi_settled(ssa, b, p) by {
        assert(end.phi_ok(ssa, none, b, p));
    }
    assert forall|b: int, k: int|
        0 <= b < ssa.blocks.len() && end.reached[b] && 0 <= k < end.live_targets(
            ssa.blocks[b],
        ).len() implies #[trigger] end.exit_settled(ssa, b, k) by {
        assert(end.exit_ok(ssa, none, b, k));
    }
}

} // verus!
