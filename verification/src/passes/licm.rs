//! Loop invariant code motion: what a loop computes the same way each time is computed before it.
use crate::analysis::cfg::holds;
use crate::analysis::closure;
use crate::analysis::loops;
use crate::analysis::loops::{analyze_loops, copy_marks, LoopInfo, LoopView};
use crate::events::{EventKind, EventLog, EventView};
use crate::ir::block::{BlockView, SsaBlock, SsaInstruction};
use crate::ir::function::{SsaFunction, SsaView};
use crate::ir::ops::{Op, OpView, SsaOp};
use crate::ir::phi::PhiNode;
use crate::ir::variable::{SsaVarId, UseSite};
use crate::passes::deadcode;
use crate::passes::outcome::Outcome;
use crate::seqs;
use crate::target::Target;
use crate::text;
use vstd::prelude::*;
use vstd::string::StringExecFns;

verus! {

/// How many of the first `n` are marked.
pub open spec fn marked(marks: Seq<bool>, n: nat) -> nat
    decreases n,
{
    if n == 0 {
        0
    } else {
        marked(marks, (n - 1) as nat) + (if marks[n - 1] {
            1nat
        } else {
            0nat
        })
    }
}

/// Fewer marks are fewer in number.
pub proof fn lemma_fewer_marked(a: Seq<bool>, b: Seq<bool>, n: nat)
    requires
        a.len() == b.len(),
        n <= a.len(),
        forall|k: int| 0 <= k < n ==> (#[trigger] b[k] ==> a[k]),
    ensures
        marked(b, n) <= marked(a, n),
        (exists|k: int| 0 <= k < n && #[trigger] a[k] != b[k]) ==> marked(b, n) < marked(a, n),
    decreases n,
{
    if n > 0 {
        lemma_fewer_marked(a, b, (n - 1) as nat);
        assert(b[n - 1] ==> a[n - 1]);
    }
}

/// More marks leave fewer unmarked.
pub proof fn lemma_more_marked(a: Seq<bool>, b: Seq<bool>, n: nat)
    requires
        a.len() == b.len(),
        n <= a.len(),
        forall|k: int| 0 <= k < n ==> (#[trigger] a[k] ==> b[k]),
    ensures
        closure::unmarked(b, n) <= closure::unmarked(a, n),
        (exists|k: int| 0 <= k < n && #[trigger] a[k] != b[k]) ==> closure::unmarked(b, n)
            < closure::unmarked(a, n),
    decreases n,
{
    if n > 0 {
        lemma_more_marked(a, b, (n - 1) as nat);
        assert(a[n - 1] ==> b[n - 1]);
    }
}

/// All reads are of what is on the first list, or on neither of the other two.
pub open spec fn reads_ready(
    reads: Seq<SsaVarId>,
    good: Seq<usize>,
    bad: Seq<usize>,
    worse: Seq<usize>,
) -> bool {
    forall|k: int|
        0 <= k < reads.len() ==> good.contains((#[trigger] reads[k]).0) || (!bad.contains(
            reads[k].0,
        ) && !worse.contains(reads[k].0))
}

/// None of the variables is on the list.
pub open spec fn none_on(vars: Seq<SsaVarId>, list: Seq<usize>) -> bool {
    forall|k: int| 0 <= k < vars.len() ==> !list.contains((#[trigger] vars[k]).0)
}

/// The last of the first `n` operations that defines `v`.
pub open spec fn producer<T: Target>(ops: Seq<OpView<T>>, v: SsaVarId, n: nat) -> Option<int>
    decreases n,
{
    if n == 0 {
        None
    } else if ops[n - 1].defs().contains(v) {
        Some(n - 1)
    } else {
        producer(ops, v, (n - 1) as nat)
    }
}

/// What operation `i` reads is placed, as far as one of the operations defines it.
pub open spec fn is_ready<T: Target>(ops: Seq<OpView<T>>, placed: Seq<bool>, i: int) -> bool {
    !placed[i] && forall|k: int|
        0 <= k < ops[i].uses().len() ==> {
            match producer(ops, #[trigger] ops[i].uses()[k], ops.len()) {
                Some(j) => j == i || placed[j],
                None => true,
            }
        }
}

/// The first of the first `n` operations that is ready.
pub open spec fn first_ready<T: Target>(ops: Seq<OpView<T>>, placed: Seq<bool>, n: nat) -> Option<
    int,
>
    decreases n,
{
    if n == 0 {
        None
    } else {
        match first_ready(ops, placed, (n - 1) as nat) {
            Some(i) => Some(i),
            None => if is_ready(ops, placed, n - 1) {
                Some(n - 1)
            } else {
                None
            },
        }
    }
}

/// What is found to be ready is one of the operations and is ready.
pub proof fn lemma_first_ready<T: Target>(ops: Seq<OpView<T>>, placed: Seq<bool>, n: nat)
    ensures
        first_ready(ops, placed, n) matches Some(i) ==> 0 <= i < n && is_ready(ops, placed, i),
        first_ready(ops, placed, n) is None ==> forall|i: int|
            0 <= i < n ==> !#[trigger] is_ready(ops, placed, i),
    decreases n,
{
    if n > 0 {
        lemma_first_ready(ops, placed, (n - 1) as nat);
    }
}

/// The first `n` that are not placed, in order.
pub open spec fn not_placed(placed: Seq<bool>, n: nat) -> Seq<int>
    decreases n,
{
    if n == 0 {
        Seq::empty()
    } else {
        let before = not_placed(placed, (n - 1) as nat);
        if placed[n - 1] {
            before
        } else {
            before.push(n - 1)
        }
    }
}

/// The order of the operations that are not placed: one after what it reads, the first such one
/// first; those that read each other in a circle come last.
pub open spec fn hoist_order<T: Target>(ops: Seq<OpView<T>>, placed: Seq<bool>) -> Seq<int>
    decreases closure::unmarked(placed, placed.len()),
{
    proof {
        lemma_first_ready(ops, placed, ops.len());
        if let Some(i) = first_ready(ops, placed, ops.len()) {
            if 0 <= i < placed.len() {
                closure::lemma_unmarked(placed, i, placed.len());
            }
        }
    }
    match first_ready(ops, placed, ops.len()) {
        Some(i) => if i < placed.len() {
            seq![i] + hoist_order(ops, placed.update(i, true))
        } else {
            Seq::empty()
        },
        None => not_placed(placed, placed.len()),
    }
}

/// Nothing is placed.
pub open spec fn none_placed(n: nat) -> Seq<bool> {
    Seq::new(n, |i: int| false)
}

/// The operations can be ordered without a circle.
pub open spec fn no_circle<T: Target>(ops: Seq<OpView<T>>, placed: Seq<bool>) -> bool
    decreases closure::unmarked(placed, placed.len()),
{
    proof {
        lemma_first_ready(ops, placed, ops.len());
        if let Some(i) = first_ready(ops, placed, ops.len()) {
            if 0 <= i < placed.len() {
                closure::lemma_unmarked(placed, i, placed.len());
            }
        }
    }
    match first_ready(ops, placed, ops.len()) {
        Some(i) => i < placed.len() && no_circle(ops, placed.update(i, true)),
        None => forall|k: int| 0 <= k < placed.len() ==> #[trigger] placed[k],
    }
}

/// Every operation comes after what it reads: when it is placed, what defines its reads is placed
/// already or comes before it.
pub proof fn producers_come_first<T: Target>(
    ops: Seq<OpView<T>>,
    placed: Seq<bool>,
    p: int,
    k: int,
)
    requires
        placed.len() == ops.len(),
        no_circle(ops, placed),
        0 <= p < hoist_order(ops, placed).len(),
        0 <= k < ops[hoist_order(ops, placed)[p]].uses().len(),
    ensures
        ({
            let order = hoist_order(ops, placed);
            match producer(ops, ops[order[p]].uses()[k], ops.len()) {
                Some(j) => j == order[p] || placed[j] || exists|q: int|
                    0 <= q < p && #[trigger] order[q] == j,
                None => true,
            }
        }),
    decreases closure::unmarked(placed, placed.len()),
{
    lemma_first_ready(ops, placed, ops.len());
    match first_ready(ops, placed, ops.len()) {
        Some(i) => {
            closure::lemma_unmarked(placed, i, placed.len());
            let next = placed.update(i, true);
            let order = hoist_order(ops, placed);
            let rest = hoist_order(ops, next);
            assert(order =~= seq![i] + rest);
            if p > 0 {
                assert(order[p] == rest[p - 1]);
                producers_come_first(ops, next, p - 1, k);
                if let Some(j) = producer(ops, ops[order[p]].uses()[k], ops.len()) {
                    lemma_producer(ops, ops[order[p]].uses()[k], ops.len());
                    if j != order[p] && !placed[j] {
                        if next[j] {
                            assert(order[0] == j);
                        } else {
                            let q = choose|q: int| 0 <= q < p - 1 && #[trigger] rest[q] == j;
                            assert(order[q + 1] == j);
                        }
                    }
                }
            } else {
                assert(is_ready(ops, placed, i));
            }
        },
        None => {
            lemma_all_placed(placed, placed.len());
        },
    }
}

proof fn lemma_producer<T: Target>(ops: Seq<OpView<T>>, v: SsaVarId, n: nat)
    ensures
        producer(ops, v, n) matches Some(j) ==> 0 <= j < n,
    decreases n,
{
    if n > 0 {
        lemma_producer(ops, v, (n - 1) as nat);
    }
}

proof fn lemma_all_placed(placed: Seq<bool>, n: nat)
    requires
        n <= placed.len(),
        forall|k: int| 0 <= k < placed.len() ==> #[trigger] placed[k],
    ensures
        not_placed(placed, n).len() == 0,
    decreases n,
{
    if n > 0 {
        lemma_all_placed(placed, (n - 1) as nat);
    }
}

/// Every operation that is not placed comes in the order, and only once.
pub proof fn order_is_complete<T: Target>(ops: Seq<OpView<T>>, placed: Seq<bool>, x: int)
    requires
        placed.len() == ops.len(),
        0 <= x < ops.len(),
    ensures
        hoist_order(ops, placed).contains(x) <==> !placed[x],
        hoist_order(ops, placed).no_duplicates(),
        hoist_order(ops, placed).len() == closure::unmarked(placed, placed.len()),
        forall|q: int|
            0 <= q < hoist_order(ops, placed).len() ==> 0 <= #[trigger] hoist_order(
                ops,
                placed,
            )[q] < ops.len() && !placed[hoist_order(ops, placed)[q]],
    decreases closure::unmarked(placed, placed.len()),
{
    lemma_first_ready(ops, placed, ops.len());
    match first_ready(ops, placed, ops.len()) {
        Some(i) => {
            closure::lemma_unmarked(placed, i, placed.len());
            let next = placed.update(i, true);
            let rest = hoist_order(ops, next);
            let order = hoist_order(ops, placed);
            order_is_complete(ops, next, x);
            assert(order =~= seq![i] + rest);
            assert forall|q: int| 0 <= q < order.len() implies 0 <= #[trigger] order[q] < ops.len()
                && !placed[order[q]] by {
                if q > 0 {
                    assert(order[q] == rest[q - 1]);
                }
            }
            assert(!rest.contains(i)) by {
                if rest.contains(i) {
                    let q = choose|q: int| 0 <= q < rest.len() && rest[q] == i;
                    assert(!next[rest[q]]);
                }
            }
            assert(order.no_duplicates()) by {
                assert forall|a: int, b: int| 0 <= a < b < order.len() implies order[a] != order[b] by {
                    assert(order[b] == rest[b - 1]);
                    if a > 0 {
                        assert(order[a] == rest[a - 1]);
                    } else {
                        assert(rest.contains(rest[b - 1]));
                    }
                }
            }
            assert(order.contains(x) <==> !placed[x]) by {
                if x == i {
                    assert(order[0] == x);
                } else {
                    assert(next[x] == placed[x]);
                    if rest.contains(x) {
                        let q = choose|q: int| 0 <= q < rest.len() && rest[q] == x;
                        assert(order[q + 1] == x);
                    }
                    if order.contains(x) {
                        let q = choose|q: int| 0 <= q < order.len() && order[q] == x;
                        assert(rest[q - 1] == x);
                    }
                }
            }
        },
        None => {
            lemma_not_placed(placed, placed.len(), x);
        },
    }
}

/// Nothing is ordered where there is nothing.
pub proof fn lemma_order_of_none<T: Target>(ops: Seq<OpView<T>>, placed: Seq<bool>)
    requires
        ops.len() == 0,
        placed.len() == 0,
    ensures
        hoist_order(ops, placed).len() == 0,
{
}

proof fn lemma_not_placed(placed: Seq<bool>, n: nat, x: int)
    requires
        n <= placed.len(),
    ensures
        not_placed(placed, n).contains(x) <==> 0 <= x < n && !placed[x],
        not_placed(placed, n).no_duplicates(),
        not_placed(placed, n).len() == closure::unmarked(placed, n),
        forall|q: int|
            0 <= q < not_placed(placed, n).len() ==> 0 <= #[trigger] not_placed(placed, n)[q] < n
                && !placed[not_placed(placed, n)[q]],
    decreases n,
{
    if n > 0 {
        lemma_not_placed(placed, (n - 1) as nat, x);
        let before = not_placed(placed, (n - 1) as nat);
        if !placed[n - 1] {
            closure::lemma_contains_push(before, n - 1, x);
        }
    }
}

impl<T: Target> BlockView<T> {
    /// The result of phi node `p`.
    pub open spec fn phi_result_at(self) -> spec_fn(int) -> Seq<usize> {
        |p: int| seq![self.phis[p].result.0]
    }

    /// What the instruction at `i` defines.
    pub open spec fn defs_at(self) -> spec_fn(int) -> Seq<usize> {
        |i: int| deadcode::numbers(self.instrs[i].defs())
    }

    /// What the instruction at `i` defines, where it stands at `from` or later.
    pub open spec fn late_defs_at(self, from: int) -> spec_fn(int) -> Seq<usize> {
        |i: int|
            if i >= from {
                deadcode::numbers(self.instrs[i].defs())
            } else {
                Seq::empty()
            }
    }

    /// The results of the phi nodes.
    pub open spec fn phi_results(self) -> Seq<usize> {
        seqs::flat(self.phi_result_at(), self.phis.len())
    }

    /// What the block defines.
    pub open spec fn all_defs(self) -> Seq<usize> {
        self.phi_results() + seqs::flat(self.defs_at(), self.instrs.len())
    }

    /// Where hoisted instructions go: before the operation that ends the block.
    pub open spec fn insertion_point(self) -> int {
        if self.terminator() is Some {
            self.instrs.len() - 1
        } else {
            self.instrs.len() as int
        }
    }

    /// How many instructions of the block do something before its end.
    pub open spec fn working_at(self) -> spec_fn(int) -> nat {
        |i: int|
            if self.instrs[i].ends_block() || self.instrs[i] is Nop {
                0
            } else {
                1
            }
    }

    /// The block does nothing before its end.
    pub open spec fn only_ends(self) -> bool {
        forall|i: int|
            0 <= i < self.instrs.len() ==> (#[trigger] self.instrs[i]).ends_block()
                || self.instrs[i] is Nop
    }

    /// The operand `k` of phi node `p`, where it comes from the loop.
    pub open spec fn carried_operand(self, body: Seq<bool>, p: int) -> spec_fn(int) -> Seq<usize> {
        |k: int|
            {
                let operand = self.phis[p].operands[k];
                if operand.predecessor < body.len() && body[operand.predecessor as int] {
                    seq![operand.value.0]
                } else {
                    Seq::empty()
                }
            }
    }

    /// The operands of phi node `p` that come from the loop.
    pub open spec fn carried_at(self, body: Seq<bool>) -> spec_fn(int) -> Seq<usize> {
        |p: int| seqs::flat(self.carried_operand(body, p), self.phis[p].operands.len())
    }
}

impl<T: Target> SsaView<T> {
    /// What block `b` defines, where it belongs to the loop.
    pub open spec fn inside_defs_in(self, body: Seq<bool>) -> spec_fn(int) -> Seq<usize> {
        |b: int|
            if b < body.len() && body[b] {
                self.blocks[b].all_defs()
            } else {
                Seq::empty()
            }
    }

    /// What the loop defines.
    pub open spec fn inside_defs(self, body: Seq<bool>) -> Seq<usize> {
        seqs::flat(self.inside_defs_in(body), self.blocks.len())
    }

    /// What the phi nodes of block `b` have from the loop.
    pub open spec fn carried_in(self, body: Seq<bool>) -> spec_fn(int) -> Seq<usize> {
        |b: int|
            if b < body.len() && body[b] {
                seqs::flat(self.blocks[b].carried_at(body), self.blocks[b].phis.len())
            } else {
                Seq::empty()
            }
    }

    /// What the phi nodes of the loop have from the loop.
    pub open spec fn carried(self, body: Seq<bool>) -> Seq<usize> {
        seqs::flat(self.carried_in(body), self.blocks.len())
    }

    /// What the instruction of the loop at which `v` is recorded to be defined reads.
    pub open spec fn feeding(self, body: Seq<bool>) -> spec_fn(int) -> Seq<(usize, usize)> {
        |v: int|
            {
                let site = self.vars[v].def_site;
                match site.instruction {
                    Some(i) => if site.block < body.len() && body[site.block as int]
                        && self.has_instr(site.block as int, i as int) {
                        self.blocks[site.block as int].instrs[i as int].uses().map_values(
                            |u: SsaVarId| (v as usize, u.0),
                        )
                    } else {
                        Seq::empty()
                    },
                    None => Seq::empty(),
                }
            }
    }

    /// The value of `v` reaches a phi node of the loop from the loop.
    pub open spec fn feeds_next_turn(self, body: Seq<bool>, v: SsaVarId) -> bool {
        closure::reached(
            self.vars.len(),
            self.carried(body),
            seqs::flat(self.feeding(body), self.vars.len()),
            v.0,
        )
    }

    /// The place of the instruction at `i` of block `b`, where it does something.
    pub open spec fn working_place(self, b: int) -> spec_fn(int) -> Seq<(usize, usize)> {
        |i: int|
            if self.blocks[b].instrs[i].ends_block() || self.blocks[b].instrs[i] is Nop {
                Seq::empty()
            } else {
                seq![(b as usize, i as usize)]
            }
    }

    /// The places of block `b` that do something, where it belongs to the loop.
    pub open spec fn working_places_in(self, body: Seq<bool>) -> spec_fn(int) -> Seq<
        (usize, usize),
    > {
        |b: int|
            if b < body.len() && body[b] {
                seqs::flat(self.working_place(b), self.blocks[b].instrs.len())
            } else {
                Seq::empty()
            }
    }

    /// The places of the loop that do something.
    pub open spec fn working_places(self, body: Seq<bool>) -> Seq<(usize, usize)> {
        seqs::flat(self.working_places_in(body), self.blocks.len())
    }

    /// What place `k` defines, where it is marked.
    pub open spec fn marked_defs_at(
        self,
        places: Seq<(usize, usize)>,
        marks: Seq<bool>,
    ) -> spec_fn(int) -> Seq<usize> {
        |k: int|
            if marks[k] {
                deadcode::numbers(self.op_at(places[k]).defs())
            } else {
                Seq::empty()
            }
    }

    /// What the marked places define.
    pub open spec fn marked_defs(self, places: Seq<(usize, usize)>, marks: Seq<bool>) -> Seq<
        usize,
    > {
        seqs::flat(self.marked_defs_at(places, marks), places.len())
    }

    /// The marks after one more look: a place is marked where it reads nothing that changes in the
    /// loop, as far as the marks tell.
    pub open spec fn more_invariant(
        self,
        info: LoopView,
        places: Seq<(usize, usize)>,
        marks: Seq<bool>,
    ) -> Seq<bool> {
        let inside = self.inside_defs(info.body);
        let header = self.blocks[info.header as int].phi_results();
        let found = self.marked_defs(places, marks);
        Seq::new(
            places.len(),
            |k: int|
                marks[k] || (reads_ready(self.op_at(places[k]).uses(), found, inside, inside)
                    && none_on(self.op_at(places[k]).uses(), header)),
        )
    }

    /// The places of the loop that compute the same each time.
    pub open spec fn invariant_marks(
        self,
        info: LoopView,
        places: Seq<(usize, usize)>,
        marks: Seq<bool>,
    ) -> Seq<bool>
        decreases closure::unmarked(marks, places.len()),
    {
        proof {
            let more = self.more_invariant(info, places, marks);
            if marks.len() == places.len() && more != marks {
                lemma_more_marked(marks, more, places.len());
                lemma_differs(marks, more);
            }
        }
        let more = self.more_invariant(info, places, marks);
        if marks.len() != places.len() || more == marks {
            marks
        } else {
            self.invariant_marks(info, places, more)
        }
    }

    /// A place can move: it only computes, and its value does not reach the next turn.
    pub open spec fn can_hoist(self, info: LoopView, place: (usize, usize)) -> bool {
        let op = self.op_at(place);
        &&& op.defs().len() > 0
        &&& op.pure()
        &&& forall|k: int|
            0 <= k < op.defs().len() ==> !self.feeds_next_turn(info.body, #[trigger] op.defs()[k])
    }

    /// A recorded use of `v` stands in block `b` before `at`.
    pub open spec fn used_before(self, v: SsaVarId, b: usize, at: int) -> bool {
        v.0 < self.vars.len() && exists|k: int|
            0 <= k < self.vars[v.0 as int].uses.len() && {
                let site = #[trigger] self.vars[v.0 as int].uses[k];
                site.block == b && !site.is_phi_operand && site.instruction < at
            }
    }

    /// None of what an operation defines is used in block `b` before `at`.
    pub open spec fn defs_unused_before(self, op: OpView<T>, b: usize, at: int) -> bool {
        forall|k: int|
            0 <= k < op.defs().len() ==> !self.used_before(#[trigger] op.defs()[k], b, at)
    }

    /// What block `b` defines at `from` or later.
    pub open spec fn late_defs(self, b: usize, from: int) -> Seq<usize> {
        seqs::flat(self.blocks[b as int].late_defs_at(from), self.blocks[b as int].instrs.len())
    }

    /// The marks after one more look: a place stays marked where all it reads is at hand in the
    /// preheader, or moves along.
    pub open spec fn still_hoistable(
        self,
        info: LoopView,
        pre: usize,
        places: Seq<(usize, usize)>,
        marks: Seq<bool>,
    ) -> Seq<bool> {
        let at = self.blocks[pre as int].insertion_point();
        let inside = self.inside_defs(info.body);
        let late = self.late_defs(pre, at);
        let along = self.marked_defs(places, marks);
        Seq::new(
            places.len(),
            |k: int|
                marks[k] && self.defs_unused_before(self.op_at(places[k]), pre, at) && reads_ready(
                    self.op_at(places[k]).uses(),
                    along,
                    inside,
                    late,
                ),
        )
    }

    /// The places that can move together.
    pub open spec fn hoistable_marks(
        self,
        info: LoopView,
        pre: usize,
        places: Seq<(usize, usize)>,
        marks: Seq<bool>,
    ) -> Seq<bool>
        decreases marked(marks, places.len()),
    {
        proof {
            let fewer = self.still_hoistable(info, pre, places, marks);
            if marks.len() == places.len() && fewer != marks {
                lemma_fewer_marked(marks, fewer, places.len());
                lemma_differs(marks, fewer);
            }
        }
        let fewer = self.still_hoistable(info, pre, places, marks);
        if marks.len() != places.len() || fewer == marks {
            marks
        } else {
            self.hoistable_marks(info, pre, places, fewer)
        }
    }

    /// How many of the first `n` places are marked and stand in block `b`.
    pub open spec fn leaving_block(
        self,
        places: Seq<(usize, usize)>,
        marks: Seq<bool>,
        b: usize,
        n: nat,
    ) -> nat
        decreases n,
    {
        if n == 0 {
            0
        } else {
            self.leaving_block(places, marks, b, (n - 1) as nat) + (if marks[n - 1]
                && places[n - 1].0 == b {
                1nat
            } else {
                0nat
            })
        }
    }

    /// Control can go from block `b` to one with phi nodes.
    pub open spec fn leads_to_phis(self, b: usize) -> bool {
        exists|k: int|
            0 <= k < self.blocks[b as int].successors().len() && {
                let to = #[trigger] self.blocks[b as int].successors()[k];
                to < self.blocks.len() && self.blocks[to as int].phis.len() > 0
            }
    }

    /// Block `b` would do nothing any more and leads to one with phi nodes.
    pub open spec fn would_be_bare(
        self,
        places: Seq<(usize, usize)>,
        marks: Seq<bool>,
        b: usize,
    ) -> bool {
        self.leaving_block(places, marks, b, places.len()) >= deadcode::total(
            self.blocks[b as int].working_at(),
            self.blocks[b as int].instrs.len(),
        ) && self.leads_to_phis(b)
    }

    /// The place `k`, where it moves.
    pub open spec fn moving_at(self, places: Seq<(usize, usize)>, marks: Seq<bool>) -> spec_fn(
        int,
    ) -> Seq<(usize, usize)> {
        |k: int|
            if marks[k] && !self.would_be_bare(places, marks, places[k].0) {
                seq![places[k]]
            } else {
                Seq::empty()
            }
    }
}

/// Sequences of one length that are not equal differ somewhere.
pub proof fn lemma_differs(a: Seq<bool>, b: Seq<bool>)
    requires
        a.len() == b.len(),
        a != b,
    ensures
        exists|k: int| 0 <= k < a.len() && #[trigger] a[k] != b[k],
{
    if forall|k: int| 0 <= k < a.len() ==> #[trigger] a[k] == b[k] {
        assert(a =~= b);
    }
}

impl<T: Target> SsaView<T> {
    /// The places of a loop that move before it.
    pub open spec fn moving(self, info: LoopView, pre: usize) -> Seq<(usize, usize)> {
        let places = self.working_places(info.body);
        let steady = self.invariant_marks(info, places, none_placed(places.len()));
        let candidates = Seq::new(
            places.len(),
            |k: int| steady[k] && self.can_hoist(info, places[k]),
        );
        let marks = self.hoistable_marks(info, pre, places, candidates);
        seqs::flat(self.moving_at(places, marks), places.len())
    }

    /// The operations at some places.
    pub open spec fn ops_at(self, places: Seq<(usize, usize)>) -> Seq<OpView<T>> {
        places.map_values(|p: (usize, usize)| self.op_at(p))
    }

    /// The operations at some places, each after what it reads.
    pub open spec fn ordered_ops(self, places: Seq<(usize, usize)>) -> Seq<OpView<T>> {
        let ops = self.ops_at(places);
        hoist_order(ops, none_placed(ops.len())).map_values(|i: int| ops[i])
    }

    /// The function with the first `n` of some places doing nothing.
    pub open spec fn with_nops(self, places: Seq<(usize, usize)>, n: nat) -> SsaView<T>
        decreases n,
    {
        if n == 0 {
            self
        } else {
            self.with_nops(places, (n - 1) as nat).with_op(
                places[n - 1].0 as int,
                places[n - 1].1 as int,
                Op::Nop,
            )
        }
    }

    /// Some of the places stands in block `b`.
    pub open spec fn leaves_block(places: Seq<(usize, usize)>, b: int) -> bool {
        exists|k: int| 0 <= k < places.len() && (#[trigger] places[k]).0 == b
    }

    /// The function with the phi operands of the first `n` of some blocks that come from `from`
    /// coming from `to`.
    pub open spec fn with_moved_phis(
        self,
        targets: Seq<usize>,
        from: usize,
        to: usize,
        n: nat,
    ) -> SsaView<T>
        decreases n,
    {
        if n == 0 {
            self
        } else {
            let before = self.with_moved_phis(targets, from, to, (n - 1) as nat);
            let b = targets[n - 1];
            if b < before.blocks.len() {
                before.with_block(b as int, before.blocks[b as int].moved(from, to))
            } else {
                before
            }
        }
    }

    /// What the last operation of block `b` leads to.
    pub open spec fn last_targets(self, b: int) -> Seq<usize> {
        if self.blocks[b].instrs.len() > 0 {
            self.blocks[b].instrs.last().successors()
        } else {
            Seq::empty()
        }
    }

    /// The function after phi operands from those of the first `n` blocks that lost what they did
    /// come from the preheader.
    pub open spec fn with_bare_blocks_bypassed(
        self,
        places: Seq<(usize, usize)>,
        pre: usize,
        n: nat,
    ) -> SsaView<T>
        decreases n,
    {
        if n == 0 {
            self
        } else {
            let before = self.with_bare_blocks_bypassed(places, pre, (n - 1) as nat);
            let b = n - 1;
            if Self::leaves_block(places, b) && before.blocks[b].only_ends() {
                let targets = before.last_targets(b);
                before.with_moved_phis(targets, b as usize, pre, targets.len())
            } else {
                before
            }
        }
    }

    /// The function with the operations at some places moved to the preheader.
    pub open spec fn hoisted(self, places: Seq<(usize, usize)>, pre: usize) -> SsaView<T> {
        let emptied = self.with_nops(places, places.len());
        let block = emptied.blocks[pre as int];
        let at = self.blocks[pre as int].insertion_point();
        emptied.with_block(
            pre as int,
            block.with_instrs(
                block.instrs.take(at) + self.ordered_ops(places) + block.instrs.skip(at),
            ),
        ).with_bare_blocks_bypassed(places, pre, self.blocks.len())
    }

    /// Where a loop is left as it is, or the preheader that its invariant code moves to.
    pub open spec fn hoisting_target(self, info: LoopView) -> Option<usize> {
        match info.preheader {
            Some(pre) => if pre < self.blocks.len() && info.header < self.blocks.len()
                && self.last_targets(pre as int).contains(info.header) && !(
            self.blocks[info.header as int].terminator() is Some
                && self.blocks[info.header as int].terminator()->0 is Switch) {
                Some(pre)
            } else {
                None
            },
            None => None,
        }
    }

    /// What comes of one loop, and how many instructions moved.
    pub open spec fn loop_hoisted(self, info: LoopView) -> (SsaView<T>, nat) {
        match self.hoisting_target(info) {
            Some(pre) => {
                let places = self.moving(info, pre);
                if places.len() == 0 || !self.hoisted(places, pre).repaired().well_formed() {
                    (self, 0)
                } else {
                    (self.hoisted(places, pre).repaired(), places.len())
                }
            },
            None => (self, 0),
        }
    }

    /// What comes of the first `n` loops, and how many instructions moved.
    pub open spec fn loops_hoisted(self, list: Seq<LoopView>, n: nat) -> (SsaView<T>, nat)
        decreases n,
    {
        if n == 0 {
            (self, 0)
        } else {
            let before = self.loops_hoisted(list, (n - 1) as nat);
            let step = before.0.loop_hoisted(list[n - 1]);
            (step.0, before.1 + step.1)
        }
    }

    /// What the pass makes of the function.
    pub open spec fn invariants_hoisted(self, method: T::MethodRef) -> Outcome<T> {
        let (ssa, count) = self.loops_hoisted(self.loops(), self.loops().len());
        if count > 0 {
            Outcome {
                ssa,
                events: seq![
                    EventView::at(
                        EventKind::InstructionRemoved,
                        method,
                        0,
                        "LICM: hoisted "@ + text::decimal(deadcode::capped(count) as nat)
                            + " loop-invariant instructions"@,
                    ),
                ],
                changed: true,
            }
        } else {
            Outcome { ssa, events: Seq::empty(), changed: false }
        }
    }
}

/// The pass keeps functions well formed.
pub proof fn hoisting_keeps_well_formed<T: Target>(ssa: SsaView<T>, list: Seq<LoopView>, n: nat)
    requires
        ssa.well_formed(),
    ensures
        ssa.loops_hoisted(list, n).0.well_formed(),
    decreases n,
{
    if n > 0 {
        hoisting_keeps_well_formed(ssa, list, (n - 1) as nat);
    }
}

/// Appends the numbers of what an operation defines.
fn append_defs<T: Target>(list: &mut Vec<usize>, op: &SsaOp<T>)
    ensures
        final(list)@ == old(list)@ + deadcode::numbers(op@.defs()),
{
    let defs: Vec<SsaVarId> = op.defs();
    let ghost all = deadcode::numbers(op@.defs());
    let mut k: usize = 0;
    while k < defs.len()
        invariant
            k <= defs@.len(),
            defs@ == op@.defs(),
            all == deadcode::numbers(op@.defs()),
            list@ =~= old(list)@ + all.take(k as int),
        decreases defs@.len() - k,
    {
        list.push(defs[k].0);
        k = k + 1;
    }
    assert(all.take(k as int) =~= all);
}

/// Returns the results of the phi nodes of a block.
fn list_phi_results<T: Target>(block: &SsaBlock<T>) -> (r: Vec<usize>)
    ensures
        r@ == block@.phi_results(),
{
    let mut r: Vec<usize> = Vec::new();
    let ghost f = block@.phi_result_at();
    let mut p: usize = 0;
    while p < block.phis.len()
        invariant
            p <= block.phis@.len(),
            f == block@.phi_result_at(),
            r@ == seqs::flat(f, p as nat),
        decreases block.phis@.len() - p,
    {
        assert(block.phis@[p as int]@ == block@.phis[p as int]);
        let ghost before = r@;
        r.push(block.phis[p].result.0);
        assert(r@ =~= before + f(p as int));
        p = p + 1;
    }
    r
}

/// Returns what a block defines.
fn list_block_defs<T: Target>(block: &SsaBlock<T>) -> (r: Vec<usize>)
    ensures
        r@ == block@.all_defs(),
{
    let mut r: Vec<usize> = list_phi_results(block);
    let ghost base = r@;
    let ghost f = block@.defs_at();
    assert(r@ =~= base + seqs::flat(f, 0));
    let mut i: usize = 0;
    while i < block.instrs.len()
        invariant
            i <= block.instrs@.len(),
            f == block@.defs_at(),
            r@ =~= base + seqs::flat(f, i as nat),
        decreases block.instrs@.len() - i,
    {
        assert(block.instrs@[i as int]@ == block@.instrs[i as int]);
        append_defs(&mut r, &block.instrs[i].op);
        assert(base + seqs::flat(f, i as nat) + f(i as int) =~= base + seqs::flat(
            f,
            (i + 1) as nat,
        ));
        i = i + 1;
    }
    r
}

/// Returns what a loop defines.
fn loop_inside_defs<T: Target>(ssa: &SsaFunction<T>, body: &Vec<bool>) -> (r: Vec<usize>)
    ensures
        r@ == ssa@.inside_defs(body@),
{
    let mut r: Vec<usize> = Vec::new();
    let ghost f = ssa@.inside_defs_in(body@);
    let mut b: usize = 0;
    while b < ssa.blocks.len()
        invariant
            b <= ssa.blocks@.len(),
            f == ssa@.inside_defs_in(body@),
            r@ == seqs::flat(f, b as nat),
        decreases ssa.blocks@.len() - b,
    {
        assert(ssa.blocks@[b as int]@ == ssa@.blocks[b as int]);
        let ghost before = r@;
        if b < body.len() && body[b] {
            let mut defs: Vec<usize> = list_block_defs(&ssa.blocks[b]);
            r.append(&mut defs);
        }
        assert(r@ =~= before + f(b as int));
        b = b + 1;
    }
    r
}

/// Returns what the phi nodes of a block have from a loop.
fn list_carried<T: Target>(block: &SsaBlock<T>, body: &Vec<bool>) -> (r: Vec<usize>)
    ensures
        r@ == seqs::flat(block@.carried_at(body@), block@.phis.len()),
{
    let mut r: Vec<usize> = Vec::new();
    let ghost f = block@.carried_at(body@);
    let mut p: usize = 0;
    while p < block.phis.len()
        invariant
            p <= block.phis@.len(),
            f == block@.carried_at(body@),
            r@ == seqs::flat(f, p as nat),
        decreases block.phis@.len() - p,
    {
        assert(block.phis@[p as int]@ == block@.phis[p as int]);
        let phi: &PhiNode = &block.phis[p];
        let ghost g = block@.carried_operand(body@, p as int);
        assert(r@ =~= seqs::flat(f, p as nat) + seqs::flat(g, 0));
        let mut k: usize = 0;
        while k < phi.operands.len()
            invariant
                k <= phi.operands@.len(),
                p < block@.phis.len(),
                phi@ == block@.phis[p as int],
                g == block@.carried_operand(body@, p as int),
                r@ =~= seqs::flat(f, p as nat) + seqs::flat(g, k as nat),
            decreases phi.operands@.len() - k,
        {
            let ghost before = r@;
            assert(phi.operands@[k as int] == block@.phis[p as int].operands[k as int]);
            let from: usize = phi.operands[k].predecessor;
            if from < body.len() && body[from] {
                r.push(phi.operands[k].value.0);
            }
            assert(r@ =~= before + g(k as int));
            k = k + 1;
        }
        p = p + 1;
    }
    r
}

/// Returns what the phi nodes of a loop have from the loop.
fn phi_back_edge_operands<T: Target>(ssa: &SsaFunction<T>, body: &Vec<bool>) -> (r: Vec<usize>)
    ensures
        r@ == ssa@.carried(body@),
{
    let mut r: Vec<usize> = Vec::new();
    let ghost f = ssa@.carried_in(body@);
    let mut b: usize = 0;
    while b < ssa.blocks.len()
        invariant
            b <= ssa.blocks@.len(),
            f == ssa@.carried_in(body@),
            r@ == seqs::flat(f, b as nat),
        decreases ssa.blocks@.len() - b,
    {
        assert(ssa.blocks@[b as int]@ == ssa@.blocks[b as int]);
        let ghost before = r@;
        if b < body.len() && body[b] {
            let mut carried: Vec<usize> = list_carried(&ssa.blocks[b], body);
            r.append(&mut carried);
        }
        assert(r@ =~= before + f(b as int));
        b = b + 1;
    }
    r
}

/// Returns, for each variable, whether its value reaches a phi node of the loop from the loop.
fn back_edge_tainted_vars<T: Target>(ssa: &SsaFunction<T>, body: &Vec<bool>) -> (r: Vec<bool>)
    ensures
        r@.len() == ssa@.vars.len(),
        forall|v: int|
            0 <= v < r@.len() ==> #[trigger] r@[v] == ssa@.feeds_next_turn(
                body@,
                SsaVarId(v as usize),
            ),
{
    let roots: Vec<usize> = phi_back_edge_operands(ssa, body);
    let mut edges: Vec<(usize, usize)> = Vec::new();
    let ghost f = ssa@.feeding(body@);
    let n: usize = ssa.variables.len();
    let mut v: usize = 0;
    while v < n
        invariant
            v <= n,
            n == ssa@.vars.len(),
            f == ssa@.feeding(body@),
            edges@ == seqs::flat(f, v as nat),
        decreases n - v,
    {
        assert(ssa.variables@[v as int]@ == ssa@.vars[v as int]);
        let ghost before = edges@;
        let block: usize = ssa.variables[v].def_site.block;
        if let Some(i) = ssa.variables[v].def_site.instruction {
            if block < body.len() && body[block] && block < ssa.blocks.len() {
                assert(ssa.blocks@[block as int]@ == ssa@.blocks[block as int]);
                if i < ssa.blocks[block].instrs.len() {
                    assert(ssa.blocks@[block as int].instrs@[i as int]@
                        == ssa@.blocks[block as int].instrs[i as int]);
                    let uses: Vec<SsaVarId> = ssa.blocks[block].instrs[i].op.uses();
                    let mut u: usize = 0;
                    while u < uses.len()
                        invariant
                            u <= uses@.len(),
                            f(v as int) == uses@.map_values(|x: SsaVarId| (v, x.0)),
                            edges@ =~= before + f(v as int).take(u as int),
                        decreases uses@.len() - u,
                    {
                        edges.push((v, uses[u].0));
                        u = u + 1;
                    }
                    assert(f(v as int).take(u as int) =~= f(v as int));
                }
            }
        }
        assert(edges@ =~= before + f(v as int));
        v = v + 1;
    }
    let r: Vec<bool> = closure::find_reached(n, &roots, &edges);
    assert forall|x: int| 0 <= x < r@.len() implies #[trigger] r@[x] == ssa@.feeds_next_turn(
        body@,
        SsaVarId(x as usize),
    ) by {}
    r
}

/// All places of a list are in the function.
spec fn places_in_range<T: Target>(ssa: SsaView<T>, places: Seq<(usize, usize)>) -> bool {
    forall|k: int|
        0 <= k < places.len() ==> ssa.has_instr((#[trigger] places[k]).0 as int, places[k].1 as int)
}

/// Returns the places of a loop that do something.
fn list_working_places<T: Target>(ssa: &SsaFunction<T>, body: &Vec<bool>) -> (r: Vec<
    (usize, usize),
>)
    ensures
        r@ == ssa@.working_places(body@),
        places_in_range(ssa@, r@),
        forall|k: int|
            0 <= k < r@.len() ==> (#[trigger] r@[k]).0 < body@.len() && body@[r@[k].0 as int],
{
    let mut r: Vec<(usize, usize)> = Vec::new();
    let ghost f = ssa@.working_places_in(body@);
    let mut b: usize = 0;
    while b < ssa.blocks.len()
        invariant
            b <= ssa.blocks@.len(),
            f == ssa@.working_places_in(body@),
            r@ == seqs::flat(f, b as nat),
            places_in_range(ssa@, r@),
            forall|k: int|
                0 <= k < r@.len() ==> (#[trigger] r@[k]).0 < body@.len() && body@[r@[k].0 as int],
        decreases ssa.blocks@.len() - b,
    {
        assert(ssa.blocks@[b as int]@ == ssa@.blocks[b as int]);
        if b < body.len() && body[b] {
            let block: &SsaBlock<T> = &ssa.blocks[b];
            let ghost g = ssa@.working_place(b as int);
            assert(r@ =~= seqs::flat(f, b as nat) + seqs::flat(g, 0));
            let mut i: usize = 0;
            while i < block.instrs.len()
                invariant
                    i <= block.instrs@.len(),
                    b < ssa@.blocks.len(),
                    b < body@.len(),
                    body@[b as int],
                    block@ == ssa@.blocks[b as int],
                    g == ssa@.working_place(b as int),
                    r@ =~= seqs::flat(f, b as nat) + seqs::flat(g, i as nat),
                    places_in_range(ssa@, r@),
                    forall|k: int|
                        0 <= k < r@.len() ==> (#[trigger] r@[k]).0 < body@.len()
                            && body@[r@[k].0 as int],
                decreases block.instrs@.len() - i,
            {
                assert(block.instrs@[i as int]@ == block@.instrs[i as int]);
                let ghost before = r@;
                let nop: bool = match &block.instrs[i].op {
                    Op::Nop => true,
                    _ => false,
                };
                if !nop && !block.instrs[i].is_terminator() {
                    r.push((b, i));
                }
                assert(r@ =~= before + g(i as int));
                i = i + 1;
            }
        }
        b = b + 1;
    }
    r
}

/// Returns what the marked places define.
fn list_marked_defs<T: Target>(
    ssa: &SsaFunction<T>,
    places: &Vec<(usize, usize)>,
    marks: &Vec<bool>,
) -> (r: Vec<usize>)
    requires
        places_in_range(ssa@, places@),
        marks@.len() == places@.len(),
    ensures
        r@ == ssa@.marked_defs(places@, marks@),
{
    let mut r: Vec<usize> = Vec::new();
    let ghost f = ssa@.marked_defs_at(places@, marks@);
    let mut k: usize = 0;
    while k < places.len()
        invariant
            k <= places@.len(),
            places_in_range(ssa@, places@),
            marks@.len() == places@.len(),
            f == ssa@.marked_defs_at(places@, marks@),
            r@ == seqs::flat(f, k as nat),
        decreases places@.len() - k,
    {
        let ghost before = r@;
        if marks[k] {
            let (b, i) = places[k];
            assert(ssa@.has_instr(places@[k as int].0 as int, places@[k as int].1 as int));
            assert(ssa.blocks@[b as int]@ == ssa@.blocks[b as int]);
            assert(ssa.blocks@[b as int].instrs@[i as int]@ == ssa@.op_at(places@[k as int]));
            append_defs(&mut r, &ssa.blocks[b].instrs[i].op);
        }
        assert(r@ =~= before + f(k as int));
        k = k + 1;
    }
    r
}

/// Returns whether all reads are of what is on the first list, or on neither of the other two.
fn check_reads_ready(
    reads: &Vec<SsaVarId>,
    good: &Vec<usize>,
    bad: &Vec<usize>,
    worse: &Vec<usize>,
) -> (r: bool)
    ensures
        r == reads_ready(reads@, good@, bad@, worse@),
{
    let mut k: usize = 0;
    while k < reads.len()
        invariant
            k <= reads@.len(),
            forall|j: int|
                0 <= j < k ==> good@.contains((#[trigger] reads@[j]).0) || (!bad@.contains(
                    reads@[j].0,
                ) && !worse@.contains(reads@[j].0)),
        decreases reads@.len() - k,
    {
        let v: usize = reads[k].0;
        if !holds(good, v) && (holds(bad, v) || holds(worse, v)) {
            assert(!good@.contains(reads@[k as int].0));
            return false;
        }
        k = k + 1;
    }
    true
}

/// Returns whether none of the variables is on the list.
fn check_none_on(vars: &Vec<SsaVarId>, list: &Vec<usize>) -> (r: bool)
    ensures
        r == none_on(vars@, list@),
{
    let mut k: usize = 0;
    while k < vars.len()
        invariant
            k <= vars@.len(),
            forall|j: int| 0 <= j < k ==> !list@.contains((#[trigger] vars@[j]).0),
        decreases vars@.len() - k,
    {
        if holds(list, vars[k].0) {
            assert(list@.contains(vars@[k as int].0));
            return false;
        }
        k = k + 1;
    }
    true
}

/// Returns whether two lists of marks are equal.
fn same_marks(a: &Vec<bool>, b: &Vec<bool>) -> (r: bool)
    requires
        a@.len() == b@.len(),
    ensures
        r == (a@ == b@),
{
    let mut k: usize = 0;
    while k < a.len()
        invariant
            k <= a@.len(),
            a@.len() == b@.len(),
            forall|j: int| 0 <= j < k ==> a@[j] == b@[j],
        decreases a@.len() - k,
    {
        if a[k] != b[k] {
            assert(a@[k as int] != b@[k as int]);
            return false;
        }
        k = k + 1;
    }
    assert(a@ =~= b@);
    true
}

/// Returns the marks after one more look for places that compute the same each time.
fn mark_more<T: Target>(
    ssa: &SsaFunction<T>,
    info: &LoopInfo,
    places: &Vec<(usize, usize)>,
    marks: &Vec<bool>,
    inside: &Vec<usize>,
    header: &Vec<usize>,
) -> (r: Vec<bool>)
    requires
        info.header < ssa@.blocks.len(),
        places_in_range(ssa@, places@),
        marks@.len() == places@.len(),
        inside@ == ssa@.inside_defs(info@.body),
        header@ == ssa@.blocks[info.header as int].phi_results(),
    ensures
        r@ == ssa@.more_invariant(info@, places@, marks@),
{
    let found: Vec<usize> = list_marked_defs(ssa, places, marks);
    let mut r: Vec<bool> = Vec::new();
    let mut k: usize = 0;
    while k < places.len()
        invariant
            k <= places@.len(),
            places_in_range(ssa@, places@),
            marks@.len() == places@.len(),
            inside@ == ssa@.inside_defs(info@.body),
            header@ == ssa@.blocks[info.header as int].phi_results(),
            found@ == ssa@.marked_defs(places@, marks@),
            r@.len() == k,
            forall|j: int|
                0 <= j < k ==> #[trigger] r@[j] == ssa@.more_invariant(info@, places@, marks@)[j],
        decreases places@.len() - k,
    {
        let (b, i) = places[k];
        assert(ssa@.has_instr(places@[k as int].0 as int, places@[k as int].1 as int));
        assert(ssa.blocks@[b as int]@ == ssa@.blocks[b as int]);
        assert(ssa.blocks@[b as int].instrs@[i as int]@ == ssa@.op_at(places@[k as int]));
        let uses: Vec<SsaVarId> = ssa.blocks[b].instrs[i].op.uses();
        let steady: bool = marks[k] || (check_reads_ready(&uses, &found, inside, inside)
            && check_none_on(&uses, header));
        r.push(steady);
        k = k + 1;
    }
    assert(r@ =~= ssa@.more_invariant(info@, places@, marks@));
    r
}

/// Returns, for each place, whether it computes the same each time.
fn find_loop_invariants<T: Target>(
    ssa: &SsaFunction<T>,
    info: &LoopInfo,
    places: &Vec<(usize, usize)>,
    inside: &Vec<usize>,
) -> (r: Vec<bool>)
    requires
        info.header < ssa@.blocks.len(),
        places_in_range(ssa@, places@),
        inside@ == ssa@.inside_defs(info@.body),
    ensures
        r@ == ssa@.invariant_marks(info@, places@, none_placed(places@.len())),
        r@.len() == places@.len(),
{
    assert(ssa.blocks@[info.header as int]@ == ssa@.blocks[info.header as int]);
    let header: Vec<usize> = list_phi_results(&ssa.blocks[info.header]);
    let mut marks: Vec<bool> = Vec::new();
    let mut k: usize = 0;
    while k < places.len()
        invariant
            k <= places@.len(),
            marks@ =~= none_placed(k as nat),
        decreases places@.len() - k,
    {
        marks.push(false);
        k = k + 1;
    }
    loop
        invariant
            info.header < ssa@.blocks.len(),
            places_in_range(ssa@, places@),
            inside@ == ssa@.inside_defs(info@.body),
            header@ == ssa@.blocks[info.header as int].phi_results(),
            marks@.len() == places@.len(),
            ssa@.invariant_marks(info@, places@, marks@) == ssa@.invariant_marks(
                info@,
                places@,
                none_placed(places@.len()),
            ),
        decreases closure::unmarked(marks@, places@.len()),
    {
        let more: Vec<bool> = mark_more(ssa, info, places, &marks, inside, &header);
        if same_marks(&more, &marks) {
            return marks;
        }
        proof {
            lemma_more_marked(marks@, more@, places@.len());
            lemma_differs(marks@, more@);
        }
        marks = more;
    }
}

/// Returns whether a place can move.
fn check_can_hoist<T: Target>(
    ssa: &SsaFunction<T>,
    info: &LoopInfo,
    tainted: &Vec<bool>,
    place: (usize, usize),
) -> (r: bool)
    requires
        ssa@.has_instr(place.0 as int, place.1 as int),
        tainted@.len() == ssa@.vars.len(),
        forall|v: int|
            0 <= v < tainted@.len() ==> #[trigger] tainted@[v] == ssa@.feeds_next_turn(
                info@.body,
                SsaVarId(v as usize),
            ),
    ensures
        r == ssa@.can_hoist(info@, place),
{
    assert(ssa.blocks@[place.0 as int]@ == ssa@.blocks[place.0 as int]);
    assert(ssa.blocks@[place.0 as int].instrs@[place.1 as int]@ == ssa@.op_at(place));
    let op: &SsaOp<T> = &ssa.blocks[place.0].instrs[place.1].op;
    let defs: Vec<SsaVarId> = op.defs();
    if defs.len() == 0 || !op.is_pure() {
        return false;
    }
    let mut k: usize = 0;
    while k < defs.len()
        invariant
            k <= defs@.len(),
            defs@ == op@.defs(),
            op@ == ssa@.op_at(place),
            tainted@.len() == ssa@.vars.len(),
            forall|v: int|
                0 <= v < tainted@.len() ==> #[trigger] tainted@[v] == ssa@.feeds_next_turn(
                    info@.body,
                    SsaVarId(v as usize),
                ),
            forall|j: int|
                0 <= j < k ==> !ssa@.feeds_next_turn(info@.body, #[trigger] defs@[j]),
        decreases defs@.len() - k,
    {
        let v: usize = defs[k].0;
        if v < tainted.len() && tainted[v] {
            assert(ssa@.feeds_next_turn(info@.body, defs@[k as int]));
            return false;
        }
        proof {
            assert(!ssa@.feeds_next_turn(info@.body, defs@[k as int])) by {
                if v < tainted@.len() {
                    assert(tainted@[v as int] == ssa@.feeds_next_turn(info@.body, SsaVarId(v)));
                } else if ssa@.feeds_next_turn(info@.body, defs@[k as int]) {
                    let n = ssa@.vars.len();
                    let roots = ssa@.carried(info@.body);
                    let edges = seqs::flat(ssa@.feeding(info@.body), ssa@.vars.len());
                    let w = choose|w: Seq<usize>|
                        #[trigger] closure::is_walk(n, roots, edges, w) && w.last() == v;
                    assert(w[w.len() - 1] < n);
                }
            }
        }
        k = k + 1;
    }
    true
}

/// Returns whether a recorded use of `v` stands in block `b` before `at`.
fn check_used_before<T: Target>(ssa: &SsaFunction<T>, v: SsaVarId, b: usize, at: usize) -> (r: bool)
    ensures
        r == ssa@.used_before(v, b, at as int),
{
    let var = match ssa.slot(v) {
        Some(var) => var,
        None => return false,
    };
    let uses: &Vec<UseSite> = var.uses();
    let mut k: usize = 0;
    while k < uses.len()
        invariant
            k <= uses@.len(),
            v.0 < ssa@.vars.len(),
            uses@ == ssa@.vars[v.0 as int].uses,
            forall|j: int|
                0 <= j < k ==> {
                    let site = #[trigger] ssa@.vars[v.0 as int].uses[j];
                    !(site.block == b && !site.is_phi_operand && site.instruction < at)
                },
        decreases uses@.len() - k,
    {
        let site: UseSite = uses[k];
        assert(site == ssa@.vars[v.0 as int].uses[k as int]);
        if site.block == b && !site.is_phi_operand && site.instruction < at {
            return true;
        }
        k = k + 1;
    }
    false
}

/// Returns whether none of what an operation defines is used in block `b` before `at`.
fn check_defs_unused_before<T: Target>(
    ssa: &SsaFunction<T>,
    op: &SsaOp<T>,
    b: usize,
    at: usize,
) -> (r: bool)
    ensures
        r == ssa@.defs_unused_before(op@, b, at as int),
{
    let defs: Vec<SsaVarId> = op.defs();
    let mut k: usize = 0;
    while k < defs.len()
        invariant
            k <= defs@.len(),
            defs@ == op@.defs(),
            forall|j: int| 0 <= j < k ==> !ssa@.used_before(#[trigger] defs@[j], b, at as int),
        decreases defs@.len() - k,
    {
        if check_used_before(ssa, defs[k], b, at) {
            assert(ssa@.used_before(defs@[k as int], b, at as int));
            return false;
        }
        k = k + 1;
    }
    true
}

/// Returns where hoisted instructions go in a block.
fn find_insertion_point<T: Target>(block: &SsaBlock<T>) -> (r: usize)
    ensures
        r == block@.insertion_point(),
        r <= block@.instrs.len(),
{
    match block.terminator_op() {
        Some(_) => block.instrs.len() - 1,
        None => block.instrs.len(),
    }
}

/// Returns what a block defines at `from` or later.
fn list_late_defs<T: Target>(block: &SsaBlock<T>, from: usize) -> (r: Vec<usize>)
    ensures
        r@ == seqs::flat(block@.late_defs_at(from as int), block@.instrs.len()),
{
    let mut r: Vec<usize> = Vec::new();
    let ghost f = block@.late_defs_at(from as int);
    let mut i: usize = 0;
    while i < block.instrs.len()
        invariant
            i <= block.instrs@.len(),
            f == block@.late_defs_at(from as int),
            r@ == seqs::flat(f, i as nat),
        decreases block.instrs@.len() - i,
    {
        assert(block.instrs@[i as int]@ == block@.instrs[i as int]);
        let ghost before = r@;
        if i >= from {
            append_defs(&mut r, &block.instrs[i].op);
        }
        assert(r@ =~= before + f(i as int));
        i = i + 1;
    }
    r
}

/// Returns the marks after one more look for places that cannot move.
fn mark_fewer<T: Target>(
    ssa: &SsaFunction<T>,
    info: &LoopInfo,
    pre: usize,
    places: &Vec<(usize, usize)>,
    marks: &Vec<bool>,
    inside: &Vec<usize>,
    late: &Vec<usize>,
    at: usize,
) -> (r: Vec<bool>)
    requires
        pre < ssa@.blocks.len(),
        places_in_range(ssa@, places@),
        marks@.len() == places@.len(),
        inside@ == ssa@.inside_defs(info@.body),
        at == ssa@.blocks[pre as int].insertion_point(),
        late@ == ssa@.late_defs(pre, at as int),
    ensures
        r@ == ssa@.still_hoistable(info@, pre, places@, marks@),
{
    let along: Vec<usize> = list_marked_defs(ssa, places, marks);
    let mut r: Vec<bool> = Vec::new();
    let mut k: usize = 0;
    while k < places.len()
        invariant
            k <= places@.len(),
            places_in_range(ssa@, places@),
            marks@.len() == places@.len(),
            inside@ == ssa@.inside_defs(info@.body),
            at == ssa@.blocks[pre as int].insertion_point(),
            late@ == ssa@.late_defs(pre, at as int),
            along@ == ssa@.marked_defs(places@, marks@),
            r@.len() == k,
            forall|j: int|
                0 <= j < k ==> #[trigger] r@[j] == ssa@.still_hoistable(
                    info@,
                    pre,
                    places@,
                    marks@,
                )[j],
        decreases places@.len() - k,
    {
        let (b, i) = places[k];
        assert(ssa@.has_instr(places@[k as int].0 as int, places@[k as int].1 as int));
        assert(ssa.blocks@[b as int]@ == ssa@.blocks[b as int]);
        assert(ssa.blocks@[b as int].instrs@[i as int]@ == ssa@.op_at(places@[k as int]));
        let op: &SsaOp<T> = &ssa.blocks[b].instrs[i].op;
        let uses: Vec<SsaVarId> = op.uses();
        let stays: bool = marks[k] && check_defs_unused_before(ssa, op, pre, at)
            && check_reads_ready(&uses, &along, inside, late);
        r.push(stays);
        k = k + 1;
    }
    assert(r@ =~= ssa@.still_hoistable(info@, pre, places@, marks@));
    r
}

/// Returns, for each place, whether it can move together with the others.
fn find_hoistable<T: Target>(
    ssa: &SsaFunction<T>,
    info: &LoopInfo,
    pre: usize,
    places: &Vec<(usize, usize)>,
    candidates: &Vec<bool>,
    inside: &Vec<usize>,
) -> (r: Vec<bool>)
    requires
        pre < ssa@.blocks.len(),
        places_in_range(ssa@, places@),
        candidates@.len() == places@.len(),
        inside@ == ssa@.inside_defs(info@.body),
    ensures
        r@ == ssa@.hoistable_marks(info@, pre, places@, candidates@),
        r@.len() == places@.len(),
{
    assert(ssa.blocks@[pre as int]@ == ssa@.blocks[pre as int]);
    let at: usize = find_insertion_point(&ssa.blocks[pre]);
    let late: Vec<usize> = list_late_defs(&ssa.blocks[pre], at);
    let mut marks: Vec<bool> = copy_marks(candidates);
    loop
        invariant
            pre < ssa@.blocks.len(),
            places_in_range(ssa@, places@),
            inside@ == ssa@.inside_defs(info@.body),
            at == ssa@.blocks[pre as int].insertion_point(),
            late@ == ssa@.late_defs(pre, at as int),
            marks@.len() == places@.len(),
            ssa@.hoistable_marks(info@, pre, places@, marks@) == ssa@.hoistable_marks(
                info@,
                pre,
                places@,
                candidates@,
            ),
        decreases marked(marks@, places@.len()),
    {
        let fewer: Vec<bool> = mark_fewer(ssa, info, pre, places, &marks, inside, &late, at);
        if same_marks(&fewer, &marks) {
            return marks;
        }
        proof {
            lemma_fewer_marked(marks@, fewer@, places@.len());
            lemma_differs(marks@, fewer@);
        }
        marks = fewer;
    }
}

/// Returns whether control can go from a block to one with phi nodes.
fn check_leads_to_phis<T: Target>(ssa: &SsaFunction<T>, b: usize) -> (r: bool)
    requires
        b < ssa@.blocks.len(),
    ensures
        r == ssa@.leads_to_phis(b),
{
    assert(ssa.blocks@[b as int]@ == ssa@.blocks[b as int]);
    let successors: Vec<usize> = ssa.blocks[b].successors();
    let mut k: usize = 0;
    while k < successors.len()
        invariant
            k <= successors@.len(),
            successors@ == ssa@.blocks[b as int].successors(),
            forall|j: int|
                0 <= j < k ==> {
                    let to = #[trigger] ssa@.blocks[b as int].successors()[j];
                    !(to < ssa@.blocks.len() && ssa@.blocks[to as int].phis.len() > 0)
                },
        decreases successors@.len() - k,
    {
        let to: usize = successors[k];
        assert(to == ssa@.blocks[b as int].successors()[k as int]);
        if to < ssa.blocks.len() {
            assert(ssa.blocks@[to as int]@ == ssa@.blocks[to as int]);
            if ssa.blocks[to].phis.len() > 0 {
                return true;
            }
        }
        k = k + 1;
    }
    false
}

/// Returns whether a block would do nothing any more and leads to one with phi nodes.
fn check_would_be_bare<T: Target>(
    ssa: &SsaFunction<T>,
    places: &Vec<(usize, usize)>,
    marks: &Vec<bool>,
    b: usize,
) -> (r: bool)
    requires
        b < ssa@.blocks.len(),
        marks@.len() == places@.len(),
    ensures
        r == ssa@.would_be_bare(places@, marks@, b),
{
    assert(ssa.blocks@[b as int]@ == ssa@.blocks[b as int]);
    let mut count: usize = 0;
    let mut k: usize = 0;
    while k < places.len()
        invariant
            k <= places@.len(),
            marks@.len() == places@.len(),
            count <= k,
            count == ssa@.leaving_block(places@, marks@, b, k as nat),
        decreases places@.len() - k,
    {
        if marks[k] && places[k].0 == b {
            count = count + 1;
        }
        k = k + 1;
    }
    let block: &SsaBlock<T> = &ssa.blocks[b];
    let ghost f = block@.working_at();
    let mut working: usize = 0;
    let mut i: usize = 0;
    while i < block.instrs.len()
        invariant
            i <= block.instrs@.len(),
            f == block@.working_at(),
            working <= i,
            working == deadcode::total(f, i as nat),
        decreases block.instrs@.len() - i,
    {
        assert(block.instrs@[i as int]@ == block@.instrs[i as int]);
        let nop: bool = match &block.instrs[i].op {
            Op::Nop => true,
            _ => false,
        };
        if !nop && !block.instrs[i].is_terminator() {
            working = working + 1;
        }
        i = i + 1;
    }
    count >= working && check_leads_to_phis(ssa, b)
}

/// Returns the places of a loop that move before it.
fn find_moving<T: Target>(ssa: &SsaFunction<T>, info: &LoopInfo, pre: usize) -> (r: Vec<
    (usize, usize),
>)
    requires
        pre < ssa@.blocks.len(),
        info.header < ssa@.blocks.len(),
    ensures
        r@ == ssa@.moving(info@, pre),
        places_in_range(ssa@, r@),
{
    let places: Vec<(usize, usize)> = list_working_places(ssa, &info.body);
    let inside: Vec<usize> = loop_inside_defs(ssa, &info.body);
    let steady: Vec<bool> = find_loop_invariants(ssa, info, &places, &inside);
    let tainted: Vec<bool> = back_edge_tainted_vars(ssa, &info.body);
    let mut candidates: Vec<bool> = Vec::new();
    let mut k: usize = 0;
    while k < places.len()
        invariant
            k <= places@.len(),
            places_in_range(ssa@, places@),
            steady@.len() == places@.len(),
            tainted@.len() == ssa@.vars.len(),
            forall|v: int|
                0 <= v < tainted@.len() ==> #[trigger] tainted@[v] == ssa@.feeds_next_turn(
                    info@.body,
                    SsaVarId(v as usize),
                ),
            candidates@.len() == k,
            forall|j: int|
                0 <= j < k ==> #[trigger] candidates@[j] == (steady@[j] && ssa@.can_hoist(
                    info@,
                    places@[j],
                )),
        decreases places@.len() - k,
    {
        assert(ssa@.has_instr(places@[k as int].0 as int, places@[k as int].1 as int));
        let can: bool = steady[k] && check_can_hoist(ssa, info, &tainted, places[k]);
        candidates.push(can);
        k = k + 1;
    }
    assert(candidates@ =~= Seq::new(
        places@.len(),
        |k: int| steady@[k] && ssa@.can_hoist(info@, places@[k]),
    ));
    let marks: Vec<bool> = find_hoistable(ssa, info, pre, &places, &candidates, &inside);
    let ghost f = ssa@.moving_at(places@, marks@);
    let mut r: Vec<(usize, usize)> = Vec::new();
    let mut k: usize = 0;
    while k < places.len()
        invariant
            k <= places@.len(),
            places_in_range(ssa@, places@),
            marks@.len() == places@.len(),
            f == ssa@.moving_at(places@, marks@),
            r@ == seqs::flat(f, k as nat),
            places_in_range(ssa@, r@),
        decreases places@.len() - k,
    {
        let ghost before = r@;
        assert(ssa@.has_instr(places@[k as int].0 as int, places@[k as int].1 as int));
        if marks[k] && !check_would_be_bare(ssa, &places, &marks, places[k].0) {
            r.push(places[k]);
        }
        assert(r@ =~= before + f(k as int));
        k = k + 1;
    }
    r
}

/// Returns the last operation of a list that defines `v`.
fn find_producer<T: Target>(ops: &Vec<SsaOp<T>>, v: SsaVarId) -> (r: Option<usize>)
    ensures
        match r {
            Some(j) => producer(op_views(ops@), v, ops@.len()) == Some(j as int) && j < ops@.len(),
            None => producer(op_views(ops@), v, ops@.len()) is None,
        },
{
    let mut found: Option<usize> = None;
    let mut k: usize = 0;
    while k < ops.len()
        invariant
            k <= ops@.len(),
            match found {
                Some(j) => producer(op_views(ops@), v, k as nat) == Some(j as int) && j < k,
                None => producer(op_views(ops@), v, k as nat) is None,
            },
        decreases ops@.len() - k,
    {
        assert(op_views(ops@)[k as int] == ops@[k as int]@);
        let defs: Vec<SsaVarId> = ops[k].defs();
        if holds_var(&defs, v) {
            found = Some(k);
        }
        k = k + 1;
    }
    found
}

/// The operations of a list as mathematical values.
pub open spec fn op_views<T: Target>(ops: Seq<SsaOp<T>>) -> Seq<OpView<T>> {
    ops.map_values(|op: SsaOp<T>| op@)
}

/// Returns whether a variable is on a list.
fn holds_var(list: &Vec<SsaVarId>, v: SsaVarId) -> (r: bool)
    ensures
        r == list@.contains(v),
{
    let mut i: usize = 0;
    while i < list.len()
        invariant
            i <= list@.len(),
            forall|j: int| 0 <= j < i ==> list@[j] != v,
        decreases list@.len() - i,
    {
        if list[i] == v {
            assert(list@[i as int] == v);
            return true;
        }
        i = i + 1;
    }
    false
}

/// Returns whether what an operation reads is placed.
fn check_ready<T: Target>(ops: &Vec<SsaOp<T>>, placed: &Vec<bool>, i: usize) -> (r: bool)
    requires
        placed@.len() == ops@.len(),
        i < ops@.len(),
    ensures
        r == is_ready(op_views(ops@), placed@, i as int),
{
    if placed[i] {
        return false;
    }
    assert(op_views(ops@)[i as int] == ops@[i as int]@);
    let uses: Vec<SsaVarId> = ops[i].uses();
    let mut k: usize = 0;
    while k < uses.len()
        invariant
            k <= uses@.len(),
            placed@.len() == ops@.len(),
            i < ops@.len(),
            uses@ == op_views(ops@)[i as int].uses(),
            forall|j: int|
                0 <= j < k ==> {
                    match producer(
                        op_views(ops@),
                        #[trigger] op_views(ops@)[i as int].uses()[j],
                        ops@.len(),
                    ) {
                        Some(j) => j == i || placed@[j],
                        None => true,
                    }
                },
        decreases uses@.len() - k,
    {
        assert(uses@[k as int] == op_views(ops@)[i as int].uses()[k as int]);
        if let Some(j) = find_producer(ops, uses[k]) {
            if j != i && !placed[j] {
                return false;
            }
        }
        k = k + 1;
    }
    true
}

/// Returns the first operation that is ready.
fn find_ready<T: Target>(ops: &Vec<SsaOp<T>>, placed: &Vec<bool>) -> (r: Option<usize>)
    requires
        placed@.len() == ops@.len(),
    ensures
        match r {
            Some(i) => first_ready(op_views(ops@), placed@, ops@.len()) == Some(i as int) && i
                < ops@.len() && !placed@[i as int],
            None => first_ready(op_views(ops@), placed@, ops@.len()) is None,
        },
{
    let mut found: Option<usize> = None;
    let mut i: usize = 0;
    while i < ops.len()
        invariant
            i <= ops@.len(),
            placed@.len() == ops@.len(),
            match found {
                Some(k) => first_ready(op_views(ops@), placed@, i as nat) == Some(k as int) && k < i
                    && !placed@[k as int],
                None => first_ready(op_views(ops@), placed@, i as nat) is None,
            },
        decreases ops@.len() - i,
    {
        if found.is_none() && check_ready(ops, placed, i) {
            found = Some(i);
        }
        i = i + 1;
    }
    found
}

/// Numbers as integers.
pub open spec fn ints(list: Seq<usize>) -> Seq<int> {
    list.map_values(|i: usize| i as int)
}

/// Returns the order of operations in which each comes after what it reads.
fn topological_hoist_order<T: Target>(ops: &Vec<SsaOp<T>>) -> (r: Vec<usize>)
    ensures
        ints(r@) == hoist_order(op_views(ops@), none_placed(ops@.len())),
        forall|k: int| 0 <= k < r@.len() ==> (#[trigger] r@[k]) < ops@.len(),
{
    let mut placed: Vec<bool> = Vec::new();
    let mut k: usize = 0;
    while k < ops.len()
        invariant
            k <= ops@.len(),
            placed@ =~= none_placed(k as nat),
        decreases ops@.len() - k,
    {
        placed.push(false);
        k = k + 1;
    }
    let mut order: Vec<usize> = Vec::new();
    let ghost all = hoist_order(op_views(ops@), none_placed(ops@.len()));
    assert(ints(order@) + all =~= all);
    loop
        invariant
            placed@.len() == ops@.len(),
            all == hoist_order(op_views(ops@), none_placed(ops@.len())),
            ints(order@) + hoist_order(op_views(ops@), placed@) == all,
            forall|k: int| 0 <= k < order@.len() ==> (#[trigger] order@[k]) < ops@.len(),
        decreases closure::unmarked(placed@, placed@.len()),
    {
        let ghost before = order@;
        match find_ready(ops, &placed) {
            Some(i) => {
                proof {
                    closure::lemma_unmarked(placed@, i as int, placed@.len());
                    let next = placed@.update(i as int, true);
                    assert(hoist_order(op_views(ops@), placed@) == seq![i as int] + hoist_order(
                        op_views(ops@),
                        next,
                    ));
                    assert(ints(before.push(i)) + hoist_order(op_views(ops@), next) =~= ints(before)
                        + (seq![i as int] + hoist_order(op_views(ops@), next)));
                }
                order.push(i);
                placed.set(i, true);
            },
            None => {
                assert(ints(order@) =~= ints(before) + not_placed(placed@, 0));
                let mut k: usize = 0;
                while k < placed.len()
                    invariant
                        k <= placed@.len(),
                        placed@.len() == ops@.len(),
                        ints(order@) =~= ints(before) + not_placed(placed@, k as nat),
                        forall|k: int|
                            0 <= k < order@.len() ==> (#[trigger] order@[k]) < ops@.len(),
                    decreases placed@.len() - k,
                {
                    let ghost so_far = order@;
                    if !placed[k] {
                        order.push(k);
                        assert(ints(order@) =~= ints(so_far).push(k as int));
                    }
                    k = k + 1;
                }
                return order;
            },
        }
    }
}

/// Returns the operations at some places, each after what it reads.
fn order_ops<T: Target>(ssa: &SsaFunction<T>, places: &Vec<(usize, usize)>) -> (r: Vec<
    SsaInstruction<T>,
>)
    requires
        places_in_range(ssa@, places@),
    ensures
        r@.map_values(|i: SsaInstruction<T>| i@) == ssa@.ordered_ops(places@),
{
    let mut ops: Vec<SsaOp<T>> = Vec::new();
    let mut k: usize = 0;
    while k < places.len()
        invariant
            k <= places@.len(),
            places_in_range(ssa@, places@),
            op_views(ops@) =~= ssa@.ops_at(places@).take(k as int),
        decreases places@.len() - k,
    {
        let (b, i) = places[k];
        assert(ssa@.has_instr(places@[k as int].0 as int, places@[k as int].1 as int));
        assert(ssa.blocks@[b as int]@ == ssa@.blocks[b as int]);
        assert(ssa.blocks@[b as int].instrs@[i as int]@ == ssa@.op_at(places@[k as int]));
        assert(ops@.len() == k) by {
            assert(op_views(ops@).len() == k);
        }
        ops.push(ssa.blocks[b].instrs[i].op.duplicate());
        k = k + 1;
    }
    assert(op_views(ops@) =~= ssa@.ops_at(places@));
    let order: Vec<usize> = topological_hoist_order(&ops);
    let ghost goal = ssa@.ordered_ops(places@);
    let mut r: Vec<SsaInstruction<T>> = Vec::new();
    let mut k: usize = 0;
    while k < order.len()
        invariant
            k <= order@.len(),
            forall|k: int| 0 <= k < order@.len() ==> (#[trigger] order@[k]) < ops@.len(),
            op_views(ops@) == ssa@.ops_at(places@),
            ints(order@) == hoist_order(op_views(ops@), none_placed(ops@.len())),
            goal == ssa@.ordered_ops(places@),
            r@.len() == k,
            forall|j: int| 0 <= j < k ==> (#[trigger] r@[j])@ == goal[j],
        decreases order@.len() - k,
    {
        let i: usize = order[k];
        assert(ints(order@)[k as int] == i);
        assert(op_views(ops@)[i as int] == ops@[i as int]@);
        assert(op_views(ops@).len() == ops@.len());
        r.push(SsaInstruction::synthetic(ops[i].duplicate()));
        k = k + 1;
    }
    assert(ints(order@).len() == order@.len());
    assert(r@.map_values(|i: SsaInstruction<T>| i@) =~= goal);
    r
}

/// Returns whether some of the places stands in block `b`.
fn check_leaves_block<T: Target>(places: &Vec<(usize, usize)>, b: usize) -> (r: bool)
    ensures
        r == SsaView::<T>::leaves_block(places@, b as int),
{
    let mut k: usize = 0;
    while k < places.len()
        invariant
            k <= places@.len(),
            forall|j: int| 0 <= j < k ==> (#[trigger] places@[j]).0 != b,
        decreases places@.len() - k,
    {
        if places[k].0 == b {
            assert(places@[k as int].0 == b);
            return true;
        }
        k = k + 1;
    }
    false
}

/// Returns whether a block does nothing before its end.
fn check_only_ends<T: Target>(block: &SsaBlock<T>) -> (r: bool)
    ensures
        r == block@.only_ends(),
{
    let mut i: usize = 0;
    while i < block.instrs.len()
        invariant
            i <= block.instrs@.len(),
            forall|j: int|
                0 <= j < i ==> (#[trigger] block@.instrs[j]).ends_block() || block@.instrs[j]
                    is Nop,
        decreases block.instrs@.len() - i,
    {
        assert(block.instrs@[i as int]@ == block@.instrs[i as int]);
        let nop: bool = match &block.instrs[i].op {
            Op::Nop => true,
            _ => false,
        };
        if !nop && !block.instrs[i].is_terminator() {
            assert(!(block@.instrs[i as int].ends_block() || block@.instrs[i as int] is Nop));
            return false;
        }
        i = i + 1;
    }
    true
}

/// Returns what the last operation of a block leads to.
fn list_last_targets<T: Target>(ssa: &SsaFunction<T>, b: usize) -> (r: Vec<usize>)
    requires
        b < ssa@.blocks.len(),
    ensures
        r@ == ssa@.last_targets(b as int),
{
    assert(ssa.blocks@[b as int]@ == ssa@.blocks[b as int]);
    let count: usize = ssa.blocks[b].instrs.len();
    if count > 0 {
        assert(ssa.blocks@[b as int].instrs@[count - 1]@ == ssa@.blocks[b as int].instrs.last());
        ssa.blocks[b].instrs[count - 1].op.successors()
    } else {
        Vec::new()
    }
}

/// Makes phi operands from blocks that lost what they did come from the preheader.
fn bypass_bare_blocks<T: Target>(ssa: &mut SsaFunction<T>, places: &Vec<(usize, usize)>, pre: usize)
    ensures
        final(ssa)@ == old(ssa)@.with_bare_blocks_bypassed(
            places@,
            pre,
            old(ssa)@.blocks.len(),
        ),
{
    let ghost s = ssa@;
    let n: usize = ssa.blocks.len();
    let mut b: usize = 0;
    while b < n
        invariant
            b <= n,
            n == s.blocks.len(),
            ssa@ == s.with_bare_blocks_bypassed(places@, pre, b as nat),
            ssa@.blocks.len() == n,
        decreases n - b,
    {
        let ghost before = ssa@;
        assert(ssa.blocks@[b as int]@ == ssa@.blocks[b as int]);
        if check_leaves_block::<T>(places, b) && check_only_ends(&ssa.blocks[b]) {
            let targets: Vec<usize> = list_last_targets(ssa, b);
            let mut k: usize = 0;
            while k < targets.len()
                invariant
                    k <= targets@.len(),
                    ssa@ == before.with_moved_phis(targets@, b, pre, k as nat),
                    ssa@.blocks.len() == n,
                decreases targets@.len() - k,
            {
                let to: usize = targets[k];
                if to < ssa.blocks.len() {
                    ssa.move_predecessor(to, b, pre);
                }
                k = k + 1;
            }
        }
        b = b + 1;
    }
}

/// Moves the operations at some places to the preheader.
fn hoist<T: Target>(ssa: &mut SsaFunction<T>, places: &Vec<(usize, usize)>, pre: usize)
    requires
        pre < old(ssa)@.blocks.len(),
        places_in_range(old(ssa)@, places@),
    ensures
        final(ssa)@ == old(ssa)@.hoisted(places@, pre),
{
    let ghost s = ssa@;
    assert(ssa.blocks@[pre as int]@ == s.blocks[pre as int]);
    let at: usize = find_insertion_point(&ssa.blocks[pre]);
    let mut moved: Vec<SsaInstruction<T>> = order_ops(ssa, places);
    let mut k: usize = 0;
    while k < places.len()
        invariant
            k <= places@.len(),
            places_in_range(s, places@),
            ssa@ == s.with_nops(places@, k as nat),
            ssa@.blocks.len() == s.blocks.len(),
            forall|b: int|
                0 <= b < s.blocks.len() ==> (#[trigger] ssa@.blocks[b]).instrs.len()
                    == s.blocks[b].instrs.len(),
        decreases places@.len() - k,
    {
        let (b, i) = places[k];
        assert(s.has_instr(places@[k as int].0 as int, places@[k as int].1 as int));
        assert(ssa@.blocks[b as int].instrs.len() == s.blocks[b as int].instrs.len());
        ssa.set_op(b, i, Op::Nop);
        k = k + 1;
    }
    let ghost emptied = ssa@;
    let ghost ops = s.ordered_ops(places@);
    assert(ssa.blocks@[pre as int]@ == emptied.blocks[pre as int]);
    assert(emptied.blocks[pre as int].instrs.len() == s.blocks[pre as int].instrs.len());
    let mut block: SsaBlock<T> = ssa.blocks[pre].duplicate();
    let ghost whole = block.instrs@;
    let mut tail: Vec<SsaInstruction<T>> = block.instrs.split_off(at);
    let ghost head = block.instrs@;
    let ghost rest = tail@;
    let ghost middle = moved@;
    block.instrs.append(&mut moved);
    block.instrs.append(&mut tail);
    assert(block@.instrs =~= emptied.blocks[pre as int].instrs.take(at as int) + ops
        + emptied.blocks[pre as int].instrs.skip(at as int)) by {
        assert(block.instrs@ =~= head + middle + rest);
        assert(head =~= whole.take(at as int));
        assert(rest =~= whole.skip(at as int));
        assert(whole.map_values(|i: SsaInstruction<T>| i@)
            =~= emptied.blocks[pre as int].instrs);
    }
    ssa.set_block(pre, block);
    bypass_bare_blocks(ssa, places, pre);
}

/// Returns the preheader that the invariant code of a loop moves to, if it does.
fn find_hoisting_target<T: Target>(ssa: &SsaFunction<T>, info: &LoopInfo) -> (r: Option<usize>)
    ensures
        r == ssa@.hoisting_target(info@),
        r matches Some(pre) ==> pre < ssa@.blocks.len() && info.header < ssa@.blocks.len(),
{
    let pre: usize = match info.preheader {
        Some(pre) => pre,
        None => return None,
    };
    if pre >= ssa.blocks.len() || info.header >= ssa.blocks.len() {
        return None;
    }
    let targets: Vec<usize> = list_last_targets(ssa, pre);
    if !holds(&targets, info.header) {
        return None;
    }
    assert(ssa.blocks@[info.header as int]@ == ssa@.blocks[info.header as int]);
    match ssa.blocks[info.header].terminator_op() {
        Some(Op::Switch { .. }) => None,
        _ => Some(pre),
    }
}

/// Moves what a loop computes the same way each time before it, and returns how many instructions
/// moved.
fn hoist_loop<T: Target>(ssa: &mut SsaFunction<T>, info: &LoopInfo) -> (r: usize)
    ensures
        final(ssa)@ == old(ssa)@.loop_hoisted(info@).0,
        r == old(ssa)@.loop_hoisted(info@).1,
{
    let pre: usize = match find_hoisting_target(ssa, info) {
        Some(pre) => pre,
        None => return 0,
    };
    let places: Vec<(usize, usize)> = find_moving(ssa, info, pre);
    if places.len() == 0 {
        return 0;
    }
    let before: SsaFunction<T> = ssa.duplicate();
    hoist(ssa, &places, pre);
    if ssa.commit(before) {
        places.len()
    } else {
        0
    }
}

/// Moves what loops compute the same way each time before them, the deepest loops first.
///
/// Returns whether an instruction moved.
pub fn run<T: Target>(
    ssa: &mut SsaFunction<T>,
    method: &T::MethodRef,
    events: &mut EventLog<T>,
) -> (r: bool)
    ensures
        ({
            let outcome = old(ssa)@.invariants_hoisted(*method);
            &&& final(ssa)@ == outcome.ssa
            &&& final(events)@ == old(events)@ + outcome.events
            &&& r == outcome.changed
        }),
{
    let ghost s = ssa@;
    let forest: Vec<LoopInfo> = analyze_loops(ssa);
    let ghost list = loops::loop_views(forest@);
    let mut total: usize = 0;
    let mut k: usize = 0;
    while k < forest.len()
        invariant
            k <= forest@.len(),
            list == loops::loop_views(forest@),
            ssa@ == s.loops_hoisted(list, k as nat).0,
            total == deadcode::capped(s.loops_hoisted(list, k as nat).1),
        decreases forest@.len() - k,
    {
        assert(list[k as int] == forest@[k as int]@);
        let moved: usize = hoist_loop(ssa, &forest[k]);
        total = total.saturating_add(moved);
        k = k + 1;
    }
    if total > 0 {
        let mut message: String = String::from_str("LICM: hoisted ");
        text::push_number(&mut message, total);
        message.append(" loop-invariant instructions");
        events.record_at(EventKind::InstructionRemoved, method, 0, message);
        assert(events@ =~= old(events)@ + s.invariants_hoisted(*method).events);
        true
    } else {
        assert(events@ =~= old(events)@ + Seq::empty());
        false
    }
}

} // verus!
