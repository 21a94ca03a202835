//! Block merging.
//!
//! Blocks that only jump elsewhere are bypassed and emptied, and a block that control can enter only
//! from one block that always continues there is appended to it.
use crate::events::{EventKind, EventLog, EventView};
use crate::ir::block::{BlockView, SsaBlock, SsaInstruction};
use crate::ir::function::{SsaExceptionHandler, SsaFunction, SsaView};
use crate::ir::ops::{Op, OpView, SsaOp};
use crate::ir::phi::{PhiNode, PhiOperand, PhiView};
use crate::passes::deadcode;
use crate::passes::outcome::Outcome;
use crate::passes::utils;
use crate::passes::utils::resolve_chain;
use crate::seqs;
use crate::target::Target;
use crate::text;
use std::collections::BTreeMap;
use vstd::prelude::*;
use vstd::string::StringExecFns;

verus! {

/// The operation with jumps to each of the first `n` blocks `t` going to `ends[t]`, in turn.
pub open spec fn bypassing<T: Target>(op: OpView<T>, ends: Seq<usize>, n: nat) -> OpView<T>
    decreases n,
{
    if n == 0 {
        op
    } else {
        let before = bypassing(op, ends, (n - 1) as nat);
        if ends[n - 1] != n - 1 {
            before.redirected((n - 1) as usize, ends[n - 1])
        } else {
            before
        }
    }
}

/// A jump to block `t` is changed on the way.
pub open spec fn bypasses<T: Target>(op: OpView<T>, ends: Seq<usize>, t: int) -> bool {
    ends[t] != t && bypassing(op, ends, t as nat).successors().contains(t as usize)
}

/// A jump to one of the first `n` blocks is changed on the way.
pub open spec fn bypasses_some<T: Target>(op: OpView<T>, ends: Seq<usize>, n: nat) -> bool {
    exists|t: int| 0 <= t < n && #[trigger] bypasses(op, ends, t)
}

/// The position of the first operand from `pred` among the first `n`.
pub open spec fn first_from(operands: Seq<PhiOperand>, pred: usize, n: nat) -> Option<int>
    decreases n,
{
    if n == 0 {
        None
    } else {
        match first_from(operands, pred, (n - 1) as nat) {
            Some(i) => Some(i),
            None => if operands[n - 1].predecessor == pred {
                Some(n - 1)
            } else {
                None
            },
        }
    }
}

impl PhiView {
    /// The phi node with its operand from `from` coming from each of `preds` instead.
    pub open spec fn spread(self, from: usize, preds: Seq<usize>) -> PhiView {
        match first_from(self.operands, from, self.operands.len()) {
            Some(i) => {
                let value = self.operands[i].value;
                PhiView {
                    operands: self.operands.update(
                        i,
                        PhiOperand { value, predecessor: preds[0] },
                    ) + Seq::new(
                        (preds.len() - 1) as nat,
                        |j: int| PhiOperand { value, predecessor: preds[j + 1] },
                    ),
                    ..self
                }
            },
            None => self,
        }
    }
}

impl<T: Target> SsaView<T> {
    /// For each block, where a jump to it ends up.
    pub open spec fn jump_ends(self, skip_entry: bool) -> Seq<usize> {
        let trampolines = self.trampolines(skip_entry);
        Seq::new(
            self.blocks.len(),
            |t: int|
                if trampolines.contains_key(t as usize) {
                    utils::chain_end(trampolines, t as usize)
                } else {
                    t as usize
                },
        )
    }

    /// Block `b`, where its instruction at `i` jumps to `t` and is changed.
    pub open spec fn leaves_at(self, ends: Seq<usize>, t: int, b: int) -> spec_fn(int) -> Seq<
        usize,
    > {
        |i: int|
            if bypasses(self.blocks[b].instrs[i], ends, t) {
                seq![b as usize]
            } else {
                Seq::empty()
            }
    }

    /// Block `b`, once for each of its jumps to `t` that is changed.
    pub open spec fn leaves(self, ends: Seq<usize>, t: int) -> spec_fn(int) -> Seq<usize> {
        |b: int| seqs::flat(self.leaves_at(ends, t, b), self.blocks[b].instrs.len())
    }

    /// The blocks whose jumps to `t` are changed.
    pub open spec fn bypassing_blocks(self, ends: Seq<usize>, t: int) -> Seq<usize> {
        seqs::flat(self.leaves(ends, t), self.blocks.len())
    }

    /// The function with all jumps bypassing the blocks that only jump elsewhere.
    pub open spec fn with_jumps_bypassing(self, ends: Seq<usize>) -> SsaView<T> {
        SsaView {
            blocks: self.blocks.map_values(
                |b: BlockView<T>|
                    b.with_instrs(
                        b.instrs.map_values(|op: OpView<T>| bypassing(op, ends, ends.len())),
                    ),
            ),
            ..self
        }
    }

    /// The function with the phi operands from the first `n` blocks of `ends` coming from the blocks
    /// in `preds`.
    pub open spec fn with_phis_spread(
        self,
        ends: Seq<usize>,
        preds: Seq<Seq<usize>>,
        n: nat,
    ) -> SsaView<T>
        decreases n,
    {
        if n == 0 {
            self
        } else {
            let before = self.with_phis_spread(ends, preds, (n - 1) as nat);
            let end = ends[n - 1];
            if preds[n - 1].len() > 0 && end < before.blocks.len() {
                before.with_block(
                    end as int,
                    before.blocks[end as int].with_phis(
                        before.blocks[end as int].phis.map_values(
                            |p: PhiView| p.spread((n - 1) as usize, preds[n - 1]),
                        ),
                    ),
                )
            } else {
                before
            }
        }
    }

    /// The event of the instruction at `i` of block `b`, where it is changed.
    pub open spec fn bypass_event(
        self,
        method: T::MethodRef,
        ends: Seq<usize>,
        b: int,
    ) -> spec_fn(int) -> Seq<EventView<T>> {
        |i: int|
            {
                let op = self.blocks[b].instrs[i];
                if bypasses_some(op, ends, ends.len()) {
                    seq![
                        EventView::at(
                            EventKind::BranchSimplified,
                            method,
                            b,
                            "redirected through trampoline: "@ + text::number_list(op.successors())
                                + " -> "@ + text::number_list(
                                bypassing(op, ends, ends.len()).successors(),
                            ),
                        ),
                    ]
                } else {
                    Seq::empty()
                }
            }
    }

    /// The events of the changed jumps of block `b`.
    pub open spec fn bypass_events(self, method: T::MethodRef, ends: Seq<usize>) -> spec_fn(
        int,
    ) -> Seq<EventView<T>> {
        |b: int| seqs::flat(self.bypass_event(method, ends, b), self.blocks[b].instrs.len())
    }

    /// The event of block `b`, where it is emptied.
    pub open spec fn clear_events(
        self,
        method: T::MethodRef,
        trampolines: Map<usize, usize>,
    ) -> spec_fn(int) -> Seq<EventView<T>> {
        |b: int|
            if trampolines.contains_key(b as usize) && self.blocks[b].instrs.len() > 0 {
                seq![
                    EventView::at(
                        EventKind::BlockRemoved,
                        method,
                        b,
                        "cleared trampoline block B"@ + text::decimal(b as nat),
                    ),
                ]
            } else {
                Seq::empty()
            }
    }

    /// The function with the given blocks emptied.
    pub open spec fn with_cleared(self, trampolines: Map<usize, usize>) -> SsaView<T> {
        SsaView {
            blocks: Seq::new(
                self.blocks.len(),
                |b: int|
                    if trampolines.contains_key(b as usize) {
                        self.blocks[b].with_instrs(Seq::empty())
                    } else {
                        self.blocks[b]
                    },
            ),
            ..self
        }
    }

    /// The blocks that bypass each block.
    pub open spec fn all_bypassing(self, ends: Seq<usize>) -> Seq<Seq<usize>> {
        Seq::new(self.blocks.len(), |t: int| self.bypassing_blocks(ends, t))
    }

    /// What one round of bypassing the blocks that only jump elsewhere does.
    pub open spec fn bypassed(self, method: T::MethodRef) -> Outcome<T> {
        let trampolines = self.trampolines(true);
        let ends = self.jump_ends(true);
        let moved = self.with_jumps_bypassing(ends).with_phis_spread(
            ends,
            self.all_bypassing(ends),
            self.blocks.len(),
        );
        let events = seqs::flat(self.bypass_events(method, ends), self.blocks.len()) + seqs::flat(
            moved.clear_events(method, trampolines),
            self.blocks.len(),
        );
        Outcome { ssa: moved.with_cleared(trampolines), events, changed: events.len() > 0 }
    }

    /// What at most `rounds` rounds of bypassing do.
    pub open spec fn bypassed_repeatedly(self, method: T::MethodRef, rounds: nat) -> Outcome<T>
        decreases rounds,
    {
        if rounds == 0 {
            self.untouched()
        } else {
            let first = self.bypassed(method);
            if first.changed {
                let rest = first.ssa.bypassed_repeatedly(method, (rounds - 1) as nat);
                Outcome { ssa: rest.ssa, events: first.events + rest.events, changed: true }
            } else {
                first
            }
        }
    }
}

/// Returns the position of the first operand from `pred`.
fn find_operand_from(phi: &PhiNode, pred: usize) -> (r: Option<usize>)
    ensures
        match r {
            Some(i) => first_from(phi@.operands, pred, phi@.operands.len()) == Some(i as int)
                && i < phi@.operands.len(),
            None => first_from(phi@.operands, pred, phi@.operands.len()) is None,
        },
{
    let mut found: Option<usize> = None;
    let mut i: usize = 0;
    while i < phi.operands.len()
        invariant
            i <= phi.operands@.len(),
            match found {
                Some(k) => first_from(phi@.operands, pred, i as nat) == Some(k as int) && k < i,
                None => first_from(phi@.operands, pred, i as nat) is None,
            },
        decreases phi.operands@.len() - i,
    {
        if found.is_none() && phi.operands[i].predecessor == pred {
            found = Some(i);
        }
        i = i + 1;
    }
    found
}

/// Makes the operand of a phi node from `from` come from each of `preds` instead.
fn spread_phi(phi: &mut PhiNode, from: usize, preds: &Vec<usize>)
    requires
        preds@.len() > 0,
    ensures
        final(phi)@ == old(phi)@.spread(from, preds@),
{
    if let Some(i) = find_operand_from(phi, from) {
        let value = phi.operands[i].value;
        phi.operands.set(i, PhiOperand { value, predecessor: preds[0] });
        let ghost base = phi@.operands;
        let mut j: usize = 1;
        while j < preds.len()
            invariant
                1 <= j <= preds@.len(),
                phi.result == old(phi).result,
                phi.origin == old(phi).origin,
                phi@.operands =~= base + Seq::new(
                    (j - 1) as nat,
                    |k: int| PhiOperand { value, predecessor: preds@[k + 1] },
                ),
            decreases preds@.len() - j,
        {
            phi.add_operand(PhiOperand { value, predecessor: preds[j] });
            j = j + 1;
        }
        assert(phi@.operands =~= old(phi)@.spread(from, preds@).operands);
    }
}

/// Makes the phi operands of a block from `from` come from each of `preds` instead.
pub(crate) fn spread_block<T: Target>(
    ssa: &mut SsaFunction<T>,
    index: usize,
    from: usize,
    preds: &Vec<usize>,
)
    requires
        preds@.len() > 0,
        index < old(ssa)@.blocks.len(),
    ensures
        final(ssa)@ == old(ssa)@.with_block(
            index as int,
            old(ssa)@.blocks[index as int].with_phis(
                old(ssa)@.blocks[index as int].phis.map_values(
                    |p: PhiView| p.spread(from, preds@),
                ),
            ),
        ),
{
    let ghost block = ssa@.blocks[index as int];
    let mut copy: SsaBlock<T> = ssa.blocks[index].duplicate();
    let n: usize = copy.phis.len();
    assert(n == block.phis.len());
    let mut p: usize = 0;
    while p < n
        invariant
            preds@.len() > 0,
            p <= n,
            n == block.phis.len(),
            copy.phis@.len() == n,
            copy@ == block.with_phis(copy@.phis),
            forall|j: int|
                0 <= j < p ==> #[trigger] copy@.phis[j] == block.phis[j].spread(from, preds@),
            forall|j: int| p <= j < n ==> #[trigger] copy@.phis[j] == block.phis[j],
        decreases n - p,
    {
        let ghost before = copy@;
        assert(copy.phis@[p as int]@ == copy@.phis[p as int]);
        spread_phi(&mut copy.phis[p], from, preds);
        assert(copy@.phis =~= before.phis.update(
            p as int,
            before.phis[p as int].spread(from, preds@),
        ));
        p = p + 1;
    }
    assert(copy@.phis =~= block.phis.map_values(|p: PhiView| p.spread(from, preds@)));
    ssa.set_block(index, copy);
}

/// Makes one operation bypass the blocks that only jump elsewhere, and notes the blocks bypassed.
pub(crate) fn redirect_op<T: Target>(
    op: &mut SsaOp<T>,
    b: usize,
    ends: &Vec<usize>,
    preds: &mut Vec<Vec<usize>>,
) -> (r: bool)
    requires
        old(preds)@.len() == ends@.len(),
    ensures
        final(op)@ == bypassing(old(op)@, ends@, ends@.len()),
        r == bypasses_some(old(op)@, ends@, ends@.len()),
        final(preds)@.len() == old(preds)@.len(),
        forall|t: int|
            0 <= t < ends@.len() ==> (#[trigger] final(preds)@[t])@ == (if bypasses(
                old(op)@,
                ends@,
                t,
            ) {
                old(preds)@[t]@.push(b)
            } else {
                old(preds)@[t]@
            }),
{
    let mut changed: bool = false;
    let mut t: usize = 0;
    while t < ends.len()
        invariant
            t <= ends@.len(),
            preds@.len() == ends@.len(),
            old(preds)@.len() == ends@.len(),
            op@ == bypassing(old(op)@, ends@, t as nat),
            changed == bypasses_some(old(op)@, ends@, t as nat),
            forall|k: int|
                0 <= k < t ==> (#[trigger] preds@[k])@ == (if bypasses(old(op)@, ends@, k) {
                    old(preds)@[k]@.push(b)
                } else {
                    old(preds)@[k]@
                }),
            forall|k: int| t <= k < ends@.len() ==> (#[trigger] preds@[k]) == old(preds)@[k],
        decreases ends@.len() - t,
    {
        let end: usize = ends[t];
        let ghost was = changed;
        let hit: bool = if end != t {
            op.redirect_target(t, end)
        } else {
            false
        };
        assert(hit == bypasses(old(op)@, ends@, t as int));
        if hit {
            preds[t].push(b);
            changed = true;
            assert(bypasses_some(old(op)@, ends@, (t + 1) as nat));
        } else {
            assert(bypasses_some(old(op)@, ends@, (t + 1) as nat) == was) by {
                if was {
                    let k = choose|k: int| 0 <= k < t && #[trigger] bypasses(old(op)@, ends@, k);
                    assert(0 <= k < t + 1 && bypasses(old(op)@, ends@, k));
                }
            }
        }
        t = t + 1;
    }
    changed
}

/// Makes the jumps of one block bypass the blocks that only jump elsewhere.
fn redirect_block<T: Target>(
    ssa: &mut SsaFunction<T>,
    b: usize,
    ends: &Vec<usize>,
    preds: &mut Vec<Vec<usize>>,
    method: &T::MethodRef,
    events: &mut EventLog<T>,
)
    requires
        b < old(ssa)@.blocks.len(),
        old(preds)@.len() == ends@.len(),
    ensures
        final(ssa)@ == old(ssa)@.with_block(
            b as int,
            old(ssa)@.with_jumps_bypassing(ends@).blocks[b as int],
        ),
        final(preds)@.len() == old(preds)@.len(),
        forall|t: int|
            0 <= t < ends@.len() ==> (#[trigger] final(preds)@[t])@ == old(preds)@[t]@ + (old(
                ssa,
            )@.leaves(ends@, t))(b as int),
        final(events)@ == old(events)@ + (old(ssa)@.bypass_events(*method, ends@))(b as int),
{
    let ghost s = ssa@;
    let ghost event = s.bypass_event(*method, ends@, b as int);
    let n: usize = ssa.blocks[b].instrs.len();
    assert(n == s.blocks[b as int].instrs.len()) by {
        assert(ssa.blocks@[b as int]@ == s.blocks[b as int]);
    }
    assert(old(events)@ + seqs::flat(event, 0) =~= old(events)@);
    assert(s.with_block(b as int, s.blocks[b as int]).blocks =~= s.blocks);
    assert forall|t: int| 0 <= t < ends@.len() implies (#[trigger] preds@[t])@ == old(preds)@[t]@
        + seqs::flat(s.leaves_at(ends@, t, b as int), 0) by {
        assert(preds@[t]@ =~= old(preds)@[t]@ + Seq::empty());
    }
    let mut i: usize = 0;
    while i < n
        invariant
            i <= n,
            b < s.blocks.len(),
            s == old(ssa)@,
            n == s.blocks[b as int].instrs.len(),
            event == s.bypass_event(*method, ends@, b as int),
            ssa@ == s.with_block(b as int, ssa@.blocks[b as int]),
            ssa@.blocks.len() == s.blocks.len(),
            ssa@.blocks[b as int] == s.blocks[b as int].with_instrs(ssa@.blocks[b as int].instrs),
            ssa@.blocks[b as int].instrs.len() == n,
            forall|j: int|
                0 <= j < i ==> #[trigger] ssa@.blocks[b as int].instrs[j] == bypassing(
                    s.blocks[b as int].instrs[j],
                    ends@,
                    ends@.len(),
                ),
            forall|j: int|
                i <= j < n ==> #[trigger] ssa@.blocks[b as int].instrs[j]
                    == s.blocks[b as int].instrs[j],
            preds@.len() == ends@.len(),
            old(preds)@.len() == ends@.len(),
            forall|t: int|
                0 <= t < ends@.len() ==> (#[trigger] preds@[t])@ == old(preds)@[t]@ + seqs::flat(
                    s.leaves_at(ends@, t, b as int),
                    i as nat,
                ),
            events@ == old(events)@ + seqs::flat(event, i as nat),
        decreases n - i,
    {
        let ghost before = ssa@;
        let ghost noted = preds@;
        let ghost logged = events@;
        assert(ssa.blocks@[b as int]@ == before.blocks[b as int]);
        assert(ssa.blocks@[b as int].instrs@[i as int]@ == before.blocks[b as int].instrs[i as int]);
        let old_targets: Vec<usize> = ssa.blocks[b].instrs[i].op.successors();
        let mut op: SsaOp<T> = ssa.blocks[b].instrs[i].op.duplicate();
        let changed: bool = redirect_op(&mut op, b, ends, preds);
        if changed {
            let new_targets: Vec<usize> = op.successors();
            let mut message: String = String::from_str("redirected through trampoline: ");
            text::push_number_list(&mut message, &old_targets);
            message.append(" -> ");
            text::push_number_list(&mut message, &new_targets);
            events.record_at(EventKind::BranchSimplified, method, b, message);
        }
        ssa.set_op(b, i, op);
        assert(events@ =~= logged + event(i as int));
        assert(old(events)@ + seqs::flat(event, i as nat) + event(i as int) =~= old(events)@
            + seqs::flat(event, (i + 1) as nat));
        assert forall|t: int| 0 <= t < ends@.len() implies (#[trigger] preds@[t])@ == old(
            preds,
        )@[t]@ + seqs::flat(s.leaves_at(ends@, t, b as int), (i + 1) as nat) by {
            let leave = s.leaves_at(ends@, t, b as int);
            assert(noted[t]@ == old(preds)@[t]@ + seqs::flat(leave, i as nat));
            assert(preds@[t]@ =~= noted[t]@ + leave(i as int));
            assert(old(preds)@[t]@ + seqs::flat(leave, i as nat) + leave(i as int) =~= old(
                preds,
            )@[t]@ + seqs::flat(leave, (i + 1) as nat));
        }
        assert(ssa@.blocks =~= s.with_block(b as int, ssa@.blocks[b as int]).blocks);
        i = i + 1;
    }
    assert(ssa@.blocks[b as int].instrs =~= s.with_jumps_bypassing(
        ends@,
    ).blocks[b as int].instrs);
}

/// Returns, for each block, where a jump to it ends up.
pub(crate) fn find_jump_ends<T: Target>(
    ssa: &SsaFunction<T>,
    skip_entry: bool,
    trampolines: &BTreeMap<usize, usize>,
) -> (r: Vec<usize>)
    requires
        trampolines@ == ssa@.trampolines(skip_entry),
    ensures
        r@ == ssa@.jump_ends(skip_entry),
{
    broadcast use vstd::std_specs::btree::group_btree_axioms;

    let mut ends: Vec<usize> = Vec::new();
    let mut t: usize = 0;
    while t < ssa.blocks.len()
        invariant
            t <= ssa.blocks@.len(),
            trampolines@ == ssa@.trampolines(skip_entry),
            ends@.len() == t,
            forall|j: int| 0 <= j < t ==> #[trigger] ends@[j] == ssa@.jump_ends(skip_entry)[j],
        decreases ssa.blocks@.len() - t,
    {
        let end: usize = match trampolines.get(&t) {
            Some(_) => resolve_chain(trampolines, t),
            None => t,
        };
        ends.push(end);
        t = t + 1;
    }
    assert(ends@ =~= ssa@.jump_ends(skip_entry));
    ends
}

/// The lists in a list of lists.
pub open spec fn lists(v: Seq<Vec<usize>>) -> Seq<Seq<usize>> {
    v.map_values(|l: Vec<usize>| l@)
}

/// Makes all jumps bypass the blocks that only jump elsewhere.
fn redirect_to_ultimate_targets<T: Target>(
    ssa: &mut SsaFunction<T>,
    trampolines: &BTreeMap<usize, usize>,
    method: &T::MethodRef,
    events: &mut EventLog<T>,
)
    requires
        trampolines@ == old(ssa)@.trampolines(true),
    ensures
        final(ssa)@ == old(ssa)@.with_jumps_bypassing(old(ssa)@.jump_ends(true)).with_phis_spread(
            old(ssa)@.jump_ends(true),
            old(ssa)@.all_bypassing(old(ssa)@.jump_ends(true)),
            old(ssa)@.blocks.len(),
        ),
        final(events)@ == old(events)@ + seqs::flat(
            old(ssa)@.bypass_events(*method, old(ssa)@.jump_ends(true)),
            old(ssa)@.blocks.len(),
        ),
{
    let ends: Vec<usize> = find_jump_ends(ssa, true, trampolines);
    let ghost s = ssa@;
    let ghost all = s.with_jumps_bypassing(ends@);
    let ghost event = s.bypass_events(*method, ends@);
    let n: usize = ssa.blocks.len();
    let mut preds: Vec<Vec<usize>> = Vec::new();
    let mut t: usize = 0;
    while t < n
        invariant
            t <= n,
            preds@.len() == t,
            forall|j: int| 0 <= j < t ==> (#[trigger] preds@[j])@.len() == 0,
        decreases n - t,
    {
        preds.push(Vec::new());
        t = t + 1;
    }
    assert(old(events)@ + seqs::flat(event, 0) =~= old(events)@);
    assert forall|t: int| 0 <= t < n implies (#[trigger] preds@[t])@ == seqs::flat(
        s.leaves(ends@, t),
        0,
    ) by {
        assert(preds@[t]@ =~= Seq::empty());
    }
    let mut b: usize = 0;
    while b < n
        invariant
            b <= n,
            s == old(ssa)@,
            n == s.blocks.len(),
            ends@.len() == n,
            preds@.len() == n,
            all == s.with_jumps_bypassing(ends@),
            event == s.bypass_events(*method, ends@),
            ssa@ == (SsaView { blocks: ssa@.blocks, ..s }),
            ssa@.blocks.len() == n,
            forall|j: int| 0 <= j < b ==> #[trigger] ssa@.blocks[j] == all.blocks[j],
            forall|j: int| b <= j < n ==> #[trigger] ssa@.blocks[j] == s.blocks[j],
            forall|t: int|
                0 <= t < n ==> (#[trigger] preds@[t])@ == seqs::flat(
                    s.leaves(ends@, t),
                    b as nat,
                ),
            events@ == old(events)@ + seqs::flat(event, b as nat),
        decreases n - b,
    {
        let ghost before = ssa@;
        let ghost noted = preds@;
        let ghost logged = events@;
        redirect_block(ssa, b, &ends, &mut preds, method, events);
        proof {
            assert(before.blocks[b as int] == s.blocks[b as int]);
            assert(before.bypass_event(*method, ends@, b as int) =~= s.bypass_event(
                *method,
                ends@,
                b as int,
            ));
            assert((before.bypass_events(*method, ends@))(b as int) == event(b as int));
            assert(old(events)@ + seqs::flat(event, b as nat) + event(b as int) =~= old(events)@
                + seqs::flat(event, (b + 1) as nat));
            assert forall|t: int| 0 <= t < n implies (#[trigger] preds@[t])@ == seqs::flat(
                s.leaves(ends@, t),
                (b + 1) as nat,
            ) by {
                assert(before.leaves_at(ends@, t, b as int) =~= s.leaves_at(ends@, t, b as int));
                assert(noted[t]@ == seqs::flat(s.leaves(ends@, t), b as nat));
            }
        }
        b = b + 1;
    }
    assert(ssa@.blocks =~= all.blocks);
    assert(lists(preds@) =~= s.all_bypassing(ends@));
    let ghost noted = lists(preds@);
    let mut t: usize = 0;
    while t < n
        invariant
            t <= n,
            n == s.blocks.len(),
            ends@.len() == n,
            preds@.len() == n,
            noted == lists(preds@),
            ssa@ == all.with_phis_spread(ends@, noted, t as nat),
        decreases n - t,
    {
        assert(noted[t as int] == preds@[t as int]@);
        let end: usize = ends[t];
        if preds[t].len() > 0 && end < ssa.blocks.len() {
            spread_block(ssa, end, t, &preds[t]);
        }
        t = t + 1;
    }
}

/// Empties the blocks that only jump elsewhere.
fn clear_trampolines<T: Target>(
    ssa: &mut SsaFunction<T>,
    trampolines: &BTreeMap<usize, usize>,
    method: &T::MethodRef,
    events: &mut EventLog<T>,
)
    ensures
        final(ssa)@ == old(ssa)@.with_cleared(trampolines@),
        final(events)@ == old(events)@ + seqs::flat(
            old(ssa)@.clear_events(*method, trampolines@),
            old(ssa)@.blocks.len(),
        ),
{
    broadcast use vstd::std_specs::btree::group_btree_axioms;

    let ghost s = ssa@;
    let ghost event = s.clear_events(*method, trampolines@);
    let ghost cleared = s.with_cleared(trampolines@);
    let n: usize = ssa.blocks.len();
    assert(old(events)@ + seqs::flat(event, 0) =~= old(events)@);
    let mut b: usize = 0;
    while b < n
        invariant
            b <= n,
            s == old(ssa)@,
            n == s.blocks.len(),
            event == s.clear_events(*method, trampolines@),
            cleared == s.with_cleared(trampolines@),
            ssa@ == (SsaView { blocks: ssa@.blocks, ..s }),
            ssa@.blocks.len() == n,
            forall|j: int| 0 <= j < b ==> #[trigger] ssa@.blocks[j] == cleared.blocks[j],
            forall|j: int| b <= j < n ==> #[trigger] ssa@.blocks[j] == s.blocks[j],
            events@ == old(events)@ + seqs::flat(event, b as nat),
        decreases n - b,
    {
        let ghost before = ssa@;
        let ghost logged = events@;
        assert(ssa.blocks@[b as int]@ == before.blocks[b as int]);
        assert(before.blocks[b as int] == s.blocks[b as int]);
        if let Some(_) = trampolines.get(&b) {
            if ssa.blocks[b].instrs.len() > 0 {
                ssa.blocks[b].clear_instructions();
                assert(ssa@.blocks =~= before.blocks.update(b as int, cleared.blocks[b as int]));
                let mut message: String = String::from_str("cleared trampoline block B");
                text::push_number(&mut message, b);
                events.record_at(EventKind::BlockRemoved, method, b, message);
            } else {
                assert(s.blocks[b as int].instrs =~= Seq::empty());
            }
        }
        assert(events@ =~= logged + event(b as int));
        assert(old(events)@ + seqs::flat(event, b as nat) + event(b as int) =~= old(events)@
            + seqs::flat(event, (b + 1) as nat));
        b = b + 1;
    }
    assert(ssa@.blocks =~= cleared.blocks);
}

/// Moving phi operands keeps the blocks and their instructions.
pub proof fn lemma_spread_len<T: Target>(
    s: SsaView<T>,
    ends: Seq<usize>,
    preds: Seq<Seq<usize>>,
    n: nat,
)
    ensures
        s.with_phis_spread(ends, preds, n).blocks.len() == s.blocks.len(),
        forall|b: int|
            0 <= b < s.blocks.len() ==> (#[trigger] s.with_phis_spread(
                ends,
                preds,
                n,
            ).blocks[b]).instrs == s.blocks[b].instrs,
    decreases n,
{
    if n > 0 {
        lemma_spread_len(s, ends, preds, (n - 1) as nat);
    }
}

/// Bypasses the blocks that only jump elsewhere, once.
fn run_trampoline_iteration<T: Target>(
    ssa: &mut SsaFunction<T>,
    method: &T::MethodRef,
    events: &mut EventLog<T>,
) -> (r: bool)
    ensures
        ({
            let outcome = old(ssa)@.bypassed(*method);
            &&& final(ssa)@ == outcome.ssa
            &&& final(events)@ == old(events)@ + outcome.events
            &&& r == outcome.changed
        }),
{
    let trampolines: BTreeMap<usize, usize> = ssa.find_trampoline_blocks(true);
    let mut log: EventLog<T> = EventLog::new();
    redirect_to_ultimate_targets(ssa, &trampolines, method, &mut log);
    proof {
        lemma_spread_len(
            old(ssa)@.with_jumps_bypassing(old(ssa)@.jump_ends(true)),
            old(ssa)@.jump_ends(true),
            old(ssa)@.all_bypassing(old(ssa)@.jump_ends(true)),
            old(ssa)@.blocks.len(),
        );
    }
    clear_trampolines(ssa, &trampolines, method, &mut log);
    assert(log@ =~= old(ssa)@.bypassed(*method).events);
    let changed: bool = !log.is_empty();
    events.append_all(log);
    changed
}

/// The copies that stand for the first `n` phi nodes of a block with one way in.
pub open spec fn phi_copies<T: Target>(phis: Seq<PhiView>, n: nat) -> Seq<OpView<T>>
    decreases n,
{
    if n == 0 {
        Seq::empty()
    } else {
        let before = phi_copies(phis, (n - 1) as nat);
        let phi = phis[n - 1];
        if phi.operands.len() > 0 && phi.operands[0].value != phi.result {
            before.push(Op::Copy { dest: phi.result, src: phi.operands[0].value })
        } else {
            before
        }
    }
}

/// How often `x` occurs among the first `n` of `s`.
pub open spec fn occurrences(s: Seq<usize>, x: usize, n: nat) -> nat
    decreases n,
{
    if n == 0 {
        0
    } else {
        occurrences(s, x, (n - 1) as nat) + (if s[n - 1] == x {
            1nat
        } else {
            0nat
        })
    }
}

/// A protected region, its handler or its filter begins at block `b`.
pub open spec fn region_begins(handlers: Seq<SsaExceptionHandler>, b: usize) -> bool {
    exists|h: int|
        0 <= h < handlers.len() && ((#[trigger] handlers[h]).try_start_block == Some(b)
            || handlers[h].handler_start_block == Some(b) || handlers[h].filter_start_block
            == Some(b))
}

/// A protected region or its handler ends at block `b`.
pub open spec fn region_ends(handlers: Seq<SsaExceptionHandler>, b: usize) -> bool {
    exists|h: int|
        0 <= h < handlers.len() && ((#[trigger] handlers[h]).try_end_block == Some(b)
            || handlers[h].handler_end_block == Some(b))
}

impl<T: Target> SsaView<T> {
    /// How often the first `n` blocks lead to `b`.
    pub open spec fn ways_from(self, b: usize, n: nat) -> nat
        decreases n,
    {
        if n == 0 {
            0
        } else {
            let successors = self.blocks[n - 1].successors();
            self.ways_from(b, (n - 1) as nat) + occurrences(successors, b, successors.len())
        }
    }

    /// In how many ways control can enter block `b`.
    pub open spec fn ways_into(self, b: usize) -> nat {
        self.ways_from(b, self.blocks.len()) + (if b == 0 {
            1nat
        } else {
            0nat
        })
    }

    /// The block that can be appended to block `a`.
    pub open spec fn appendable(self, a: usize) -> Option<usize> {
        match self.blocks[a as int].terminator() {
            Some(Op::Jump { target }) => if target < self.blocks.len() && target != a
                && self.ways_into(target) == 1 && !region_ends(self.handlers, a) && !region_begins(
                self.handlers,
                target,
            ) && self.blocks[target as int].instrs.len() > 0 {
                Some(target)
            } else {
                None
            },
            _ => None,
        }
    }

    /// The pairs of blocks to merge among the first `n`, no block of a pair beginning another.
    pub open spec fn merge_pairs(self, n: nat) -> Seq<(usize, usize)>
        decreases n,
    {
        if n == 0 {
            Seq::empty()
        } else {
            let before = self.merge_pairs((n - 1) as nat);
            let a = (n - 1) as usize;
            if pairs_hold(before, a) {
                before
            } else {
                match self.appendable(a) {
                    Some(b) => before.push((a, b)),
                    None => before,
                }
            }
        }
    }

    /// The function with block `b` appended to block `a`.
    pub open spec fn merged(self, a: usize, b: usize) -> SsaView<T> {
        let block_a = self.blocks[a as int];
        let block_b = self.blocks[b as int];
        let kept = if block_a.instrs.len() > 0 && block_a.instrs.last() is Jump {
            block_a.instrs.drop_last()
        } else {
            block_a.instrs
        };
        let instrs = kept + phi_copies(block_b.phis, block_b.phis.len()) + block_b.instrs;
        SsaView {
            blocks: Seq::new(
                self.blocks.len(),
                |k: int|
                    if k == a {
                        block_a.with_instrs(instrs).redirected(b, a)
                    } else if k == b {
                        block_b.with_phis(Seq::empty()).with_instrs(Seq::empty())
                    } else {
                        self.blocks[k].moved(b, a)
                    },
            ),
            ..self
        }
    }

    /// The function with the first `n` pairs merged, one after the other.
    pub open spec fn all_merged(self, pairs: Seq<(usize, usize)>, n: nat) -> SsaView<T>
        decreases n,
    {
        if n == 0 {
            self
        } else {
            self.all_merged(pairs, (n - 1) as nat).merged(pairs[n - 1].0, pairs[n - 1].1)
        }
    }

    /// What at most `rounds` rounds of merging do.
    pub open spec fn coalesced(self, method: T::MethodRef, rounds: nat) -> Outcome<T>
        decreases rounds,
    {
        if rounds == 0 {
            self.untouched()
        } else {
            let pairs = self.merge_pairs(self.blocks.len());
            if pairs.len() == 0 {
                self.untouched()
            } else {
                let rest = self.all_merged(pairs, pairs.len()).coalesced(
                    method,
                    (rounds - 1) as nat,
                );
                Outcome {
                    ssa: rest.ssa,
                    events: merge_events(pairs, method) + rest.events,
                    changed: true,
                }
            }
        }
    }

    /// What becomes of an entry block that only jumps elsewhere.
    pub open spec fn with_entry_inlined(self, method: T::MethodRef) -> Outcome<T> {
        if self.blocks.len() == 0 {
            self.untouched()
        } else {
            match self.blocks[0].trampoline() {
                None => self.untouched(),
                Some(target) => if self.predecessors(target) == seq![0usize] && target
                    < self.blocks.len() && self.blocks[target as int].phis.len() == 0 {
                    let entry = self.blocks[0].with_instrs(
                        self.blocks[target as int].instrs,
                    ).redirected(target, 0);
                    let inlined = self.with_block(0, entry);
                    Outcome {
                        ssa: inlined.with_block(
                            target as int,
                            inlined.blocks[target as int].with_instrs(Seq::empty()),
                        ),
                        events: seq![
                            EventView::at(
                                EventKind::BlockRemoved,
                                method,
                                0,
                                "inlined entry trampoline: B0 jump to B"@ + text::decimal(
                                    target as nat,
                                ) + " merged into B0"@,
                            ),
                        ],
                        changed: true,
                    }
                } else {
                    Outcome {
                        ssa: self,
                        events: seq![
                            EventView::at(
                                EventKind::BranchSimplified,
                                method,
                                0,
                                "entry block is trampoline to B"@ + text::decimal(target as nat)
                                    + " (regenerating clean IL)"@,
                            ),
                        ],
                        changed: true,
                    }
                },
            }
        }
    }

    /// What the pass makes of the function.
    pub open spec fn merged_blocks(self, method: T::MethodRef, rounds: nat) -> Outcome<T> {
        let bypassed = self.bypassed_repeatedly(method, rounds);
        let entry = bypassed.ssa.with_entry_inlined(method);
        let coalesced = entry.ssa.coalesced(method, rounds);
        Outcome {
            ssa: coalesced.ssa,
            events: bypassed.events + entry.events + coalesced.events,
            changed: bypassed.changed || entry.changed || coalesced.changed,
        }
    }
}

/// Block `a` belongs to one of the pairs.
pub open spec fn pairs_hold(pairs: Seq<(usize, usize)>, a: usize) -> bool {
    exists|k: int| 0 <= k < pairs.len() && ((#[trigger] pairs[k]).0 == a || pairs[k].1 == a)
}

/// The events of the merged pairs.
pub open spec fn merge_events<T: Target>(pairs: Seq<(usize, usize)>, method: T::MethodRef) -> Seq<
    EventView<T>,
> {
    pairs.map_values(
        |p: (usize, usize)|
            EventView::at(
                EventKind::BlockRemoved,
                method,
                p.1 as int,
                "coalesced B"@ + text::decimal(p.1 as nat) + " into B"@ + text::decimal(p.0 as nat),
            ),
    )
}

/// Appends the target of an entry block that only jumps elsewhere, where that is safe.
fn simplify_entry_trampoline<T: Target>(
    ssa: &mut SsaFunction<T>,
    method: &T::MethodRef,
    events: &mut EventLog<T>,
) -> (r: bool)
    ensures
        ({
            let outcome = old(ssa)@.with_entry_inlined(*method);
            &&& final(ssa)@ == outcome.ssa
            &&& final(events)@ == old(events)@ + outcome.events
            &&& r == outcome.changed
        }),
{
    if ssa.blocks.len() == 0 {
        assert(events@ =~= old(events)@ + Seq::empty());
        return false;
    }
    assert(ssa.blocks@[0]@ == ssa@.blocks[0]);
    let target: usize = match ssa.blocks[0].is_trampoline() {
        Some(t) => t,
        None => {
            assert(events@ =~= old(events)@ + Seq::empty());
            return false;
        },
    };
    let ghost s = ssa@;
    let preds: Vec<usize> = ssa.block_predecessors(target);
    let only_entry: bool = preds.len() == 1 && preds[0] == 0;
    assert(only_entry == (s.predecessors(target) == seq![0usize])) by {
        if only_entry {
            assert(preds@ =~= seq![0usize]);
        }
    }
    if only_entry && target < ssa.blocks.len() && ssa.blocks[target].phis.len() == 0 {
        assert(ssa.blocks@[target as int]@ == s.blocks[target as int]);
        let moved: SsaBlock<T> = ssa.blocks[target].duplicate();
        let mut entry: SsaBlock<T> = ssa.blocks[0].duplicate();
        entry.instrs = moved.instrs;
        assert(entry@ == s.blocks[0].with_instrs(s.blocks[target as int].instrs));
        entry.redirect_target(target, 0);
        ssa.set_block(0, entry);
        let ghost inlined = ssa@;
        assert(inlined.blocks.len() == s.blocks.len());
        assert(ssa.blocks@[target as int]@ == inlined.blocks[target as int]);
        ssa.blocks[target].clear_instructions();
        assert(ssa@.blocks =~= inlined.blocks.update(
            target as int,
            inlined.blocks[target as int].with_instrs(Seq::empty()),
        ));
        let mut message: String = String::from_str("inlined entry trampoline: B0 jump to B");
        text::push_number(&mut message, target);
        message.append(" merged into B0");
        events.record_at(EventKind::BlockRemoved, method, 0, message);
    } else {
        let mut message: String = String::from_str("entry block is trampoline to B");
        text::push_number(&mut message, target);
        message.append(" (regenerating clean IL)");
        events.record_at(EventKind::BranchSimplified, method, 0, message);
    }
    assert(events@ =~= old(events)@ + s.with_entry_inlined(*method).events);
    true
}

/// Returns, for each block, in how many ways control can enter it.
fn count_ways<T: Target>(ssa: &SsaFunction<T>) -> (r: Vec<usize>)
    ensures
        r@.len() == ssa@.blocks.len(),
        forall|b: int|
            0 <= b < r@.len() ==> (#[trigger] r@[b] == 1 <==> ssa@.ways_into(b as usize) == 1),
{
    let n: usize = ssa.blocks.len();
    let mut counts: Vec<usize> = Vec::new();
    let mut k: usize = 0;
    while k < n
        invariant
            k <= n,
            counts@.len() == k,
            forall|b: int| 0 <= b < k ==> #[trigger] counts@[b] == 0,
        decreases n - k,
    {
        counts.push(0);
        k = k + 1;
    }
    let mut a: usize = 0;
    while a < n
        invariant
            a <= n,
            n == ssa.blocks@.len(),
            counts@.len() == n,
            forall|b: int|
                0 <= b < n ==> #[trigger] counts@[b] == capped(ssa@.ways_from(b as usize, a as nat)),
        decreases n - a,
    {
        assert(ssa.blocks@[a as int]@ == ssa@.blocks[a as int]);
        let successors: Vec<usize> = ssa.blocks[a].successors();
        let mut i: usize = 0;
        while i < successors.len()
            invariant
                i <= successors@.len(),
                a < n,
                n == ssa@.blocks.len(),
                counts@.len() == n,
                successors@ == ssa@.blocks[a as int].successors(),
                forall|b: int|
                    0 <= b < n ==> #[trigger] counts@[b] == capped(
                        ssa@.ways_from(b as usize, a as nat) + occurrences(
                            successors@,
                            b as usize,
                            i as nat,
                        ),
                    ),
            decreases successors@.len() - i,
        {
            let to: usize = successors[i];
            if to < n {
                let count: usize = counts[to].saturating_add(1);
                counts.set(to, count);
            }
            i = i + 1;
        }
        a = a + 1;
    }
    if n > 0 {
        let count: usize = counts[0].saturating_add(1);
        counts.set(0, count);
    }
    counts
}

/// The number, or the greatest that can be written where it is greater.
pub open spec fn capped(n: nat) -> int {
    if n > usize::MAX {
        usize::MAX as int
    } else {
        n as int
    }
}

/// Returns whether a region begins at block `b`.
fn is_region_start(handlers: &Vec<SsaExceptionHandler>, b: usize) -> (r: bool)
    ensures
        r == region_begins(handlers@, b),
{
    let mut h: usize = 0;
    while h < handlers.len()
        invariant
            h <= handlers@.len(),
            forall|k: int|
                0 <= k < h ==> (#[trigger] handlers@[k]).try_start_block != Some(b)
                    && handlers@[k].handler_start_block != Some(b)
                    && handlers@[k].filter_start_block != Some(b),
        decreases handlers@.len() - h,
    {
        let handler: &SsaExceptionHandler = &handlers[h];
        assert(*handler == handlers@[h as int]);
        if is_block(handler.try_start_block, b) || is_block(handler.handler_start_block, b)
            || is_block(handler.filter_start_block, b) {
            return true;
        }
        h = h + 1;
    }
    false
}

/// Returns whether a region ends at block `b`.
fn is_region_end(handlers: &Vec<SsaExceptionHandler>, b: usize) -> (r: bool)
    ensures
        r == region_ends(handlers@, b),
{
    let mut h: usize = 0;
    while h < handlers.len()
        invariant
            h <= handlers@.len(),
            forall|k: int|
                0 <= k < h ==> (#[trigger] handlers@[k]).try_end_block != Some(b)
                    && handlers@[k].handler_end_block != Some(b),
        decreases handlers@.len() - h,
    {
        let handler: &SsaExceptionHandler = &handlers[h];
        assert(*handler == handlers@[h as int]);
        if is_block(handler.try_end_block, b) || is_block(handler.handler_end_block, b) {
            return true;
        }
        h = h + 1;
    }
    false
}

/// Returns whether a block is named and is `b`.
fn is_block(named: Option<usize>, b: usize) -> (r: bool)
    ensures
        r == (named == Some(b)),
{
    match named {
        Some(k) => k == b,
        None => false,
    }
}

/// Returns the pairs of blocks to merge.
fn find_pairs<T: Target>(ssa: &SsaFunction<T>) -> (r: Vec<(usize, usize)>)
    ensures
        r@ == ssa@.merge_pairs(ssa@.blocks.len()),
        forall|k: int|
            0 <= k < r@.len() ==> (#[trigger] r@[k]).0 < ssa@.blocks.len() && r@[k].1
                < ssa@.blocks.len() && r@[k].0 != r@[k].1,
{
    let counts: Vec<usize> = count_ways(ssa);
    let n: usize = ssa.blocks.len();
    let mut pairs: Vec<(usize, usize)> = Vec::new();
    let mut consumed: Vec<bool> = Vec::new();
    let mut k: usize = 0;
    while k < n
        invariant
            k <= n,
            consumed@.len() == k,
            forall|b: int| 0 <= b < k ==> !#[trigger] consumed@[b],
        decreases n - k,
    {
        consumed.push(false);
        k = k + 1;
    }
    let mut a: usize = 0;
    while a < n
        invariant
            a <= n,
            n == ssa@.blocks.len(),
            n == ssa.blocks@.len(),
            counts@.len() == n,
            forall|b: int|
                0 <= b < n ==> (#[trigger] counts@[b] == 1 <==> ssa@.ways_into(b as usize) == 1),
            consumed@.len() == n,
            forall|b: int|
                0 <= b < n ==> #[trigger] consumed@[b] == pairs_hold(pairs@, b as usize),
            pairs@ == ssa@.merge_pairs(a as nat),
            forall|k: int|
                0 <= k < pairs@.len() ==> (#[trigger] pairs@[k]).0 < n && pairs@[k].1 < n
                    && pairs@[k].0 != pairs@[k].1,
        decreases n - a,
    {
        assert(ssa.blocks@[a as int]@ == ssa@.blocks[a as int]);
        if !consumed[a] {
            let found: Option<usize> = match ssa.blocks[a].terminator_op() {
                Some(Op::Jump { target }) => Some(*target),
                _ => None,
            };
            if let Some(b) = found {
                if b < n && b != a && counts[b] == 1 && !is_region_end(&ssa.handlers, a)
                    && !is_region_start(&ssa.handlers, b) && ssa.blocks[b].instrs.len() > 0 {
                    assert(ssa.blocks@[b as int]@ == ssa@.blocks[b as int]);
                    assert(ssa@.appendable(a) == Some(b));
                    let ghost before = pairs@;
                    pairs.push((a, b));
                    consumed.set(a, true);
                    consumed.set(b, true);
                    assert forall|j: int| 0 <= j < n implies #[trigger] consumed@[j] == pairs_hold(
                        pairs@,
                        j as usize,
                    ) by {
                        assert(pairs@[before.len() as int] == (a, b));
                        assert(forall|k: int| 0 <= k < before.len() ==> pairs@[k] == before[k]);
                        if pairs_hold(before, j as usize) {
                            let k = choose|k: int|
                                0 <= k < before.len() && ((#[trigger] before[k]).0 == j as usize
                                    || before[k].1 == j as usize);
                            assert(pairs@[k] == before[k]);
                        }
                    }
                } else {
                    assert(b < n ==> ssa.blocks@[b as int]@ == ssa@.blocks[b as int]);
                    assert(ssa@.appendable(a) is None);
                }
            }
        }
        a = a + 1;
    }
    pairs
}

/// Appends block `b` to block `a`.
fn merge_pair<T: Target>(ssa: &mut SsaFunction<T>, a: usize, b: usize)
    requires
        a < old(ssa)@.blocks.len(),
        b < old(ssa)@.blocks.len(),
        a != b,
    ensures
        final(ssa)@ == old(ssa)@.merged(a, b),
{
    let ghost s = ssa@;
    let ghost goal = s.merged(a, b);
    let n: usize = ssa.blocks.len();
    assert(ssa.blocks@[a as int]@ == s.blocks[a as int]);
    assert(ssa.blocks@[b as int]@ == s.blocks[b as int]);
    let mut block_a: SsaBlock<T> = ssa.blocks[a].duplicate();
    let mut block_b: SsaBlock<T> = ssa.blocks[b].duplicate();
    let count: usize = block_a.instrs.len();
    if count > 0 {
        assert(block_a.instrs@[count - 1]@ == block_a@.instrs.last());
        let is_jump: bool = match &block_a.instrs[count - 1].op {
            Op::Jump { .. } => true,
            _ => false,
        };
        if is_jump {
            let _ = block_a.instrs.pop();
            assert(block_a@.instrs =~= s.blocks[a as int].instrs.drop_last());
        }
    }
    let ghost kept = block_a@.instrs;
    let mut p: usize = 0;
    assert(kept + phi_copies(s.blocks[b as int].phis, 0) =~= kept);
    while p < block_b.phis.len()
        invariant
            p <= block_b.phis@.len(),
            block_b@ == s.blocks[b as int],
            block_a@ == s.blocks[a as int].with_instrs(block_a@.instrs),
            block_a@.instrs == kept + phi_copies(block_b@.phis, p as nat),
        decreases block_b.phis@.len() - p,
    {
        assert(block_b@.phis[p as int] == block_b.phis@[p as int]@);
        let ghost before = block_a@.instrs;
        let phi: &PhiNode = &block_b.phis[p];
        if phi.operands.len() > 0 && phi.operands[0].value != phi.result {
            block_a.add_instruction(
                SsaInstruction::synthetic(
                    Op::Copy { dest: phi.result, src: phi.operands[0].value },
                ),
            );
        }
        assert(block_a@.instrs =~= kept + phi_copies(block_b@.phis, (p + 1) as nat));
        p = p + 1;
    }
    let ghost copied = block_a@.instrs;
    let ghost rest = block_b@.instrs;
    block_a.instrs.append(&mut block_b.instrs);
    assert(block_a@.instrs =~= copied + rest);
    block_a.redirect_target(b, a);
    block_b.clear_instructions();
    block_b.clear_phis();
    ssa.set_block(a, block_a);
    ssa.set_block(b, block_b);
    assert(ssa@.blocks[a as int] == goal.blocks[a as int]);
    assert(ssa@.blocks[b as int] == goal.blocks[b as int]);
    let mut k: usize = 0;
    while k < n
        invariant
            k <= n,
            n == s.blocks.len(),
            a < n,
            b < n,
            goal == s.merged(a, b),
            ssa@ == (SsaView { blocks: ssa@.blocks, ..s }),
            ssa@.blocks.len() == n,
            ssa@.blocks[a as int] == goal.blocks[a as int],
            ssa@.blocks[b as int] == goal.blocks[b as int],
            forall|j: int| 0 <= j < k ==> #[trigger] ssa@.blocks[j] == goal.blocks[j],
            forall|j: int|
                k <= j < n && j != a && j != b ==> #[trigger] ssa@.blocks[j] == s.blocks[j],
        decreases n - k,
    {
        if k != a && k != b {
            ssa.move_predecessor(k, b, a);
        }
        k = k + 1;
    }
    assert(ssa@.blocks =~= goal.blocks);
}

/// Appends blocks to those that always continue there, and returns how many.
fn coalesce_blocks<T: Target>(
    ssa: &mut SsaFunction<T>,
    method: &T::MethodRef,
    events: &mut EventLog<T>,
    max_iterations: usize,
) -> (r: usize)
    ensures
        ({
            let outcome = old(ssa)@.coalesced(*method, max_iterations as nat);
            &&& final(ssa)@ == outcome.ssa
            &&& final(events)@ == old(events)@ + outcome.events
            &&& r == deadcode::capped(outcome.events.len())
            &&& (r > 0) == outcome.changed
        }),
    decreases max_iterations,
{
    let ghost s = ssa@;
    if max_iterations == 0 {
        assert(events@ =~= old(events)@ + Seq::empty());
        return 0;
    }
    let pairs: Vec<(usize, usize)> = find_pairs(ssa);
    if pairs.len() == 0 {
        assert(events@ =~= old(events)@ + Seq::empty());
        return 0;
    }
    let ghost merges = merge_events::<T>(pairs@, *method);
    assert(events@ =~= old(events)@ + merges.take(0));
    let mut k: usize = 0;
    while k < pairs.len()
        invariant
            k <= pairs@.len(),
            merges == merge_events::<T>(pairs@, *method),
            forall|k: int|
                0 <= k < pairs@.len() ==> (#[trigger] pairs@[k]).0 < s.blocks.len() && pairs@[k].1
                    < s.blocks.len() && pairs@[k].0 != pairs@[k].1,
            ssa@ == s.all_merged(pairs@, k as nat),
            ssa@.blocks.len() == s.blocks.len(),
            events@ == old(events)@ + merges.take(k as int),
        decreases pairs@.len() - k,
    {
        let (a, b) = pairs[k];
        assert(pairs@[k as int] == (a, b));
        let ghost logged = events@;
        merge_pair(ssa, a, b);
        let mut message: String = String::from_str("coalesced B");
        text::push_number(&mut message, b);
        message.append(" into B");
        text::push_number(&mut message, a);
        events.record_at(EventKind::BlockRemoved, method, b, message);
        assert(events@ =~= old(events)@ + merges.take((k + 1) as int));
        k = k + 1;
    }
    let ghost logged = events@;
    let rest: usize = coalesce_blocks(ssa, method, events, max_iterations - 1);
    assert(merges.take(pairs@.len() as int) =~= merges);
    assert(events@ =~= old(events)@ + s.coalesced(*method, max_iterations as nat).events);
    pairs.len().saturating_add(rest)
}

/// Bypasses the blocks that only jump elsewhere until none is left.
fn bypass_trampolines<T: Target>(
    ssa: &mut SsaFunction<T>,
    method: &T::MethodRef,
    events: &mut EventLog<T>,
    max_iterations: usize,
) -> (r: bool)
    ensures
        ({
            let outcome = old(ssa)@.bypassed_repeatedly(*method, max_iterations as nat);
            &&& final(ssa)@ == outcome.ssa
            &&& final(events)@ == old(events)@ + outcome.events
            &&& r == outcome.changed
        }),
    decreases max_iterations,
{
    let ghost s = ssa@;
    if max_iterations == 0 {
        assert(events@ =~= old(events)@ + Seq::empty());
        return false;
    }
    if !run_trampoline_iteration(ssa, method, events) {
        return false;
    }
    let _ = bypass_trampolines(ssa, method, events, max_iterations - 1);
    assert(events@ =~= old(events)@ + s.bypassed_repeatedly(
        *method,
        max_iterations as nat,
    ).events);
    true
}

/// Bypasses blocks that only jump elsewhere, then appends blocks to those that always continue there.
///
/// Returns whether a jump was changed or a block was merged.
pub fn run<T: Target>(
    ssa: &mut SsaFunction<T>,
    method: &T::MethodRef,
    events: &mut EventLog<T>,
    max_iterations: usize,
) -> (r: bool)
    ensures
        ({
            let outcome = old(ssa)@.merged_blocks(*method, max_iterations as nat);
            &&& final(ssa)@ == outcome.ssa
            &&& final(events)@ == old(events)@ + outcome.events
            &&& r == outcome.changed
        }),
{
    let bypassed: bool = bypass_trampolines(ssa, method, events, max_iterations);
    let entry: bool = simplify_entry_trampoline(ssa, method, events);
    let coalesced: usize = coalesce_blocks(ssa, method, events, max_iterations);
    assert(events@ =~= old(events)@ + old(ssa)@.merged_blocks(
        *method,
        max_iterations as nat,
    ).events);
    bypassed || entry || coalesced > 0
}

/// Merging neither adds nor removes blocks or variables, and a merged block ends up empty.
pub proof fn merging_keeps_blocks<T: Target>(ssa: SsaView<T>, a: usize, b: usize)
    requires
        a < ssa.blocks.len(),
        b < ssa.blocks.len(),
        a != b,
    ensures
        ssa.merged(a, b).blocks.len() == ssa.blocks.len(),
        ssa.merged(a, b).vars == ssa.vars,
        ssa.merged(a, b).blocks[b as int].instrs.len() == 0,
        ssa.merged(a, b).blocks[b as int].phis.len() == 0,
{
}

} // verus!
