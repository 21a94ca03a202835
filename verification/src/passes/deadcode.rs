//! Dead code elimination, for one function and across functions.
use crate::analysis::closure;
use crate::analysis::liveness::{self, compute_live_variables};
use crate::events::{EventKind, EventLog, EventView};
use crate::ir::block::{BlockView, SsaBlock, SsaInstruction};
use crate::ir::function::{self, SsaFunction, SsaView};
use crate::ir::ops::{Op, OpView, SsaOp};
use crate::ir::phi::{PhiNode, PhiOperand, PhiView};
use crate::ir::variable::SsaVarId;
use crate::passes::outcome::Outcome;
use crate::seqs;
use crate::target::Target;
use crate::text;
use crate::world::{CallView, World};
use vstd::prelude::*;
use vstd::string::StringExecFns;

verus! {

/// What one step of removal leaves behind, with the number of changes it made.
pub struct Removal<T: Target> {
    pub ssa: SsaView<T>,
    pub events: Seq<EventView<T>>,
    pub count: nat,
}

/// The number, or the greatest that can be returned where it is greater.
pub open spec fn capped(n: nat) -> int {
    if n > usize::MAX {
        usize::MAX as int
    } else {
        n as int
    }
}

/// How many of the first `n` pieces hold something.
pub open spec fn total(f: spec_fn(int) -> nat, n: nat) -> nat
    decreases n,
{
    if n == 0 {
        0
    } else {
        total(f, (n - 1) as nat) + f(n - 1)
    }
}

/// One number that stands for a block and a position in it.
pub open spec fn mixed_location(b: int, i: int) -> int {
    let scaled = capped((b * 1000) as nat);
    capped((scaled + i) as nat)
}

/// Returns one number that stands for a block and a position in it.
fn mix_location(b: usize, i: usize) -> (r: usize)
    ensures
        r == mixed_location(b as int, i as int),
{
    let scaled: usize = match b.checked_mul(1000) {
        Some(n) => n,
        None => usize::MAX,
    };
    scaled.saturating_add(i)
}

/// Where the code of a block that nothing can reach begins, if there is any.
pub open spec fn dead_from<T: Target>(instrs: Seq<OpView<T>>, n: nat) -> Option<int>
    decreases n,
{
    if n == 0 {
        None
    } else {
        match dead_from(instrs, (n - 1) as nat) {
            Some(i) => Some(i),
            None => if instrs[n - 1].ends_block() && n < instrs.len() {
                Some(n as int)
            } else {
                None
            },
        }
    }
}

impl<T: Target> SsaView<T> {
    /// Block `b` with where its unreachable code begins, if it has any.
    pub open spec fn dead_tail(self) -> spec_fn(int) -> Seq<(usize, usize)> {
        |b: int|
            match dead_from(self.blocks[b].instrs, self.blocks[b].instrs.len()) {
                Some(i) => seq![(b as usize, i as usize)],
                None => Seq::empty(),
            }
    }

    /// The blocks that hold code behind an operation that ends the block.
    pub open spec fn dead_tails(self) -> Seq<(usize, usize)> {
        seqs::flat(self.dead_tail(), self.blocks.len())
    }
}

/// Unreachable code begins right behind the first operation that ends the block.
pub proof fn dead_code_follows_first_end<T: Target>(instrs: Seq<OpView<T>>, n: nat)
    requires
        n <= instrs.len(),
    ensures
        match dead_from(instrs, n) {
            Some(i) => 0 < i <= n && i < instrs.len() && instrs[i - 1].ends_block() && forall|
                j: int,
            |
                0 <= j < i - 1 ==> !(#[trigger] instrs[j]).ends_block(),
            None => forall|j: int|
                0 <= j < n && j + 1 < instrs.len() ==> !(#[trigger] instrs[j]).ends_block(),
        },
    decreases n,
{
    if n > 0 {
        dead_code_follows_first_end(instrs, (n - 1) as nat);
    }
}

/// Returns where the code of a block that nothing can reach begins, if there is any.
pub(crate) fn find_dead_from<T: Target>(block: &SsaBlock<T>) -> (r: Option<usize>)
    ensures
        match r {
            Some(k) => dead_from(block@.instrs, block@.instrs.len()) == Some(k as int),
            None => dead_from(block@.instrs, block@.instrs.len()) is None,
        },
{
    let mut found: Option<usize> = None;
    let mut i: usize = 0;
    while i < block.instrs.len()
        invariant
            i <= block.instrs@.len(),
            match found {
                Some(k) => dead_from(block@.instrs, i as nat) == Some(k as int),
                None => dead_from(block@.instrs, i as nat) is None,
            },
        decreases block.instrs@.len() - i,
    {
        assert(block.instrs@[i as int]@ == block@.instrs[i as int]);
        if found.is_none() && block.instrs[i].is_terminator() && i + 1 < block.instrs.len() {
            found = Some(i + 1);
        }
        i = i + 1;
    }
    found
}

/// Returns the blocks that hold code behind an operation that ends the block, each with where that
/// code begins.
#[must_use]
pub fn find_dead_tails<T: Target>(ssa: &SsaFunction<T>) -> (r: Vec<(usize, usize)>)
    ensures
        r@ == ssa@.dead_tails(),
{
    let mut r: Vec<(usize, usize)> = Vec::new();
    let ghost f = ssa@.dead_tail();
    let mut b: usize = 0;
    while b < ssa.blocks.len()
        invariant
            b <= ssa.blocks@.len(),
            f == ssa@.dead_tail(),
            r@ == seqs::flat(f, b as nat),
        decreases ssa.blocks@.len() - b,
    {
        assert(ssa.blocks@[b as int]@ == ssa@.blocks[b as int]);
        let ghost before = r@;
        if let Some(k) = find_dead_from(&ssa.blocks[b]) {
            r.push((b, k));
        }
        assert(r@ =~= before + f(b as int));
        b = b + 1;
    }
    r
}

impl<T: Target> BlockView<T> {
    /// The block without its phi nodes and instructions.
    pub open spec fn emptied(self) -> BlockView<T> {
        self.with_phis(Seq::empty()).with_instrs(Seq::empty())
    }

    /// The block holds phi nodes or instructions.
    pub open spec fn holds_code(self) -> bool {
        self.phis.len() > 0 || self.instrs.len() > 0
    }
}

impl<T: Target> SsaView<T> {
    /// The function, put in order again where it changed.
    pub open spec fn in_order(self, changed: bool) -> SsaView<T> {
        if changed {
            self.repaired()
        } else {
            self
        }
    }

    /// Block `b` is emptied.
    pub open spec fn is_emptied(self, reach: Seq<bool>, b: int) -> bool {
        !reach[b] && self.blocks[b].holds_code()
    }

    /// The event of block `b`, where it is emptied.
    pub open spec fn emptied_event(self, reach: Seq<bool>, method: T::MethodRef) -> spec_fn(
        int,
    ) -> Seq<EventView<T>> {
        |b: int|
            if self.is_emptied(reach, b) {
                seq![
                    EventView::<T>::at(
                        EventKind::BlockRemoved,
                        method,
                        b,
                        "removed unreachable block "@ + text::decimal(b as nat),
                    ),
                ]
            } else {
                Seq::empty()
            }
    }

    /// The blocks that control cannot reach are emptied.
    pub open spec fn without_unreachable(self, reach: Seq<bool>, method: T::MethodRef) -> Removal<
        T,
    > {
        let events = seqs::flat(self.emptied_event(reach, method), self.blocks.len());
        Removal {
            ssa: SsaView {
                blocks: Seq::new(
                    self.blocks.len(),
                    |b: int|
                        if self.is_emptied(reach, b) {
                            self.blocks[b].emptied()
                        } else {
                            self.blocks[b]
                        },
                ),
                ..self
            }.in_order(events.len() > 0),
            events,
            count: events.len(),
        }
    }
}

/// Empties the blocks that control cannot reach.
fn clear_unreachable_blocks<T: Target>(
    ssa: &mut SsaFunction<T>,
    reach: &Vec<bool>,
    method: &T::MethodRef,
    events: &mut EventLog<T>,
) -> (r: usize)
    requires
        reach@.len() == old(ssa)@.blocks.len(),
    ensures
        ({
            let step = old(ssa)@.without_unreachable(reach@, *method);
            &&& final(ssa)@ == step.ssa
            &&& final(events)@ == old(events)@ + step.events
            &&& r == step.count
        }),
        final(ssa)@.blocks.len() == old(ssa)@.blocks.len(),
{
    let ghost s = ssa@;
    let ghost event = s.emptied_event(reach@, *method);
    let n: usize = ssa.blocks.len();
    let mut log: EventLog<T> = EventLog::new();
    let mut b: usize = 0;
    while b < n
        invariant
            b <= n,
            n == s.blocks.len(),
            reach@.len() == n,
            event == s.emptied_event(reach@, *method),
            ssa@ == (SsaView { blocks: ssa@.blocks, ..s }),
            ssa@.blocks.len() == n,
            forall|j: int|
                0 <= j < b ==> #[trigger] ssa@.blocks[j] == (if s.is_emptied(reach@, j) {
                    s.blocks[j].emptied()
                } else {
                    s.blocks[j]
                }),
            forall|j: int| b <= j < n ==> #[trigger] ssa@.blocks[j] == s.blocks[j],
            log@ == seqs::flat(event, b as nat),
        decreases n - b,
    {
        let ghost before = log@;
        let ghost was = ssa@;
        assert(ssa.blocks@[b as int]@ == was.blocks[b as int]);
        if !reach[b] && (ssa.blocks[b].phis.len() > 0 || ssa.blocks[b].instrs.len() > 0) {
            let mut block: SsaBlock<T> = SsaBlock::new(ssa.blocks[b].id);
            assert(block@ == s.blocks[b as int].emptied());
            ssa.set_block(b, block);
            let mut message: String = String::from_str("removed unreachable block ");
            text::push_number(&mut message, b);
            log.record_at(EventKind::BlockRemoved, method, b, message);
        }
        assert(log@ =~= before + event(b as int));
        b = b + 1;
    }
    let cleared: usize = log.len();
    events.append_all(log);
    assert(ssa@.blocks =~= Seq::new(
        s.blocks.len(),
        |b: int|
            if s.is_emptied(reach@, b) {
                s.blocks[b].emptied()
            } else {
                s.blocks[b]
            },
    ));
    if cleared > 0 {
        ssa.repair_ssa();
    }
    cleared
}

impl<T: Target> SsaView<T> {
    /// The place of the instruction at `i` of block `b`, where it does nothing and is not alone.
    pub open spec fn opless_at(self, b: int) -> spec_fn(int) -> Seq<(usize, usize)> {
        |k: int|
            {
                let i = self.blocks[b].instrs.len() - 1 - k;
                if self.blocks[b].instrs[i] is Nop && self.blocks[b].instrs.len() > 1 {
                    seq![(b as usize, i as usize)]
                } else {
                    Seq::empty()
                }
            }
    }

    /// The places of the instructions of block `b` that do nothing and are not alone, last first.
    pub open spec fn opless_in(self, reach: Seq<bool>) -> spec_fn(int) -> Seq<(usize, usize)> {
        |b: int|
            if reach[b] {
                seqs::flat(self.opless_at(b), self.blocks[b].instrs.len())
            } else {
                Seq::empty()
            }
    }

    /// The instructions that do nothing and are not alone in their block are removed.
    pub open spec fn without_opless(self, reach: Seq<bool>, method: T::MethodRef) -> Removal<T> {
        let opless = seqs::flat(self.opless_in(reach), self.blocks.len());
        Removal {
            ssa: self.in_order(opless.len() > 0),
            events: opless.map_values(
                |p: (usize, usize)|
                    EventView::<T>::at(
                        EventKind::InstructionRemoved,
                        method,
                        mixed_location(p.0 as int, p.1 as int),
                        "removed op-less instruction: nop"@,
                    ),
            ),
            count: opless.len(),
        }
    }

    /// How many of the instructions of block `b` do nothing.
    pub open spec fn nops_in(self, reach: Seq<bool>) -> spec_fn(int) -> nat {
        |b: int|
            if reach[b] {
                total(
                    |i: int|
                        if self.blocks[b].instrs[i] is Nop {
                            1
                        } else {
                            0
                        },
                    self.blocks[b].instrs.len(),
                )
            } else {
                0
            }
    }

    /// The event of block `b`, where instructions that do nothing are removed.
    pub open spec fn nop_event(self, reach: Seq<bool>, method: T::MethodRef) -> spec_fn(
        int,
    ) -> Seq<EventView<T>> {
        |b: int|
            if (self.nops_in(reach))(b) > 0 {
                seq![
                    EventView::<T>::at(
                        EventKind::InstructionRemoved,
                        method,
                        b,
                        "removed "@ + text::decimal((self.nops_in(reach))(b))
                            + " Nop instructions"@,
                    ),
                ]
            } else {
                Seq::empty()
            }
    }

    /// The remaining instructions that do nothing are removed.
    pub open spec fn without_nops(self, reach: Seq<bool>, method: T::MethodRef) -> Removal<T> {
        let count = total(self.nops_in(reach), self.blocks.len());
        Removal {
            ssa: self.in_order(count > 0),
            events: seqs::flat(self.nop_event(reach, method), self.blocks.len()),
            count,
        }
    }
}

/// Returns the places of the instructions that do nothing and are not alone in their block.
fn find_opless_instructions<T: Target>(ssa: &SsaFunction<T>, reach: &Vec<bool>) -> (r: Vec<
    (usize, usize),
>)
    requires
        reach@.len() == ssa@.blocks.len(),
    ensures
        r@ == seqs::flat(ssa@.opless_in(reach@), ssa@.blocks.len()),
{
    let mut r: Vec<(usize, usize)> = Vec::new();
    let ghost f = ssa@.opless_in(reach@);
    let mut b: usize = 0;
    while b < ssa.blocks.len()
        invariant
            b <= ssa.blocks@.len(),
            reach@.len() == ssa@.blocks.len(),
            f == ssa@.opless_in(reach@),
            r@ == seqs::flat(f, b as nat),
        decreases ssa.blocks@.len() - b,
    {
        assert(ssa.blocks@[b as int]@ == ssa@.blocks[b as int]);
        if reach[b] {
            let block: &SsaBlock<T> = &ssa.blocks[b];
            let count: usize = block.instrs.len();
            let ghost g = ssa@.opless_at(b as int);
            assert(r@ =~= seqs::flat(f, b as nat) + seqs::flat(g, 0));
            let mut k: usize = 0;
            while k < count
                invariant
                    k <= count,
                    count == block.instrs@.len(),
                    block@ == ssa@.blocks[b as int],
                    g == ssa@.opless_at(b as int),
                    r@ =~= seqs::flat(f, b as nat) + seqs::flat(g, k as nat),
                decreases count - k,
            {
                let ghost before = r@;
                let i: usize = count - 1 - k;
                assert(block.instrs@[i as int]@ == block@.instrs[i as int]);
                let nop: bool = match &block.instrs[i].op {
                    Op::Nop => true,
                    _ => false,
                };
                if nop && count > 1 {
                    r.push((b, i));
                }
                assert(r@ =~= before + g(k as int));
                k = k + 1;
            }
        }
        b = b + 1;
    }
    r
}

/// Removes the instructions that do nothing and are not alone in their block.
fn remove_opless_instructions<T: Target>(
    ssa: &mut SsaFunction<T>,
    reach: &Vec<bool>,
    method: &T::MethodRef,
    events: &mut EventLog<T>,
) -> (r: usize)
    requires
        reach@.len() == old(ssa)@.blocks.len(),
    ensures
        ({
            let step = old(ssa)@.without_opless(reach@, *method);
            &&& final(ssa)@ == step.ssa
            &&& final(events)@ == old(events)@ + step.events
            &&& r == step.count
        }),
        final(ssa)@.blocks.len() == old(ssa)@.blocks.len(),
{
    let opless: Vec<(usize, usize)> = find_opless_instructions(ssa, reach);
    let ghost reported = ssa@.without_opless(reach@, *method).events;
    assert(events@ =~= old(events)@ + reported.take(0));
    let mut k: usize = 0;
    while k < opless.len()
        invariant
            k <= opless@.len(),
            reported == opless@.map_values(
                |p: (usize, usize)|
                    EventView::<T>::at(
                        EventKind::InstructionRemoved,
                        *method,
                        mixed_location(p.0 as int, p.1 as int),
                        "removed op-less instruction: nop"@,
                    ),
            ),
            events@ == old(events)@ + reported.take(k as int),
        decreases opless@.len() - k,
    {
        let message: String = String::from_str("removed op-less instruction: nop");
        let location: usize = mix_location(opless[k].0, opless[k].1);
        events.record_at(EventKind::InstructionRemoved, method, location, message);
        assert(events@ =~= old(events)@ + reported.take((k + 1) as int));
        k = k + 1;
    }
    assert(reported.take(k as int) =~= reported);
    if opless.len() > 0 {
        ssa.repair_ssa();
    }
    opless.len()
}

/// Removes the remaining instructions that do nothing.
fn remove_nop_instructions<T: Target>(
    ssa: &mut SsaFunction<T>,
    reach: &Vec<bool>,
    method: &T::MethodRef,
    events: &mut EventLog<T>,
) -> (r: usize)
    requires
        reach@.len() == old(ssa)@.blocks.len(),
    ensures
        ({
            let step = old(ssa)@.without_nops(reach@, *method);
            &&& final(ssa)@ == step.ssa
            &&& final(events)@ == old(events)@ + step.events
            &&& r == capped(step.count)
        }),
        final(ssa)@.blocks.len() == old(ssa)@.blocks.len(),
{
    let ghost s = ssa@;
    let ghost f = s.nops_in(reach@);
    let ghost event = s.nop_event(reach@, *method);
    let mut removed: usize = 0;
    assert(events@ =~= old(events)@ + seqs::flat(event, 0));
    let mut b: usize = 0;
    while b < ssa.blocks.len()
        invariant
            b <= ssa.blocks@.len(),
            ssa@ == s,
            reach@.len() == s.blocks.len(),
            f == s.nops_in(reach@),
            event == s.nop_event(reach@, *method),
            removed == capped(total(f, b as nat)),
            events@ =~= old(events)@ + seqs::flat(event, b as nat),
        decreases ssa.blocks@.len() - b,
    {
        assert(ssa.blocks@[b as int]@ == s.blocks[b as int]);
        let ghost logged = events@;
        if reach[b] {
            let block: &SsaBlock<T> = &ssa.blocks[b];
            let ghost g = |i: int|
                if s.blocks[b as int].instrs[i] is Nop {
                    1nat
                } else {
                    0nat
                };
            let mut count: usize = 0;
            let mut i: usize = 0;
            while i < block.instrs.len()
                invariant
                    i <= block.instrs@.len(),
                    b < s.blocks.len(),
                    block@ == s.blocks[b as int],
                    g == (|i: int|
                        if s.blocks[b as int].instrs[i] is Nop {
                            1nat
                        } else {
                            0nat
                        }),
                    count == total(g, i as nat),
                    count <= i,
                decreases block.instrs@.len() - i,
            {
                assert(block.instrs@[i as int]@ == block@.instrs[i as int]);
                let nop: bool = match &block.instrs[i].op {
                    Op::Nop => true,
                    _ => false,
                };
                if nop {
                    count = count + 1;
                }
                i = i + 1;
            }
            assert(f(b as int) == count);
            if count > 0 {
                removed = removed.saturating_add(count);
                let mut message: String = String::from_str("removed ");
                text::push_number(&mut message, count);
                message.append(" Nop instructions");
                events.record_at(EventKind::InstructionRemoved, method, b, message);
            }
        }
        assert(events@ =~= logged + event(b as int));
        b = b + 1;
    }
    if removed > 0 {
        ssa.repair_ssa();
    }
    removed
}

/// The first `n` operands without those from blocks that control cannot reach.
pub open spec fn reachable_operands(
    operands: Seq<PhiOperand>,
    reach: Seq<bool>,
    n: nat,
) -> Seq<PhiOperand>
    decreases n,
{
    if n == 0 {
        Seq::empty()
    } else {
        let before = reachable_operands(operands, reach, (n - 1) as nat);
        let from = operands[n - 1].predecessor;
        if from < reach.len() && reach[from as int] {
            before.push(operands[n - 1])
        } else {
            before
        }
    }
}

impl PhiView {
    /// The phi node without the operands from blocks that control cannot reach.
    pub open spec fn pruned(self, reach: Seq<bool>) -> PhiView {
        PhiView {
            operands: reachable_operands(self.operands, reach, self.operands.len()),
            ..self
        }
    }

    /// How many operands come from blocks that control cannot reach.
    pub open spec fn stray_operands(self, reach: Seq<bool>) -> nat {
        (self.operands.len() - self.pruned(reach).operands.len()) as nat
    }
}

impl<T: Target> BlockView<T> {
    /// How many operands of phi node `p` come from blocks that control cannot reach.
    pub open spec fn strays(self, reach: Seq<bool>) -> spec_fn(int) -> nat {
        |p: int| self.phis[p].stray_operands(reach)
    }

    /// The block without the phi operands from blocks that control cannot reach.
    pub open spec fn pruned(self, reach: Seq<bool>) -> BlockView<T> {
        self.with_phis(self.phis.map_values(|p: PhiView| p.pruned(reach)))
    }
}

impl<T: Target> SsaView<T> {
    /// How many phi operands of block `b` come from blocks that control cannot reach.
    pub open spec fn strays_in(self, reach: Seq<bool>) -> spec_fn(int) -> nat {
        |b: int| total(self.blocks[b].strays(reach), self.blocks[b].phis.len())
    }

    /// The phi operands from blocks that control cannot reach are removed.
    pub open spec fn without_strays(self, reach: Seq<bool>) -> Removal<T> {
        let count = total(self.strays_in(reach), self.blocks.len());
        Removal {
            ssa: SsaView {
                blocks: self.blocks.map_values(|b: BlockView<T>| b.pruned(reach)),
                ..self
            }.in_order(count > 0),
            events: Seq::empty(),
            count,
        }
    }
}

/// Removes the operands of a phi node from blocks that control cannot reach.
fn prune_phi(phi: &mut PhiNode, reach: &Vec<bool>) -> (r: usize)
    ensures
        final(phi)@ == old(phi)@.pruned(reach@),
        r == old(phi)@.stray_operands(reach@),
{
    let mut kept: Vec<PhiOperand> = Vec::new();
    let mut i: usize = 0;
    while i < phi.operands.len()
        invariant
            i <= phi.operands@.len(),
            *phi == *old(phi),
            kept@ == reachable_operands(phi@.operands, reach@, i as nat),
            kept@.len() <= i,
        decreases phi.operands@.len() - i,
    {
        let operand: PhiOperand = phi.operands[i];
        if operand.predecessor < reach.len() && reach[operand.predecessor] {
            kept.push(operand);
        }
        i = i + 1;
    }
    let removed: usize = phi.operands.len() - kept.len();
    phi.operands = kept;
    removed
}

/// Removes the phi operands from blocks that control cannot reach.
fn prune_phi_operands<T: Target>(ssa: &mut SsaFunction<T>, reach: &Vec<bool>) -> (r: usize)
    ensures
        ({
            let step = old(ssa)@.without_strays(reach@);
            &&& final(ssa)@ == step.ssa
            &&& r == capped(step.count)
        }),
        final(ssa)@.blocks.len() == old(ssa)@.blocks.len(),
{
    let ghost s = ssa@;
    let ghost f = s.strays_in(reach@);
    let n: usize = ssa.blocks.len();
    let mut pruned: usize = 0;
    let mut b: usize = 0;
    while b < n
        invariant
            b <= n,
            n == s.blocks.len(),
            f == s.strays_in(reach@),
            ssa@ == (SsaView { blocks: ssa@.blocks, ..s }),
            ssa@.blocks.len() == n,
            forall|j: int| 0 <= j < b ==> #[trigger] ssa@.blocks[j] == s.blocks[j].pruned(reach@),
            forall|j: int| b <= j < n ==> #[trigger] ssa@.blocks[j] == s.blocks[j],
            pruned == capped(total(f, b as nat)),
        decreases n - b,
    {
        let ghost block = s.blocks[b as int];
        let ghost g = block.strays(reach@);
        let mut copy: SsaBlock<T> = ssa.blocks[b].duplicate();
        assert(ssa.blocks@[b as int]@ == ssa@.blocks[b as int]);
        assert(copy@ == block);
        let count: usize = copy.phis.len();
        let mut p: usize = 0;
        while p < count
            invariant
                p <= count,
                count == block.phis.len(),
                copy.phis@.len() == count,
                g == block.strays(reach@),
                copy@ == block.with_phis(copy@.phis),
                forall|j: int|
                    0 <= j < p ==> #[trigger] copy@.phis[j] == block.phis[j].pruned(reach@),
                forall|j: int| p <= j < count ==> #[trigger] copy@.phis[j] == block.phis[j],
                pruned == capped(total(f, b as nat) + total(g, p as nat)),
            decreases count - p,
        {
            let ghost before = copy@;
            assert(copy.phis@[p as int]@ == copy@.phis[p as int]);
            let removed: usize = prune_phi(&mut copy.phis[p], reach);
            assert(copy@.phis =~= before.phis.update(
                p as int,
                block.phis[p as int].pruned(reach@),
            ));
            assert(removed == g(p as int));
            pruned = pruned.saturating_add(removed);
            p = p + 1;
        }
        assert(copy@.phis =~= block.pruned(reach@).phis);
        ssa.set_block(b, copy);
        b = b + 1;
    }
    assert(ssa@.blocks =~= s.blocks.map_values(|b: BlockView<T>| b.pruned(reach@)));
    if pruned > 0 {
        ssa.repair_ssa();
    }
    pruned
}

/// The one variable other than `result` that the first `n` operands name: `None` where they name
/// two, `Some(None)` where they name none.
pub open spec fn sole_source(operands: Seq<PhiOperand>, result: SsaVarId, n: nat) -> Option<
    Option<SsaVarId>,
>
    decreases n,
{
    if n == 0 {
        Some(None)
    } else {
        match sole_source(operands, result, (n - 1) as nat) {
            None => None,
            Some(source) => {
                let value = operands[n - 1].value;
                if value == result || source == Some(value) {
                    Some(source)
                } else if source is None {
                    Some(Some(value))
                } else {
                    None
                }
            },
        }
    }
}

impl PhiView {
    /// What the phi node always stands for, where that is one variable.
    pub open spec fn source(self) -> Option<Option<SsaVarId>> {
        sole_source(self.operands, self.result, self.operands.len())
    }
}

/// The first `n` phi nodes without those that stand for one variable.
pub open spec fn merging_phis(phis: Seq<PhiView>, n: nat) -> Seq<PhiView>
    decreases n,
{
    if n == 0 {
        Seq::empty()
    } else {
        let before = merging_phis(phis, (n - 1) as nat);
        if phis[n - 1].source() is None {
            before.push(phis[n - 1])
        } else {
            before
        }
    }
}

/// The copies in place of the phi nodes among the first `n` that stand for one variable.
pub open spec fn source_copies<T: Target>(phis: Seq<PhiView>, n: nat) -> Seq<OpView<T>>
    decreases n,
{
    if n == 0 {
        Seq::empty()
    } else {
        let before = source_copies(phis, (n - 1) as nat);
        match phis[n - 1].source() {
            Some(Some(src)) => before.push(Op::Copy { dest: phis[n - 1].result, src }),
            _ => before,
        }
    }
}

impl<T: Target> BlockView<T> {
    /// The block with the phi nodes that stand for one variable made copies.
    pub open spec fn with_sources(self) -> BlockView<T> {
        self.with_phis(merging_phis(self.phis, self.phis.len())).with_instrs(
            source_copies(self.phis, self.phis.len()) + self.instrs,
        )
    }

    /// The event of the phi node `k` from the last, where it stands for one variable.
    pub open spec fn source_event(self, method: T::MethodRef, b: int) -> spec_fn(int) -> Seq<
        EventView<T>,
    > {
        |k: int|
            match self.phis[self.phis.len() - 1 - k].source() {
                None => Seq::empty(),
                Some(Some(src)) => seq![
                    EventView::at(
                        EventKind::PhiSimplified,
                        method,
                        b,
                        "replaced with "@ + text::var_name(src),
                    ),
                ],
                Some(None) => seq![
                    EventView::at(
                        EventKind::PhiSimplified,
                        method,
                        b,
                        "removed self-referential phi"@,
                    ),
                ],
            }
    }
}

impl<T: Target> SsaView<T> {
    /// The events of block `b`, where control can reach it.
    pub open spec fn source_events(self, reach: Seq<bool>, method: T::MethodRef) -> spec_fn(
        int,
    ) -> Seq<EventView<T>> {
        |b: int|
            if reach[b] {
                seqs::flat(self.blocks[b].source_event(method, b), self.blocks[b].phis.len())
            } else {
                Seq::empty()
            }
    }

    /// The phi nodes that stand for one variable become copies.
    pub open spec fn with_phi_sources(self, reach: Seq<bool>, method: T::MethodRef) -> Removal<T> {
        let events = seqs::flat(self.source_events(reach, method), self.blocks.len());
        Removal {
            ssa: SsaView {
                blocks: Seq::new(
                    self.blocks.len(),
                    |b: int|
                        if reach[b] {
                            self.blocks[b].with_sources()
                        } else {
                            self.blocks[b]
                        },
                ),
                ..self
            }.in_order(events.len() > 0),
            events,
            count: events.len(),
        }
    }
}

/// Returns what a phi node always stands for.
pub(crate) fn find_source(phi: &PhiNode) -> (r: Option<Option<SsaVarId>>)
    ensures
        r == phi@.source(),
{
    let mut source: Option<SsaVarId> = None;
    let mut i: usize = 0;
    while i < phi.operands.len()
        invariant
            i <= phi.operands@.len(),
            sole_source(phi@.operands, phi@.result, i as nat) == Some(source),
        decreases phi.operands@.len() - i,
    {
        let value: SsaVarId = phi.operands[i].value;
        if value != phi.result {
            match source {
                None => {
                    source = Some(value);
                },
                Some(v) => {
                    if v != value {
                        proof {
                            lemma_no_source(phi@.operands, phi@.result, (i + 1) as nat, phi@.operands.len());
                        }
                        return None;
                    }
                },
            }
        }
        i = i + 1;
    }
    Some(source)
}

proof fn lemma_no_source(operands: Seq<PhiOperand>, result: SsaVarId, m: nat, n: nat)
    requires
        m <= n,
        sole_source(operands, result, m) is None,
    ensures
        sole_source(operands, result, n) is None,
    decreases n,
{
    if m < n {
        lemma_no_source(operands, result, m, (n - 1) as nat);
    }
}

/// Makes the phi nodes of a block that stand for one variable copies.
fn copy_sources<T: Target>(block: &SsaBlock<T>) -> (r: SsaBlock<T>)
    ensures
        r@ == block@.with_sources(),
{
    let mut copy: SsaBlock<T> = block.duplicate();
    let mut phis: Vec<PhiNode> = Vec::new();
    let mut instrs: Vec<SsaInstruction<T>> = Vec::new();
    assert(phis@.map_values(|p: PhiNode| p@) =~= merging_phis(block@.phis, 0));
    assert(instrs@.map_values(|i: SsaInstruction<T>| i@) =~= source_copies(block@.phis, 0));
    let mut p: usize = 0;
    while p < block.phis.len()
        invariant
            p <= block.phis@.len(),
            phis@.map_values(|p: PhiNode| p@) == merging_phis(block@.phis, p as nat),
            instrs@.map_values(|i: SsaInstruction<T>| i@) == source_copies::<T>(
                block@.phis,
                p as nat,
            ),
        decreases block.phis@.len() - p,
    {
        assert(block.phis@[p as int]@ == block@.phis[p as int]);
        let ghost kept = phis@;
        let ghost copied = instrs@;
        match find_source(&block.phis[p]) {
            None => {
                phis.push(block.phis[p].duplicate());
                assert(phis@.map_values(|p: PhiNode| p@) =~= kept.map_values(
                    |p: PhiNode| p@,
                ).push(block@.phis[p as int]));
            },
            Some(Some(src)) => {
                let op: SsaOp<T> = Op::Copy { dest: block.phis[p].result, src };
                instrs.push(SsaInstruction::synthetic(op));
                assert(instrs@.map_values(|i: SsaInstruction<T>| i@) =~= copied.map_values(
                    |i: SsaInstruction<T>| i@,
                ).push(op@));
            },
            Some(None) => {},
        }
        p = p + 1;
    }
    let ghost copies = instrs@;
    let ghost rest = copy.instrs@;
    instrs.append(&mut copy.instrs);
    copy.instrs = instrs;
    copy.phis = phis;
    assert(copy@.instrs =~= copies.map_values(|i: SsaInstruction<T>| i@) + block@.instrs);
    assert(copy@.phis =~= block@.with_sources().phis);
    copy
}

/// Makes the phi nodes of a block that stand for one variable copies, and reports them.
fn simplify_block_phis<T: Target>(
    block: &SsaBlock<T>,
    b: usize,
    method: &T::MethodRef,
    events: &mut EventLog<T>,
) -> (r: SsaBlock<T>)
    ensures
        r@ == block@.with_sources(),
        final(events)@ == old(events)@ + seqs::flat(
            block@.source_event(*method, b as int),
            block@.phis.len(),
        ),
{
    let copy: SsaBlock<T> = copy_sources(block);
    let count: usize = block.phis.len();
    let ghost event = block@.source_event(*method, b as int);
    assert(events@ =~= old(events)@ + seqs::flat(event, 0));
    let mut k: usize = 0;
    while k < count
        invariant
            k <= count,
            count == block.phis@.len(),
            event == block@.source_event(*method, b as int),
            events@ =~= old(events)@ + seqs::flat(event, k as nat),
        decreases count - k,
    {
        let ghost logged = events@;
        let p: usize = count - 1 - k;
        assert(block.phis@[p as int]@ == block@.phis[p as int]);
        match find_source(&block.phis[p]) {
            None => {},
            Some(Some(src)) => {
                let mut message: String = String::from_str("replaced with ");
                text::push_var(&mut message, src);
                events.record_at(EventKind::PhiSimplified, method, b, message);
            },
            Some(None) => {
                let message: String = String::from_str("removed self-referential phi");
                events.record_at(EventKind::PhiSimplified, method, b, message);
            },
        }
        assert(events@ =~= logged + event(k as int));
        k = k + 1;
    }
    copy
}

impl<T: Target> SsaView<T> {
    /// The function with every phi node that stands for one variable made a copy.
    pub open spec fn without_trivial_phis(self) -> SsaView<T> {
        SsaView {
            blocks: self.blocks.map_values(|b: BlockView<T>| b.with_sources()),
            ..self
        }
    }

    /// The function after a light repair: without phi nodes that stand for one variable and without
    /// operations that do nothing, and with the uses recorded afresh.
    pub open spec fn lightly_repaired(self) -> SsaView<T> {
        self.without_trivial_phis().repaired()
    }
}

/// Makes every phi node that stands for one variable a copy, removes operations that do nothing, and
/// records the uses of every variable afresh.
pub fn repair_lightly<T: Target>(ssa: &mut SsaFunction<T>)
    ensures
        final(ssa)@ == old(ssa)@.lightly_repaired(),
{
    let ghost s = ssa@;
    let n: usize = ssa.blocks.len();
    let mut b: usize = 0;
    while b < n
        invariant
            b <= n,
            n == s.blocks.len(),
            ssa@ == (SsaView { blocks: ssa@.blocks, ..s }),
            ssa@.blocks.len() == n,
            forall|j: int| 0 <= j < b ==> #[trigger] ssa@.blocks[j] == s.blocks[j].with_sources(),
            forall|j: int| b <= j < n ==> #[trigger] ssa@.blocks[j] == s.blocks[j],
        decreases n - b,
    {
        assert(ssa.blocks@[b as int]@ == ssa@.blocks[b as int]);
        let block: SsaBlock<T> = copy_sources(&ssa.blocks[b]);
        ssa.set_block(b, block);
        b = b + 1;
    }
    assert(ssa@.blocks =~= s.without_trivial_phis().blocks);
    ssa.repair_ssa();
}

proof fn lemma_merging_phis(phis: Seq<PhiView>, n: nat, k: int)
    requires
        n <= phis.len(),
        0 <= k < merging_phis(phis, n).len(),
    ensures
        merging_phis(phis, n)[k].source() is None,
    decreases n,
{
    if n > 0 && k < merging_phis(phis, (n - 1) as nat).len() {
        lemma_merging_phis(phis, (n - 1) as nat, k);
    }
}

/// A light repair leaves no phi node that stands for one variable.
pub proof fn light_repair_leaves_no_trivial_phi<T: Target>(ssa: SsaView<T>, b: int, k: int)
    requires
        0 <= b < ssa.blocks.len(),
        0 <= k < ssa.lightly_repaired().blocks[b].phis.len(),
    ensures
        ssa.lightly_repaired().blocks.len() == ssa.blocks.len(),
        ssa.lightly_repaired().blocks[b].phis[k].source() is None,
{
    let phis = ssa.blocks[b].phis;
    lemma_merging_phis(phis, phis.len(), k);
}

/// Makes the phi nodes that stand for one variable copies.
fn simplify_trivial_phis<T: Target>(
    ssa: &mut SsaFunction<T>,
    reach: &Vec<bool>,
    method: &T::MethodRef,
    events: &mut EventLog<T>,
) -> (r: usize)
    requires
        reach@.len() == old(ssa)@.blocks.len(),
    ensures
        ({
            let step = old(ssa)@.with_phi_sources(reach@, *method);
            &&& final(ssa)@ == step.ssa
            &&& final(events)@ == old(events)@ + step.events
            &&& r == step.count
        }),
        final(ssa)@.blocks.len() == old(ssa)@.blocks.len(),
{
    let ghost s = ssa@;
    let ghost event = s.source_events(reach@, *method);
    let n: usize = ssa.blocks.len();
    let mut log: EventLog<T> = EventLog::new();
    let mut b: usize = 0;
    while b < n
        invariant
            b <= n,
            n == s.blocks.len(),
            reach@.len() == n,
            event == s.source_events(reach@, *method),
            ssa@ == (SsaView { blocks: ssa@.blocks, ..s }),
            ssa@.blocks.len() == n,
            forall|j: int|
                0 <= j < b ==> #[trigger] ssa@.blocks[j] == (if reach@[j] {
                    s.blocks[j].with_sources()
                } else {
                    s.blocks[j]
                }),
            forall|j: int| b <= j < n ==> #[trigger] ssa@.blocks[j] == s.blocks[j],
            log@ == seqs::flat(event, b as nat),
        decreases n - b,
    {
        let ghost before = log@;
        assert(ssa.blocks@[b as int]@ == ssa@.blocks[b as int]);
        if reach[b] {
            let block: SsaBlock<T> = simplify_block_phis(&ssa.blocks[b], b, method, &mut log);
            ssa.set_block(b, block);
        }
        assert(log@ =~= before + event(b as int));
        b = b + 1;
    }
    let simplified: usize = log.len();
    events.append_all(log);
    assert(ssa@.blocks =~= Seq::new(
        s.blocks.len(),
        |b: int|
            if reach@[b] {
                s.blocks[b].with_sources()
            } else {
                s.blocks[b]
            },
    ));
    if simplified > 0 {
        ssa.repair_ssa();
    }
    simplified
}

/// A variable is needed.
pub open spec fn is_live(live: Seq<bool>, v: SsaVarId) -> bool {
    v.0 < live.len() && live[v.0 as int]
}

/// The first `n` phi nodes without those whose result is not needed.
pub open spec fn live_phis(phis: Seq<PhiView>, live: Seq<bool>, n: nat) -> Seq<PhiView>
    decreases n,
{
    if n == 0 {
        Seq::empty()
    } else {
        let before = live_phis(phis, live, (n - 1) as nat);
        if is_live(live, phis[n - 1].result) {
            before.push(phis[n - 1])
        } else {
            before
        }
    }
}

/// None of the variables is needed.
pub open spec fn none_live(live: Seq<bool>, vars: Seq<SsaVarId>) -> bool {
    forall|k: int| 0 <= k < vars.len() ==> !is_live(live, #[trigger] vars[k])
}

/// An operation only computes what is not needed.
pub open spec fn is_dead_def<T: Target>(op: OpView<T>, live: Seq<bool>) -> bool {
    op.pure() && !(op is Pop) && none_live(live, op.defs())
}

/// An operation is removed: it only computes what is not needed, or it discards one of `gone`.
pub open spec fn is_dead_op<T: Target>(op: OpView<T>, live: Seq<bool>, gone: Seq<usize>) -> bool {
    match op {
        Op::Pop { value } => gone.contains(value.0),
        _ => is_dead_def(op, live),
    }
}

/// The numbers of variables.
pub open spec fn numbers(vars: Seq<SsaVarId>) -> Seq<usize> {
    vars.map_values(|v: SsaVarId| v.0)
}

/// What is reported of a removed operation.
pub open spec fn dead_message<T: Target>(op: OpView<T>) -> Seq<char> {
    if op.defs().len() > 0 {
        "dead definition(s) "@ + text::var_list(op.defs())
    } else if op is Pop {
        "dead pop"@
    } else {
        "dead nop"@
    }
}

impl<T: Target> BlockView<T> {
    /// The event of phi node `p`, where its result is not needed.
    pub open spec fn dead_phi_event(self, live: Seq<bool>, method: T::MethodRef, b: int) -> spec_fn(
        int,
    ) -> Seq<EventView<T>> {
        |p: int|
            if is_live(live, self.phis[p].result) {
                Seq::empty()
            } else {
                seq![
                    EventView::at(
                        EventKind::PhiSimplified,
                        method,
                        b,
                        "removed dead phi node"@,
                    ),
                ]
            }
    }

    /// The result of phi node `p`, where it is not needed.
    pub open spec fn dead_phi_result(self, live: Seq<bool>) -> spec_fn(int) -> Seq<usize> {
        |p: int|
            if is_live(live, self.phis[p].result) {
                Seq::empty()
            } else {
                seq![self.phis[p].result.0]
            }
    }

    /// What the instruction at `i` defines, where that is not needed.
    pub open spec fn dead_results(self, live: Seq<bool>) -> spec_fn(int) -> Seq<usize> {
        |i: int|
            if is_dead_def(self.instrs[i], live) {
                numbers(self.instrs[i].defs())
            } else {
                Seq::empty()
            }
    }

    /// The block without the instructions that are not needed.
    pub open spec fn without_dead(self, live: Seq<bool>, gone: Seq<usize>) -> BlockView<T> {
        self.with_instrs(
            self.instrs.map_values(
                |op: OpView<T>|
                    if is_dead_op(op, live, gone) {
                        Op::Nop
                    } else {
                        op
                    },
            ),
        )
    }

    /// The event of the instruction `k` from the last, where it is not needed.
    pub open spec fn dead_event(
        self,
        live: Seq<bool>,
        gone: Seq<usize>,
        method: T::MethodRef,
        b: int,
    ) -> spec_fn(int) -> Seq<EventView<T>> {
        |k: int|
            {
                let i = self.instrs.len() - 1 - k;
                if is_dead_op(self.instrs[i], live, gone) {
                    seq![
                        EventView::at(
                            EventKind::InstructionRemoved,
                            method,
                            mixed_location(b, i),
                            dead_message(self.instrs[i]),
                        ),
                    ]
                } else {
                    Seq::empty()
                }
            }
    }
}

impl<T: Target> SsaView<T> {
    /// The events of block `b`, where control can reach it.
    pub open spec fn dead_phi_events(
        self,
        reach: Seq<bool>,
        live: Seq<bool>,
        method: T::MethodRef,
    ) -> spec_fn(int) -> Seq<EventView<T>> {
        |b: int|
            if reach[b] {
                seqs::flat(
                    self.blocks[b].dead_phi_event(live, method, b),
                    self.blocks[b].phis.len(),
                )
            } else {
                Seq::empty()
            }
    }

    /// The results of the phi nodes of block `b` that are not needed.
    pub open spec fn dead_phis_in(self, reach: Seq<bool>, live: Seq<bool>) -> spec_fn(int) -> Seq<
        usize,
    > {
        |b: int|
            if reach[b] {
                seqs::flat(self.blocks[b].dead_phi_result(live), self.blocks[b].phis.len())
            } else {
                Seq::empty()
            }
    }

    /// The results of the phi nodes that are not needed.
    pub open spec fn dead_phis(self, reach: Seq<bool>, live: Seq<bool>) -> Seq<usize> {
        seqs::flat(self.dead_phis_in(reach, live), self.blocks.len())
    }

    /// The phi nodes whose results are not needed are removed.
    pub open spec fn without_dead_phis(
        self,
        reach: Seq<bool>,
        live: Seq<bool>,
        method: T::MethodRef,
    ) -> Removal<T> {
        let events = seqs::flat(self.dead_phi_events(reach, live, method), self.blocks.len());
        Removal {
            ssa: SsaView {
                blocks: Seq::new(
                    self.blocks.len(),
                    |b: int|
                        if reach[b] {
                            self.blocks[b].with_phis(
                                live_phis(self.blocks[b].phis, live, self.blocks[b].phis.len()),
                            )
                        } else {
                            self.blocks[b]
                        },
                ),
                ..self
            }.in_order(events.len() > 0),
            events,
            count: events.len(),
        }
    }

    /// What the instructions of block `b` define and nothing needs.
    pub open spec fn dead_results_in(self, reach: Seq<bool>, live: Seq<bool>) -> spec_fn(
        int,
    ) -> Seq<usize> {
        |b: int|
            if reach[b] {
                seqs::flat(self.blocks[b].dead_results(live), self.blocks[b].instrs.len())
            } else {
                Seq::empty()
            }
    }

    /// What instructions define and nothing needs.
    pub open spec fn dead_defs(self, reach: Seq<bool>, live: Seq<bool>) -> Seq<usize> {
        seqs::flat(self.dead_results_in(reach, live), self.blocks.len())
    }

    /// The events of block `b`, where control can reach it.
    pub open spec fn dead_events(
        self,
        reach: Seq<bool>,
        live: Seq<bool>,
        gone: Seq<usize>,
        method: T::MethodRef,
    ) -> spec_fn(int) -> Seq<EventView<T>> {
        |b: int|
            if reach[b] {
                seqs::flat(
                    self.blocks[b].dead_event(live, gone, method, b),
                    self.blocks[b].instrs.len(),
                )
            } else {
                Seq::empty()
            }
    }

    /// The instructions that are not needed are removed.
    pub open spec fn without_dead_defs(
        self,
        reach: Seq<bool>,
        live: Seq<bool>,
        dead_phis: Seq<usize>,
        method: T::MethodRef,
    ) -> Removal<T> {
        let gone = self.dead_defs(reach, live) + dead_phis;
        let events = seqs::flat(self.dead_events(reach, live, gone, method), self.blocks.len());
        Removal {
            ssa: SsaView {
                blocks: Seq::new(
                    self.blocks.len(),
                    |b: int|
                        if reach[b] {
                            self.blocks[b].without_dead(live, gone)
                        } else {
                            self.blocks[b]
                        },
                ),
                ..self
            }.in_order(events.len() > 0),
            events,
            count: events.len(),
        }
    }

    /// What control cannot reach and what does nothing is removed.
    pub open spec fn tidied(self, method: T::MethodRef) -> Removal<T> {
        let reach = self.reachable();
        let a = self.without_unreachable(reach, method);
        let b = a.ssa.without_opless(reach, method);
        let c = b.ssa.without_nops(reach, method);
        let d = c.ssa.without_strays(reach);
        let e = d.ssa.with_phi_sources(reach, method);
        Removal {
            ssa: e.ssa,
            events: a.events + b.events + c.events + e.events,
            count: a.count + b.count + c.count + d.count + e.count,
        }
    }

    /// What nothing needs is removed.
    pub open spec fn without_unneeded(self, method: T::MethodRef) -> Removal<T> {
        let reach = self.reachable();
        let live = self.live(reach);
        let a = self.without_dead_phis(reach, live, method);
        let b = a.ssa.without_dead_defs(reach, live, self.dead_phis(reach, live), method);
        Removal { ssa: b.ssa, events: a.events + b.events, count: a.count + b.count }
    }

    /// One round of dead code elimination.
    pub open spec fn dead_code_removed_once(self, method: T::MethodRef) -> Removal<T> {
        let a = self.tidied(method);
        let b = a.ssa.without_unneeded(method);
        Removal { ssa: b.ssa, events: a.events + b.events, count: a.count + b.count }
    }

    /// At most `rounds` rounds of dead code elimination, until one changes nothing.
    pub open spec fn dead_code_removed(self, method: T::MethodRef, rounds: nat) -> Outcome<T>
        decreases rounds,
    {
        if rounds == 0 {
            self.untouched()
        } else {
            let first = self.dead_code_removed_once(method);
            if first.count == 0 {
                Outcome { ssa: first.ssa, events: first.events, changed: false }
            } else {
                let rest = first.ssa.dead_code_removed(method, (rounds - 1) as nat);
                Outcome { ssa: rest.ssa, events: first.events + rest.events, changed: true }
            }
        }
    }
}

/// Returns whether a variable is needed.
fn check_live(live: &Vec<bool>, v: SsaVarId) -> (r: bool)
    ensures
        r == is_live(live@, v),
{
    v.0 < live.len() && live[v.0]
}

/// Returns whether an operation only computes what is not needed.
fn check_dead_def<T: Target>(op: &SsaOp<T>, live: &Vec<bool>) -> (r: bool)
    ensures
        r == is_dead_def(op@, live@),
{
    if !op.is_pure() {
        return false;
    }
    if let Op::Pop { .. } = op {
        return false;
    }
    let defs: Vec<SsaVarId> = op.defs();
    let mut k: usize = 0;
    while k < defs.len()
        invariant
            k <= defs@.len(),
            defs@ == op@.defs(),
            forall|j: int| 0 <= j < k ==> !is_live(live@, #[trigger] defs@[j]),
        decreases defs@.len() - k,
    {
        if check_live(live, defs[k]) {
            assert(is_live(live@, defs@[k as int]));
            return false;
        }
        k = k + 1;
    }
    true
}

/// Returns whether an operation is removed.
fn check_dead_op<T: Target>(op: &SsaOp<T>, live: &Vec<bool>, gone: &Vec<usize>) -> (r: bool)
    ensures
        r == is_dead_op(op@, live@, gone@),
{
    if let Op::Pop { value } = op {
        return crate::analysis::cfg::holds(gone, value.0);
    }
    check_dead_def(op, live)
}

/// Removes the phi nodes of a block whose results are not needed.
fn remove_block_phis<T: Target>(
    block: &SsaBlock<T>,
    b: usize,
    live: &Vec<bool>,
    method: &T::MethodRef,
    events: &mut EventLog<T>,
    gone: &mut Vec<usize>,
) -> (r: SsaBlock<T>)
    ensures
        r@ == block@.with_phis(live_phis(block@.phis, live@, block@.phis.len())),
        final(events)@ == old(events)@ + seqs::flat(
            block@.dead_phi_event(live@, *method, b as int),
            block@.phis.len(),
        ),
        final(gone)@ == old(gone)@ + seqs::flat(
            block@.dead_phi_result(live@),
            block@.phis.len(),
        ),
{
    let mut copy: SsaBlock<T> = block.duplicate();
    let mut phis: Vec<PhiNode> = Vec::new();
    let ghost event = block@.dead_phi_event(live@, *method, b as int);
    let ghost result = block@.dead_phi_result(live@);
    assert(phis@.map_values(|p: PhiNode| p@) =~= live_phis(block@.phis, live@, 0));
    assert(events@ =~= old(events)@ + seqs::flat(event, 0));
    assert(gone@ =~= old(gone)@ + seqs::flat(result, 0));
    let mut p: usize = 0;
    while p < block.phis.len()
        invariant
            p <= block.phis@.len(),
            event == block@.dead_phi_event(live@, *method, b as int),
            result == block@.dead_phi_result(live@),
            phis@.map_values(|p: PhiNode| p@) == live_phis(block@.phis, live@, p as nat),
            events@ =~= old(events)@ + seqs::flat(event, p as nat),
            gone@ =~= old(gone)@ + seqs::flat(result, p as nat),
        decreases block.phis@.len() - p,
    {
        assert(block.phis@[p as int]@ == block@.phis[p as int]);
        let ghost kept = phis@;
        let ghost logged = events@;
        let ghost listed = gone@;
        if check_live(live, block.phis[p].result) {
            phis.push(block.phis[p].duplicate());
            assert(phis@.map_values(|p: PhiNode| p@) =~= kept.map_values(|p: PhiNode| p@).push(
                block@.phis[p as int],
            ));
        } else {
            let message: String = String::from_str("removed dead phi node");
            events.record_at(EventKind::PhiSimplified, method, b, message);
            gone.push(block.phis[p].result.0);
        }
        assert(events@ =~= logged + event(p as int));
        assert(gone@ =~= listed + result(p as int));
        p = p + 1;
    }
    copy.phis = phis;
    copy
}

/// Removes the phi nodes whose results are not needed; `gone` receives those results.
fn remove_phis<T: Target>(
    ssa: &mut SsaFunction<T>,
    reach: &Vec<bool>,
    live: &Vec<bool>,
    method: &T::MethodRef,
    events: &mut EventLog<T>,
    gone: &mut Vec<usize>,
) -> (r: usize)
    requires
        reach@.len() == old(ssa)@.blocks.len(),
    ensures
        ({
            let step = old(ssa)@.without_dead_phis(reach@, live@, *method);
            &&& final(ssa)@ == step.ssa
            &&& final(events)@ == old(events)@ + step.events
            &&& r == step.count
        }),
        final(ssa)@.blocks.len() == old(ssa)@.blocks.len(),
        final(gone)@ == old(gone)@ + old(ssa)@.dead_phis(reach@, live@),
{
    let ghost s = ssa@;
    let ghost event = s.dead_phi_events(reach@, live@, *method);
    let ghost results = s.dead_phis_in(reach@, live@);
    let n: usize = ssa.blocks.len();
    let mut log: EventLog<T> = EventLog::new();
    assert(gone@ =~= old(gone)@ + seqs::flat(results, 0));
    let mut b: usize = 0;
    while b < n
        invariant
            b <= n,
            n == s.blocks.len(),
            reach@.len() == n,
            event == s.dead_phi_events(reach@, live@, *method),
            results == s.dead_phis_in(reach@, live@),
            ssa@ == (SsaView { blocks: ssa@.blocks, ..s }),
            ssa@.blocks.len() == n,
            forall|j: int|
                0 <= j < b ==> #[trigger] ssa@.blocks[j] == (if reach@[j] {
                    s.blocks[j].with_phis(
                        live_phis(s.blocks[j].phis, live@, s.blocks[j].phis.len()),
                    )
                } else {
                    s.blocks[j]
                }),
            forall|j: int| b <= j < n ==> #[trigger] ssa@.blocks[j] == s.blocks[j],
            log@ == seqs::flat(event, b as nat),
            gone@ =~= old(gone)@ + seqs::flat(results, b as nat),
        decreases n - b,
    {
        let ghost before = log@;
        let ghost listed = gone@;
        assert(ssa.blocks@[b as int]@ == ssa@.blocks[b as int]);
        if reach[b] {
            let block: SsaBlock<T> = remove_block_phis(
                &ssa.blocks[b],
                b,
                live,
                method,
                &mut log,
                gone,
            );
            ssa.set_block(b, block);
        }
        assert(log@ =~= before + event(b as int));
        assert(gone@ =~= listed + results(b as int));
        b = b + 1;
    }
    let removed: usize = log.len();
    events.append_all(log);
    assert(ssa@.blocks =~= Seq::new(
        s.blocks.len(),
        |b: int|
            if reach@[b] {
                s.blocks[b].with_phis(live_phis(s.blocks[b].phis, live@, s.blocks[b].phis.len()))
            } else {
                s.blocks[b]
            },
    ));
    if removed > 0 {
        ssa.repair_ssa();
    }
    removed
}

/// Returns what instructions define and nothing needs.
fn find_dead_definitions<T: Target>(
    ssa: &SsaFunction<T>,
    reach: &Vec<bool>,
    live: &Vec<bool>,
) -> (r: Vec<usize>)
    requires
        reach@.len() == ssa@.blocks.len(),
    ensures
        r@ == ssa@.dead_defs(reach@, live@),
{
    let mut r: Vec<usize> = Vec::new();
    let ghost f = ssa@.dead_results_in(reach@, live@);
    let mut b: usize = 0;
    while b < ssa.blocks.len()
        invariant
            b <= ssa.blocks@.len(),
            reach@.len() == ssa@.blocks.len(),
            f == ssa@.dead_results_in(reach@, live@),
            r@ == seqs::flat(f, b as nat),
        decreases ssa.blocks@.len() - b,
    {
        assert(ssa.blocks@[b as int]@ == ssa@.blocks[b as int]);
        if reach[b] {
            let block: &SsaBlock<T> = &ssa.blocks[b];
            let ghost g = block@.dead_results(live@);
            assert(r@ =~= seqs::flat(f, b as nat) + seqs::flat(g, 0));
            let mut i: usize = 0;
            while i < block.instrs.len()
                invariant
                    i <= block.instrs@.len(),
                    g == block@.dead_results(live@),
                    r@ =~= seqs::flat(f, b as nat) + seqs::flat(g, i as nat),
                decreases block.instrs@.len() - i,
            {
                assert(block.instrs@[i as int]@ == block@.instrs[i as int]);
                if check_dead_def(&block.instrs[i].op, live) {
                    let defs: Vec<SsaVarId> = block.instrs[i].op.defs();
                    let mut k: usize = 0;
                    while k < defs.len()
                        invariant
                            k <= defs@.len(),
                            g(i as int) == numbers(defs@),
                            r@ =~= seqs::flat(f, b as nat) + seqs::flat(g, i as nat) + g(
                                i as int,
                            ).take(k as int),
                        decreases defs@.len() - k,
                    {
                        r.push(defs[k].0);
                        k = k + 1;
                    }
                    assert(g(i as int).take(k as int) =~= g(i as int));
                }
                assert(seqs::flat(f, b as nat) + seqs::flat(g, i as nat) + g(i as int)
                    =~= seqs::flat(f, b as nat) + seqs::flat(g, (i + 1) as nat));
                i = i + 1;
            }
        }
        b = b + 1;
    }
    r
}

/// Returns what is reported of a removed operation.
fn describe_dead<T: Target>(op: &SsaOp<T>) -> (r: String)
    ensures
        r@ == dead_message(op@),
{
    let defs: Vec<SsaVarId> = op.defs();
    if defs.len() > 0 {
        let mut message: String = String::from_str("dead definition(s) ");
        text::push_var_list(&mut message, &defs);
        return message;
    }
    match op {
        Op::Pop { .. } => String::from_str("dead pop"),
        _ => String::from_str("dead nop"),
    }
}

/// Removes the instructions of a block that are not needed.
fn remove_block_instructions<T: Target>(
    block: &SsaBlock<T>,
    b: usize,
    live: &Vec<bool>,
    gone: &Vec<usize>,
    method: &T::MethodRef,
    events: &mut EventLog<T>,
) -> (r: SsaBlock<T>)
    ensures
        r@ == block@.without_dead(live@, gone@),
        final(events)@ == old(events)@ + seqs::flat(
            block@.dead_event(live@, gone@, *method, b as int),
            block@.instrs.len(),
        ),
{
    let mut copy: SsaBlock<T> = block.duplicate();
    let count: usize = block.instrs.len();
    let ghost event = block@.dead_event(live@, gone@, *method, b as int);
    let ghost goal = block@.without_dead(live@, gone@);
    assert(events@ =~= old(events)@ + seqs::flat(event, 0));
    let mut k: usize = 0;
    while k < count
        invariant
            k <= count,
            count == block.instrs@.len(),
            event == block@.dead_event(live@, gone@, *method, b as int),
            goal == block@.without_dead(live@, gone@),
            copy@ == block@.with_instrs(copy@.instrs),
            copy@.instrs.len() == count,
            forall|j: int|
                count - k <= j < count ==> #[trigger] copy@.instrs[j] == goal.instrs[j],
            forall|j: int|
                0 <= j < count - k ==> #[trigger] copy@.instrs[j] == block@.instrs[j],
            events@ =~= old(events)@ + seqs::flat(event, k as nat),
        decreases count - k,
    {
        let ghost logged = events@;
        let i: usize = count - 1 - k;
        assert(block.instrs@[i as int]@ == block@.instrs[i as int]);
        let op: &SsaOp<T> = &block.instrs[i].op;
        if check_dead_op(op, live, gone) {
            let message: String = describe_dead(op);
            copy.set_op(i, Op::Nop);
            let location: usize = mix_location(b, i);
            events.record_at(EventKind::InstructionRemoved, method, location, message);
        }
        assert(events@ =~= logged + event(k as int));
        k = k + 1;
    }
    assert(copy@.instrs =~= goal.instrs);
    copy
}

/// Removes the instructions that are not needed.
fn remove_instructions<T: Target>(
    ssa: &mut SsaFunction<T>,
    reach: &Vec<bool>,
    live: &Vec<bool>,
    dead_phis: &Vec<usize>,
    method: &T::MethodRef,
    events: &mut EventLog<T>,
) -> (r: usize)
    requires
        reach@.len() == old(ssa)@.blocks.len(),
    ensures
        ({
            let step = old(ssa)@.without_dead_defs(reach@, live@, dead_phis@, *method);
            &&& final(ssa)@ == step.ssa
            &&& final(events)@ == old(events)@ + step.events
            &&& r == step.count
        }),
        final(ssa)@.blocks.len() == old(ssa)@.blocks.len(),
{
    let ghost s = ssa@;
    let mut gone: Vec<usize> = find_dead_definitions(ssa, reach, live);
    let ghost base = gone@;
    let mut k: usize = 0;
    while k < dead_phis.len()
        invariant
            k <= dead_phis@.len(),
            gone@ =~= base + dead_phis@.take(k as int),
        decreases dead_phis@.len() - k,
    {
        gone.push(dead_phis[k]);
        k = k + 1;
    }
    assert(gone@ =~= s.dead_defs(reach@, live@) + dead_phis@);
    let ghost event = s.dead_events(reach@, live@, gone@, *method);
    let n: usize = ssa.blocks.len();
    let mut log: EventLog<T> = EventLog::new();
    let mut b: usize = 0;
    while b < n
        invariant
            b <= n,
            n == s.blocks.len(),
            reach@.len() == n,
            event == s.dead_events(reach@, live@, gone@, *method),
            ssa@ == (SsaView { blocks: ssa@.blocks, ..s }),
            ssa@.blocks.len() == n,
            forall|j: int|
                0 <= j < b ==> #[trigger] ssa@.blocks[j] == (if reach@[j] {
                    s.blocks[j].without_dead(live@, gone@)
                } else {
                    s.blocks[j]
                }),
            forall|j: int| b <= j < n ==> #[trigger] ssa@.blocks[j] == s.blocks[j],
            log@ == seqs::flat(event, b as nat),
        decreases n - b,
    {
        let ghost before = log@;
        assert(ssa.blocks@[b as int]@ == ssa@.blocks[b as int]);
        if reach[b] {
            let block: SsaBlock<T> = remove_block_instructions(
                &ssa.blocks[b],
                b,
                live,
                &gone,
                method,
                &mut log,
            );
            ssa.set_block(b, block);
        }
        assert(log@ =~= before + event(b as int));
        b = b + 1;
    }
    let removed: usize = log.len();
    events.append_all(log);
    assert(ssa@.blocks =~= Seq::new(
        s.blocks.len(),
        |b: int|
            if reach@[b] {
                s.blocks[b].without_dead(live@, gone@)
            } else {
                s.blocks[b]
            },
    ));
    if removed > 0 {
        ssa.repair_ssa();
    }
    removed
}

/// Removes what control cannot reach and what does nothing.
fn tidy<T: Target>(
    ssa: &mut SsaFunction<T>,
    method: &T::MethodRef,
    events: &mut EventLog<T>,
) -> (r: usize)
    ensures
        ({
            let step = old(ssa)@.tidied(*method);
            &&& final(ssa)@ == step.ssa
            &&& final(events)@ == old(events)@ + step.events
            &&& r == capped(step.count)
        }),
{
    let reach: Vec<bool> = ssa.find_reachable_blocks();
    let ghost s = ssa@;
    let cleared: usize = clear_unreachable_blocks(ssa, &reach, method, events);
    let ghost a = ssa@;
    let opless: usize = remove_opless_instructions(ssa, &reach, method, events);
    let ghost b = ssa@;
    let nops: usize = remove_nop_instructions(ssa, &reach, method, events);
    let ghost c = ssa@;
    let pruned: usize = prune_phi_operands(ssa, &reach);
    let ghost d = ssa@;
    let simplified: usize = simplify_trivial_phis(ssa, &reach, method, events);
    proof {
        let e0 = s.without_unreachable(reach@, *method).events;
        let e1 = a.without_opless(reach@, *method).events;
        let e2 = b.without_nops(reach@, *method).events;
        let e3 = d.with_phi_sources(reach@, *method).events;
        assert(old(events)@ + e0 + e1 + e2 + e3 =~= old(events)@ + (e0 + e1 + e2 + e3));
    }
    cleared.saturating_add(opless).saturating_add(nops).saturating_add(pruned).saturating_add(
        simplified,
    )
}

/// Removes what nothing needs.
fn remove_unneeded<T: Target>(
    ssa: &mut SsaFunction<T>,
    method: &T::MethodRef,
    events: &mut EventLog<T>,
) -> (r: usize)
    ensures
        ({
            let step = old(ssa)@.without_unneeded(*method);
            &&& final(ssa)@ == step.ssa
            &&& final(events)@ == old(events)@ + step.events
            &&& r == capped(step.count)
        }),
{
    let ghost s = ssa@;
    let reach: Vec<bool> = ssa.find_reachable_blocks();
    let live: Vec<bool> = compute_live_variables(ssa, &reach);
    let mut dead_phis: Vec<usize> = Vec::new();
    let phis: usize = remove_phis(ssa, &reach, &live, method, events, &mut dead_phis);
    let ghost a = ssa@;
    assert(dead_phis@ =~= s.dead_phis(reach@, live@));
    let instrs: usize = remove_instructions(ssa, &reach, &live, &dead_phis, method, events);
    proof {
        let e0 = s.without_dead_phis(reach@, live@, *method).events;
        let e1 = a.without_dead_defs(reach@, live@, dead_phis@, *method).events;
        assert(old(events)@ + e0 + e1 =~= old(events)@ + (e0 + e1));
    }
    phis.saturating_add(instrs)
}

/// Removes dead code once, and returns the number of changes made.
pub fn run_iteration<T: Target>(
    ssa: &mut SsaFunction<T>,
    method: &T::MethodRef,
    events: &mut EventLog<T>,
) -> (r: usize)
    ensures
        ({
            let step = old(ssa)@.dead_code_removed_once(*method);
            &&& final(ssa)@ == step.ssa
            &&& final(events)@ == old(events)@ + step.events
            &&& r == capped(step.count)
        }),
{
    let ghost s = ssa@;
    let tidied: usize = tidy(ssa, method, events);
    let ghost a = ssa@;
    let removed: usize = remove_unneeded(ssa, method, events);
    proof {
        let e0 = s.tidied(*method).events;
        let e1 = a.without_unneeded(*method).events;
        assert(old(events)@ + e0 + e1 =~= old(events)@ + (e0 + e1));
    }
    tidied.saturating_add(removed)
}

/// Removes dead code until nothing changes, at most `max_iterations` times.
///
/// Returns whether something was removed.
pub fn run<T: Target>(
    ssa: &mut SsaFunction<T>,
    method: &T::MethodRef,
    events: &mut EventLog<T>,
    max_iterations: usize,
) -> (r: bool)
    ensures
        ({
            let outcome = old(ssa)@.dead_code_removed(*method, max_iterations as nat);
            &&& final(ssa)@ == outcome.ssa
            &&& final(events)@ == old(events)@ + outcome.events
            &&& r == outcome.changed
        }),
    decreases max_iterations,
{
    let ghost s = ssa@;
    if max_iterations == 0 {
        assert(events@ =~= old(events)@ + Seq::empty());
        return false;
    }
    if run_iteration(ssa, method, events) == 0 {
        return false;
    }
    let _ = run(ssa, method, events, max_iterations - 1);
    assert(events@ =~= old(events)@ + s.dead_code_removed(*method, max_iterations as nat).events);
    true
}

impl<T: Target> CallView<T> {
    /// The program can come to call method `i`.
    pub open spec fn is_called(self, i: int) -> bool {
        closure::reached(self.methods.len(), self.entries, self.calls(), i as usize)
    }

    /// The event of method `i`, where it is newly marked as dead.
    pub open spec fn dead_method_event(self) -> spec_fn(int) -> Seq<EventView<T>> {
        |i: int|
            if !self.is_called(i) && !self.dead[i] {
                seq![
                    EventView::of(
                        EventKind::MethodMarkedDead,
                        self.methods[i],
                        "method has no live callers"@,
                    ),
                ]
            } else {
                Seq::empty()
            }
    }

    /// The program with the methods that it can never come to call marked as dead.
    pub open spec fn with_dead_marked(self) -> CallView<T> {
        CallView {
            dead: Seq::new(self.dead.len(), |i: int| self.dead[i] || !self.is_called(i)),
            ..self
        }
    }
}

/// Returns the calls that the methods of a program can make.
fn collect_calls<T: Target, W: World<T>>(world: &W) -> (r: Vec<(usize, usize)>)
    ensures
        r@ == world.program().calls(),
{
    let n: usize = world.method_count();
    let mut r: Vec<(usize, usize)> = Vec::new();
    let ghost f = world.program().calls_from();
    let mut i: usize = 0;
    while i < n
        invariant
            i <= n,
            n == world.program().methods.len(),
            f == world.program().calls_from(),
            r@ == seqs::flat(f, i as nat),
        decreases n - i,
    {
        let callees: Vec<usize> = world.callees(i);
        let mut k: usize = 0;
        while k < callees.len()
            invariant
                k <= callees@.len(),
                f(i as int) == callees@.map_values(|c: usize| (i, c)),
                r@ =~= seqs::flat(f, i as nat) + f(i as int).take(k as int),
            decreases callees@.len() - k,
        {
            r.push((i, callees[k]));
            k = k + 1;
        }
        assert(f(i as int).take(k as int) =~= f(i as int));
        i = i + 1;
    }
    r
}

/// Marks the methods that the program can never come to call as dead.
///
/// Returns whether a method was newly marked.
pub fn run_global<T: Target, W: World<T>>(world: &mut W, events: &mut EventLog<T>) -> (r: bool)
    ensures
        final(world).program() == old(world).program().with_dead_marked(),
        ({
            let marked = seqs::flat(
                old(world).program().dead_method_event(),
                old(world).program().methods.len(),
            );
            &&& final(events)@ == old(events)@ + marked
            &&& r == (marked.len() > 0)
        }),
{
    let ghost w = world.program();
    let ghost event = w.dead_method_event();
    let n: usize = world.method_count();
    let entries: Vec<usize> = world.entry_points();
    let calls: Vec<(usize, usize)> = collect_calls(world);
    let live: Vec<bool> = closure::find_reached(n, &entries, &calls);
    let mut log: EventLog<T> = EventLog::new();
    let mut i: usize = 0;
    while i < n
        invariant
            i <= n,
            n == w.methods.len(),
            w.well_formed(),
            live@.len() == n,
            forall|x: int| 0 <= x < n ==> #[trigger] live@[x] == w.is_called(x),
            event == w.dead_method_event(),
            world.program() == (CallView { dead: world.program().dead, ..w }),
            world.program().dead.len() == n,
            forall|j: int|
                0 <= j < i ==> #[trigger] world.program().dead[j] == (w.dead[j] || !w.is_called(j)),
            forall|j: int| i <= j < n ==> #[trigger] world.program().dead[j] == w.dead[j],
            log@ == seqs::flat(event, i as nat),
        decreases n - i,
    {
        let ghost before = log@;
        assert(live@[i as int] == w.is_called(i as int));
        assert(world.program().dead[i as int] == w.dead[i as int]);
        if !live[i] && !world.is_dead_at(i) {
            let method: T::MethodRef = world.method(i);
            world.mark_dead_at(i);
            let message: String = String::from_str("method has no live callers");
            log.record(EventKind::MethodMarkedDead, &method, message);
        }
        assert(log@ =~= before + event(i as int));
        i = i + 1;
    }
    assert(world.program().dead =~= w.with_dead_marked().dead);
    let changed: bool = !log.is_empty();
    events.append_all(log);
    changed
}

/// An operation is among the first `n` that do something exactly where it is among the first `n`
/// and does something.
proof fn lemma_without_nops<T: Target>(instrs: Seq<OpView<T>>, n: nat, op: OpView<T>)
    requires
        n <= instrs.len(),
    ensures
        function::without_nops(instrs, n).contains(op) <==> !(op is Nop) && exists|j: int|
            0 <= j < n && #[trigger] instrs[j] == op,
    decreases n,
{
    if n > 0 {
        lemma_without_nops(instrs, (n - 1) as nat, op);
        let before = function::without_nops(instrs, (n - 1) as nat);
        let last = instrs[n - 1];
        let after = before.push(last);
        if before.contains(op) {
            let k = choose|k: int| 0 <= k < before.len() && before[k] == op;
            assert(after[k] == op);
        }
        if after.contains(op) {
            let k = choose|k: int| 0 <= k < after.len() && after[k] == op;
            if k < before.len() {
                assert(before[k] == op);
            }
        }
        if last == op {
            assert(after[before.len() as int] == op);
        }
    }
}

/// A phi node is among the first `n` that are needed exactly where it is among the first `n` and
/// its result is needed.
proof fn lemma_live_phis(phis: Seq<PhiView>, live: Seq<bool>, n: nat, phi: PhiView)
    requires
        n <= phis.len(),
    ensures
        live_phis(phis, live, n).contains(phi) <==> is_live(live, phi.result) && exists|j: int|
            0 <= j < n && #[trigger] phis[j] == phi,
    decreases n,
{
    if n > 0 {
        lemma_live_phis(phis, live, (n - 1) as nat, phi);
        let before = live_phis(phis, live, (n - 1) as nat);
        let last = phis[n - 1];
        let after = before.push(last);
        if before.contains(phi) {
            let k = choose|k: int| 0 <= k < before.len() && before[k] == phi;
            assert(after[k] == phi);
        }
        if after.contains(phi) {
            let k = choose|k: int| 0 <= k < after.len() && after[k] == phi;
            if k < before.len() {
                assert(before[k] == phi);
            }
        }
        if last == phi {
            assert(after[before.len() as int] == phi);
        }
    }
}

/// Putting a function in order keeps its phi nodes and the operations that do something.
proof fn lemma_in_order<T: Target>(ssa: SsaView<T>, changed: bool, b: int, op: OpView<T>)
    requires
        0 <= b < ssa.blocks.len(),
        !(op is Nop),
    ensures
        ssa.in_order(changed).blocks.len() == ssa.blocks.len(),
        ssa.in_order(changed).blocks[b].phis == ssa.blocks[b].phis,
        ssa.in_order(changed).blocks[b].instrs.contains(op) <==> ssa.blocks[b].instrs.contains(op),
{
    let instrs = ssa.blocks[b].instrs;
    lemma_without_nops(instrs, instrs.len(), op);
    if instrs.contains(op) {
        let j = choose|j: int| 0 <= j < instrs.len() && instrs[j] == op;
        assert(instrs[j] == op);
    }
}

impl<T: Target> BlockView<T> {
    /// A phi node or an operation of the block reads `v`.
    pub open spec fn reads_variable(self, v: SsaVarId) -> bool {
        ||| exists|phi: PhiView| #[trigger] self.phis.contains(phi) && phi.values().contains(v)
        ||| exists|op: OpView<T>| #[trigger] self.instrs.contains(op) && op.uses().contains(v)
    }
}

/// Which operations and phi nodes remain once what is not needed is removed.
proof fn lemma_remaining<T: Target>(ssa: SsaView<T>, method: T::MethodRef, b: int, op: OpView<T>)
    requires
        0 <= b < ssa.blocks.len(),
        ssa.reachable()[b],
        !(op is Nop),
    ensures
        ({
            let reach = ssa.reachable();
            let live = ssa.live(reach);
            let a = ssa.without_dead_phis(reach, live, method).ssa;
            let gone = a.dead_defs(reach, live) + ssa.dead_phis(reach, live);
            let after = ssa.without_unneeded(method).ssa;
            &&& after.blocks[b].instrs.contains(op) <==> ssa.blocks[b].instrs.contains(op)
                && !is_dead_op(op, live, gone)
            &&& a.blocks.len() == ssa.blocks.len()
            &&& a.blocks[b].instrs.contains(op) <==> ssa.blocks[b].instrs.contains(op)
            &&& after.blocks[b].phis == live_phis(
                ssa.blocks[b].phis,
                live,
                ssa.blocks[b].phis.len(),
            )
        }),
{
    let reach = ssa.reachable();
    let live = ssa.live(reach);
    let thin = SsaView {
        blocks: Seq::new(
            ssa.blocks.len(),
            |b: int|
                if reach[b] {
                    ssa.blocks[b].with_phis(
                        live_phis(ssa.blocks[b].phis, live, ssa.blocks[b].phis.len()),
                    )
                } else {
                    ssa.blocks[b]
                },
        ),
        ..ssa
    };
    let first = ssa.without_dead_phis(reach, live, method);
    let a = first.ssa;
    lemma_in_order(thin, first.count > 0, b, op);
    assert(a == thin.in_order(first.count > 0));
    let gone = a.dead_defs(reach, live) + ssa.dead_phis(reach, live);
    let cut = SsaView {
        blocks: Seq::new(
            a.blocks.len(),
            |b: int|
                if reach[b] {
                    a.blocks[b].without_dead(live, gone)
                } else {
                    a.blocks[b]
                },
        ),
        ..a
    };
    let second = a.without_dead_defs(reach, live, ssa.dead_phis(reach, live), method);
    lemma_in_order(cut, second.count > 0, b, op);
    assert(second.ssa == cut.in_order(second.count > 0));
    let whole = a.blocks[b].instrs;
    let kept = cut.blocks[b].instrs;
    assert(kept == a.blocks[b].without_dead(live, gone).instrs);
    if kept.contains(op) {
        let j = choose|j: int| 0 <= j < kept.len() && kept[j] == op;
        assert(whole[j] == op && !is_dead_op(op, live, gone));
    }
    if whole.contains(op) && !is_dead_op(op, live, gone) {
        let j = choose|j: int| 0 <= j < whole.len() && whole[j] == op;
        assert(kept[j] == op);
    }
}

/// Removing what is not needed leaves every definition that something still reads: where a
/// variable is read by a phi node or an operation that remains, every operation and every phi node
/// that defines it remains.
pub proof fn what_is_read_stays_defined<T: Target>(
    ssa: SsaView<T>,
    method: T::MethodRef,
    b: int,
    c: int,
    v: SsaVarId,
)
    requires
        0 <= b < ssa.blocks.len(),
        0 <= c < ssa.blocks.len(),
        ssa.reachable()[b],
        ssa.reachable()[c],
        v.0 < ssa.vars.len(),
        ssa.without_unneeded(method).ssa.blocks[b].reads_variable(v),
    ensures
        forall|op: OpView<T>| #[trigger]
            ssa.blocks[c].instrs.contains(op) && op.defs().contains(v)
                ==> ssa.without_unneeded(method).ssa.blocks[c].instrs.contains(op),
        forall|phi: PhiView| #[trigger]
            ssa.blocks[c].phis.contains(phi) && phi.result == v
                ==> ssa.without_unneeded(method).ssa.blocks[c].phis.contains(phi),
{
    let reach = ssa.reachable();
    let live = ssa.live(reach);
    let a = ssa.without_dead_phis(reach, live, method).ssa;
    let dead_phis = ssa.dead_phis(reach, live);
    let dead_defs = a.dead_defs(reach, live);
    let gone = dead_defs + dead_phis;
    lemma_reader(ssa, method, b, v);
    assert forall|op: OpView<T>| #[trigger]
        ssa.blocks[c].instrs.contains(op) && op.defs().contains(
            v,
        ) implies ssa.without_unneeded(method).ssa.blocks[c].instrs.contains(op) by {
        lemma_remaining(ssa, method, c, op);
        let d = choose|d: int| 0 <= d < op.defs().len() && op.defs()[d] == v;
        if is_dead_op(op, live, gone) {
            assert(!is_live(live, op.defs()[d]));
            let whole = a.blocks[c].instrs;
            let j = choose|j: int| 0 <= j < whole.len() && whole[j] == op;
            assert(numbers(op.defs())[d] == v.0);
            assert(a.blocks[c].dead_results(live)(j) == numbers(op.defs()));
            seqs::lemma_flat_contains(a.blocks[c].dead_results(live), whole.len(), j, v.0);
            assert(a.dead_results_in(reach, live)(c).contains(v.0));
            seqs::lemma_flat_contains(a.dead_results_in(reach, live), a.blocks.len(), c, v.0);
            let k = choose|k: int| 0 <= k < dead_defs.len() && dead_defs[k] == v.0;
            assert(gone[k] == v.0);
        }
    }
    assert forall|phi: PhiView| #[trigger]
        ssa.blocks[c].phis.contains(phi) && phi.result
            == v implies ssa.without_unneeded(method).ssa.blocks[c].phis.contains(phi) by {
        let phis = ssa.blocks[c].phis;
        lemma_remaining(ssa, method, c, Op::Rethrow);
        lemma_live_phis(phis, live, phis.len(), phi);
        let j = choose|j: int| 0 <= j < phis.len() && phis[j] == phi;
        if !is_live(live, v) {
            let one = seq![v.0];
            assert(one[0] == v.0);
            assert(ssa.blocks[c].dead_phi_result(live)(j) == one);
            seqs::lemma_flat_contains(ssa.blocks[c].dead_phi_result(live), phis.len(), j, v.0);
            assert(ssa.dead_phis_in(reach, live)(c).contains(v.0));
            seqs::lemma_flat_contains(ssa.dead_phis_in(reach, live), ssa.blocks.len(), c, v.0);
            let k = choose|k: int| 0 <= k < dead_phis.len() && dead_phis[k] == v.0;
            assert(gone[dead_defs.len() + k] == v.0);
        }
    }
}

/// What a phi node or an operation that remains reads is needed, or is not among what is removed.
proof fn lemma_reader<T: Target>(ssa: SsaView<T>, method: T::MethodRef, b: int, v: SsaVarId)
    requires
        0 <= b < ssa.blocks.len(),
        ssa.reachable()[b],
        v.0 < ssa.vars.len(),
        ssa.without_unneeded(method).ssa.blocks[b].reads_variable(v),
    ensures
        ({
            let reach = ssa.reachable();
            let live = ssa.live(reach);
            let a = ssa.without_dead_phis(reach, live, method).ssa;
            is_live(live, v) || !(a.dead_defs(reach, live) + ssa.dead_phis(reach, live)).contains(
                v.0,
            )
        }),
{
    let reach = ssa.reachable();
    let live = ssa.live(reach);
    let after = ssa.without_unneeded(method).ssa;
    if exists|phi: PhiView| #[trigger]
        after.blocks[b].phis.contains(phi) && phi.values().contains(v) {
        let phi = choose|phi: PhiView| #[trigger]
            after.blocks[b].phis.contains(phi) && phi.values().contains(v);
        let phis = ssa.blocks[b].phis;
        lemma_remaining(ssa, method, b, Op::Rethrow);
        lemma_live_phis(phis, live, phis.len(), phi);
        let p = choose|p: int| 0 <= p < phis.len() && #[trigger] phis[p] == phi;
        let u = choose|u: int| 0 <= u < phi.values().len() && phi.values()[u] == v;
        liveness::reads_of_needed_phis_are_needed(ssa, reach, b, p, u);
    } else {
        let op = choose|op: OpView<T>| #[trigger]
            after.blocks[b].instrs.contains(op) && op.uses().contains(v);
        lemma_remaining(ssa, method, b, op);
        let instrs = ssa.blocks[b].instrs;
        let i = choose|i: int| 0 <= i < instrs.len() && instrs[i] == op;
        let u = choose|u: int| 0 <= u < op.uses().len() && op.uses()[u] == v;
        if !(op is Pop) {
            if op.pure() {
                let d = choose|d: int|
                    0 <= d < op.defs().len() && is_live(live, #[trigger] op.defs()[d]);
                assert(is_live(live, instrs[i].defs()[d]));
            }
            liveness::reads_of_needed_operations_are_needed(ssa, reach, b, i, u);
        }
    }
}

/// Removing what is not needed leaves every operation that does more than compute.
pub proof fn effects_are_kept<T: Target>(
    ssa: SsaView<T>,
    method: T::MethodRef,
    b: int,
    op: OpView<T>,
)
    requires
        0 <= b < ssa.blocks.len(),
        ssa.reachable()[b],
        ssa.blocks[b].instrs.contains(op),
        !op.pure(),
    ensures
        ssa.without_unneeded(method).ssa.blocks[b].instrs.contains(op),
{
    lemma_remaining(ssa, method, b, op);
}

/// A method is marked as dead exactly where it was before or the program can never come to call it.
pub proof fn global_marking_is_exact<T: Target>(program: CallView<T>, i: int)
    requires
        program.well_formed(),
        0 <= i < program.methods.len(),
    ensures
        program.with_dead_marked().dead[i] == (program.dead[i] || !program.is_called(i)),
        program.entries.contains(i as usize) && i <= usize::MAX
            ==> program.with_dead_marked().dead[i] == program.dead[i],
{
    if program.entries.contains(i as usize) && i <= usize::MAX {
        closure::roots_are_reached(
            program.methods.len(),
            program.entries,
            program.calls(),
            i as usize,
        );
    }
}

/// Marking dead methods a second time marks nothing more.
pub proof fn global_marking_is_idempotent<T: Target>(program: CallView<T>)
    ensures
        program.with_dead_marked().with_dead_marked() == program.with_dead_marked(),
{
    let once = program.with_dead_marked();
    assert(once.calls_from() =~= program.calls_from());
    assert(once.calls() == program.calls());
    assert(once.with_dead_marked().dead =~= once.dead);
}

} // verus!
