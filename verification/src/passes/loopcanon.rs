//! Loop canonicalization: every loop is entered through one block and closed by one block.
use crate::analysis::cfg::holds;
use crate::analysis::loops;
use crate::analysis::loops::{analyze_loops, find_outside_predecessors, LoopInfo, LoopView};
use crate::events::{EventKind, EventLog, EventView};
use crate::ir::block::{BlockView, SsaBlock, SsaInstruction};
use crate::ir::edit;
use crate::ir::function::{SsaFunction, SsaView};
use crate::ir::ops::{Op, SsaOp};
use crate::ir::phi::{PhiNode, PhiOperand, PhiView};
use crate::ir::variable::{DefSite, SsaVarId, VarView, VariableOrigin};
use crate::passes::outcome::Outcome;
use crate::target::Target;
use crate::text;
use vstd::prelude::*;
use vstd::string::StringExecFns;

verus! {

/// The operands among the first `n` that come from one of `preds`, or those that do not.
pub open spec fn operands_from(
    operands: Seq<PhiOperand>,
    preds: Seq<usize>,
    from: bool,
    n: nat,
) -> Seq<PhiOperand>
    decreases n,
{
    if n == 0 {
        Seq::empty()
    } else {
        let before = operands_from(operands, preds, from, (n - 1) as nat);
        if preds.contains(operands[n - 1].predecessor) == from {
            before.push(operands[n - 1])
        } else {
            before
        }
    }
}

impl PhiView {
    /// The operands that come from one of `preds`.
    pub open spec fn coming_from(self, preds: Seq<usize>) -> Seq<PhiOperand> {
        operands_from(self.operands, preds, true, self.operands.len())
    }

    /// The phi node with the operands from `preds` exchanged for one.
    pub open spec fn regrouped(self, preds: Seq<usize>, operand: PhiOperand) -> PhiView {
        if self.coming_from(preds).len() > 0 {
            PhiView {
                operands: operands_from(self.operands, preds, false, self.operands.len()).push(
                    operand,
                ),
                ..self
            }
        } else {
            self
        }
    }
}

/// How many of the first `n` phi nodes merge several operands from `preds`.
pub open spec fn merges(phis: Seq<PhiView>, preds: Seq<usize>, n: nat) -> nat
    decreases n,
{
    if n == 0 {
        0
    } else {
        merges(phis, preds, (n - 1) as nat) + (if phis[n - 1].coming_from(preds).len() > 1 {
            1nat
        } else {
            0nat
        })
    }
}

/// The variable that takes the place of phi node `p`, the first such variable being `base`.
pub open spec fn merged_var(phis: Seq<PhiView>, preds: Seq<usize>, base: nat, p: int) -> SsaVarId {
    SsaVarId((base + merges(phis, preds, p as nat)) as usize)
}

/// The phi nodes that merge what the first `n` phi nodes have from `preds`.
pub open spec fn merged_phis(
    phis: Seq<PhiView>,
    preds: Seq<usize>,
    base: nat,
    n: nat,
) -> Seq<PhiView>
    decreases n,
{
    if n == 0 {
        Seq::empty()
    } else {
        let before = merged_phis(phis, preds, base, (n - 1) as nat);
        let phi = phis[n - 1];
        if phi.coming_from(preds).len() > 1 {
            before.push(
                PhiView {
                    result: merged_var(phis, preds, base, n - 1),
                    origin: phi.origin,
                    operands: phi.coming_from(preds),
                },
            )
        } else {
            before
        }
    }
}

/// The variable that phi node `p` takes from the new block: the one created for it where it merges
/// operands from `preds`, and its only operand from there otherwise.
pub open spec fn funnelled_var(phis: Seq<PhiView>, preds: Seq<usize>, base: nat, p: int) -> SsaVarId {
    let from = phis[p].coming_from(preds);
    if from.len() > 1 {
        merged_var(phis, preds, base, p)
    } else {
        from[0].value
    }
}

impl<T: Target> BlockView<T> {
    /// The block after each phi node that had something from `preds` takes it from block `from`.
    pub open spec fn funnelled(self, preds: Seq<usize>, base: nat, from: usize) -> BlockView<T> {
        self.with_phis(
            Seq::new(
                self.phis.len(),
                |p: int|
                    self.phis[p].regrouped(
                        preds,
                        PhiOperand {
                            value: funnelled_var(self.phis, preds, base, p),
                            predecessor: from,
                        },
                    ),
            ),
        )
    }

    /// The block with its last operation going to `to` instead of `from`.
    pub open spec fn with_end_redirected(self, from: usize, to: usize) -> BlockView<T> {
        if self.instrs.len() > 0 {
            self.with_op(self.instrs.len() - 1, self.instrs.last().redirected(from, to))
        } else {
            self
        }
    }
}

impl<T: Target> SsaView<T> {
    /// The type of the first of the first `n` variables that comes from `origin`.
    pub open spec fn type_for(self, origin: VariableOrigin, n: nat) -> Option<T::Type>
        decreases n,
    {
        if n == 0 {
            None
        } else {
            match self.type_for(origin, (n - 1) as nat) {
                Some(t) => Some(t),
                None => if self.vars[n - 1].origin == origin && !self.vars[n - 1].orphan {
                    Some(self.vars[n - 1].var_type)
                } else {
                    None
                },
            }
        }
    }

    /// The variable created for phi node `p` of `phis`.
    pub open spec fn created_var(self, phi: PhiView, id: SsaVarId, b: usize) -> VarView<T> {
        VarView {
            id,
            origin: phi.origin,
            version: 0,
            def_site: DefSite { block: b, instruction: None },
            var_type: match self.type_for(phi.origin, self.vars.len()) {
                Some(t) => t,
                None => T::no_type(),
            },
            uses: Seq::empty(),
            orphan: false,
        }
    }

    /// The variables after one is created for each of the first `n` phi nodes that merge operands.
    pub open spec fn with_created_vars(
        self,
        phis: Seq<PhiView>,
        preds: Seq<usize>,
        b: usize,
        n: nat,
    ) -> Seq<VarView<T>>
        decreases n,
    {
        if n == 0 {
            self.vars
        } else {
            let before = self.with_created_vars(phis, preds, b, (n - 1) as nat);
            if phis[n - 1].coming_from(preds).len() > 1 {
                before.push(
                    self.created_var(
                        phis[n - 1],
                        merged_var(phis, preds, self.vars.len(), n - 1),
                        b,
                    ),
                )
            } else {
                before
            }
        }
    }

    /// The function with the ways from `preds` to `h` leading through a new block.
    pub open spec fn funnelled(self, h: usize, preds: Seq<usize>) -> SsaView<T> {
        let n = self.blocks.len();
        let phis = self.blocks[h as int].phis;
        let funnel = BlockView {
            id: n as usize,
            phis: merged_phis(phis, preds, self.vars.len(), phis.len()),
            instrs: seq![Op::Jump { target: h }],
        };
        let redirected = Seq::new(
            n,
            |b: int|
                if preds.contains(b as usize) {
                    self.blocks[b].with_end_redirected(h, n as usize)
                } else {
                    self.blocks[b]
                },
        );
        SsaView {
            vars: self.with_created_vars(phis, preds, n as usize, phis.len()),
            blocks: redirected.update(
                h as int,
                redirected[h as int].funnelled(preds, self.vars.len(), n as usize),
            ).push(funnel),
            ..self
        }.repaired()
    }
}

/// Returns the operands that come from one of `preds`, or those that do not.
fn filter_operands(operands: &Vec<PhiOperand>, preds: &Vec<usize>, from: bool) -> (r: Vec<
    PhiOperand,
>)
    ensures
        r@ == operands_from(operands@, preds@, from, operands@.len()),
{
    let mut r: Vec<PhiOperand> = Vec::new();
    let mut i: usize = 0;
    while i < operands.len()
        invariant
            i <= operands@.len(),
            r@ == operands_from(operands@, preds@, from, i as nat),
        decreases operands@.len() - i,
    {
        if holds(preds, operands[i].predecessor) == from {
            r.push(operands[i]);
        }
        i = i + 1;
    }
    r
}

/// Exchanges the operands of a phi node from `preds` for one.
fn regroup_phi(phi: &mut PhiNode, preds: &Vec<usize>, operand: PhiOperand)
    ensures
        final(phi)@ == old(phi)@.regrouped(preds@, operand),
{
    let from: Vec<PhiOperand> = filter_operands(&phi.operands, preds, true);
    if from.len() > 0 {
        let mut rest: Vec<PhiOperand> = filter_operands(&phi.operands, preds, false);
        rest.push(operand);
        phi.operands = rest;
    }
}

/// Returns the type of the first variable that comes from `origin`.
fn find_type<T: Target>(ssa: &SsaFunction<T>, origin: VariableOrigin) -> (r: Option<T::Type>)
    ensures
        r == ssa@.type_for(origin, ssa@.vars.len()),
{
    let mut found: Option<T::Type> = None;
    let mut v: usize = 0;
    while v < ssa.variables.len()
        invariant
            v <= ssa.variables@.len(),
            found == ssa@.type_for(origin, v as nat),
        decreases ssa.variables@.len() - v,
    {
        assert(ssa.variables@[v as int]@ == ssa@.vars[v as int]);
        if found.is_none() && ssa.variables[v].origin == origin && !ssa.variables[v].orphan {
            found = Some(ssa.variables[v].var_type);
        }
        v = v + 1;
    }
    found
}

/// The variable for each of the first phi nodes, where one was created.
spec fn vars_noted(
    noted: Seq<Option<SsaVarId>>,
    phis: Seq<PhiView>,
    preds: Seq<usize>,
    base: nat,
) -> bool {
    forall|p: int|
        0 <= p < noted.len() ==> #[trigger] noted[p] == (if phis[p].coming_from(preds).len() > 1 {
            Some(merged_var(phis, preds, base, p))
        } else {
            None
        })
}

/// Creates a variable for each phi node that merges operands from `preds`, and returns the new block
/// with the phi nodes that define them.
fn create_funnel<T: Target>(
    ssa: &mut SsaFunction<T>,
    header: &SsaBlock<T>,
    h: usize,
    preds: &Vec<usize>,
    types: &Vec<T::Type>,
    noted: &mut Vec<Option<SsaVarId>>,
) -> (r: SsaBlock<T>)
    requires
        old(noted)@.len() == 0,
        types@.len() == header@.phis.len(),
        forall|p: int|
            0 <= p < types@.len() ==> #[trigger] types@[p] == (match old(ssa)@.type_for(
                header@.phis[p].origin,
                old(ssa)@.vars.len(),
            ) {
                Some(t) => t,
                None => T::no_type(),
            }),
    ensures
        final(ssa)@ == (SsaView {
            vars: old(ssa)@.with_created_vars(
                header@.phis,
                preds@,
                old(ssa)@.blocks.len() as usize,
                header@.phis.len(),
            ),
            ..old(ssa)@
        }),
        r@ == (BlockView::<T> {
            id: old(ssa)@.blocks.len() as usize,
            phis: merged_phis(header@.phis, preds@, old(ssa)@.vars.len(), header@.phis.len()),
            instrs: seq![Op::Jump { target: h }],
        }),
        final(noted)@.len() == header@.phis.len(),
        vars_noted(final(noted)@, header@.phis, preds@, old(ssa)@.vars.len()),
{
    let ghost s = ssa@;
    let ghost phis = header@.phis;
    let ghost base = s.vars.len();
    let n: usize = ssa.blocks.len();
    let mut block: SsaBlock<T> = SsaBlock::new(n);
    assert(block@.phis =~= merged_phis(phis, preds@, base, 0));
    let mut p: usize = 0;
    while p < header.phis.len()
        invariant
            p <= header.phis@.len(),
            phis == header@.phis,
            base == s.vars.len(),
            n == s.blocks.len(),
            types@.len() == phis.len(),
            forall|p: int|
                0 <= p < types@.len() ==> #[trigger] types@[p] == (match s.type_for(
                    phis[p].origin,
                    s.vars.len(),
                ) {
                    Some(t) => t,
                    None => T::no_type(),
                }),
            ssa@ == (SsaView {
                vars: s.with_created_vars(phis, preds@, n, p as nat),
                ..s
            }),
            ssa@.vars.len() == base + merges(phis, preds@, p as nat),
            block@ == (BlockView::<T> {
                id: n,
                phis: merged_phis(phis, preds@, base, p as nat),
                instrs: Seq::empty(),
            }),
            noted@.len() == p,
            vars_noted(noted@, phis, preds@, base),
        decreases header.phis@.len() - p,
    {
        assert(header.phis@[p as int]@ == phis[p as int]);
        assert(types@[p as int] == (match s.type_for(phis[p as int].origin, s.vars.len()) {
            Some(t) => t,
            None => T::no_type(),
        }));
        let ghost was = noted@;
        let origin: VariableOrigin = header.phis[p].origin;
        let from: Vec<PhiOperand> = filter_operands(&header.phis[p].operands, preds, true);
        if from.len() > 1 {
            let id: SsaVarId = ssa.create_variable(origin, 0, DefSite::phi(n), types[p]);
            assert(id == merged_var(phis, preds@, base, p as int));
            let phi = PhiNode { result: id, origin, operands: from };
            assert(phi@ == (PhiView {
                result: id,
                origin,
                operands: phis[p as int].coming_from(preds@),
            }));
            block.add_phi(phi);
            noted.push(Some(id));
        } else {
            noted.push(None);
        }
        assert forall|k: int| 0 <= k < noted@.len() implies #[trigger] noted@[k] == (if phis[k].coming_from(
            preds@,
        ).len() > 1 {
            Some(merged_var(phis, preds@, base, k))
        } else {
            None
        }) by {
            if k < p {
                assert(noted@[k] == was[k]);
            }
        }
        p = p + 1;
    }
    let op: SsaOp<T> = Op::Jump { target: h };
    block.add_instruction(SsaInstruction::synthetic(op));
    assert(block@.instrs =~= seq![Op::<T, Seq<usize>, Seq<SsaVarId>>::Jump { target: h }]);
    block
}

/// Makes the ways from `preds` to `h` lead through a new block.
fn funnel<T: Target>(ssa: &mut SsaFunction<T>, h: usize, preds: &Vec<usize>)
    requires
        h < old(ssa)@.blocks.len(),
    ensures
        final(ssa)@ == old(ssa)@.funnelled(h, preds@),
{
    let ghost s = ssa@;
    let n: usize = ssa.blocks.len();
    assert(ssa.blocks@[h as int]@ == s.blocks[h as int]);
    let header: SsaBlock<T> = ssa.blocks[h].duplicate();
    let ghost phis = header@.phis;
    let ghost base = s.vars.len();
    let mut types: Vec<T::Type> = Vec::new();
    let mut p: usize = 0;
    while p < header.phis.len()
        invariant
            p <= header.phis@.len(),
            ssa@ == s,
            types@.len() == p,
            forall|k: int|
                0 <= k < p ==> #[trigger] types@[k] == (match s.type_for(
                    header@.phis[k].origin,
                    s.vars.len(),
                ) {
                    Some(t) => t,
                    None => T::no_type(),
                }),
        decreases header.phis@.len() - p,
    {
        assert(header.phis@[p as int]@ == header@.phis[p as int]);
        let t: T::Type = match find_type(ssa, header.phis[p].origin) {
            Some(t) => t,
            None => T::unknown_type(),
        };
        types.push(t);
        p = p + 1;
    }
    let mut noted: Vec<Option<SsaVarId>> = Vec::new();
    let block: SsaBlock<T> = create_funnel(ssa, &header, h, preds, &types, &mut noted);
    let ghost created = ssa@;
    let ghost redirected = Seq::new(
        n as nat,
        |b: int|
            if preds@.contains(b as usize) {
                s.blocks[b].with_end_redirected(h, n)
            } else {
                s.blocks[b]
            },
    );
    let mut b: usize = 0;
    while b < n
        invariant
            b <= n,
            n == s.blocks.len(),
            redirected == Seq::new(
                n as nat,
                |b: int|
                    if preds@.contains(b as usize) {
                        s.blocks[b].with_end_redirected(h, n)
                    } else {
                        s.blocks[b]
                    },
            ),
            created.blocks == s.blocks,
            ssa@ == (SsaView { blocks: ssa@.blocks, ..created }),
            ssa@.blocks.len() == n,
            forall|j: int| 0 <= j < b ==> #[trigger] ssa@.blocks[j] == redirected[j],
            forall|j: int| b <= j < n ==> #[trigger] ssa@.blocks[j] == s.blocks[j],
        decreases n - b,
    {
        assert(ssa.blocks@[b as int]@ == ssa@.blocks[b as int]);
        if holds(preds, b) {
            let count: usize = ssa.blocks[b].instrs.len();
            if count > 0 {
                assert(ssa.blocks@[b as int].instrs@[count - 1]@
                    == s.blocks[b as int].instrs.last());
                let mut op: SsaOp<T> = ssa.blocks[b].instrs[count - 1].op.duplicate();
                op.redirect_target(h, n);
                ssa.set_op(b, count - 1, op);
            }
        }
        b = b + 1;
    }
    assert(ssa@.blocks =~= redirected);
    let mut target: SsaBlock<T> = ssa.blocks[h].duplicate();
    assert(ssa.blocks@[h as int]@ == ssa@.blocks[h as int]);
    let ghost start = target@;
    let ghost goal = start.funnelled(preds@, base, n);
    assert(start.phis == phis);
    let mut p: usize = 0;
    while p < header.phis.len()
        invariant
            p <= header.phis@.len(),
            phis == header@.phis,
            start.phis == phis,
            goal == start.funnelled(preds@, base, n),
            noted@.len() == phis.len(),
            vars_noted(noted@, phis, preds@, base),
            target.phis@.len() == phis.len(),
            target@ == start.with_phis(target@.phis),
            forall|j: int| 0 <= j < p ==> #[trigger] target@.phis[j] == goal.phis[j],
            forall|j: int| p <= j < phis.len() ==> #[trigger] target@.phis[j] == phis[j],
        decreases header.phis@.len() - p,
    {
        let ghost before = target@;
        assert(header.phis@[p as int]@ == phis[p as int]);
        assert(target.phis@[p as int]@ == target@.phis[p as int]);
        assert(noted@[p as int] == (if phis[p as int].coming_from(preds@).len() > 1 {
            Some(merged_var(phis, preds@, base, p as int))
        } else {
            None
        }));
        let value: Option<SsaVarId> = match noted[p] {
            Some(v) => Some(v),
            None => {
                let from: Vec<PhiOperand> = filter_operands(
                    &header.phis[p].operands,
                    preds,
                    true,
                );
                if from.len() > 0 {
                    Some(from[0].value)
                } else {
                    None
                }
            },
        };
        if let Some(value) = value {
            regroup_phi(&mut target.phis[p], preds, PhiOperand { value, predecessor: n });
        }
        assert(target@.phis =~= before.phis.update(p as int, goal.phis[p as int]));
        p = p + 1;
    }
    assert(target@.phis =~= goal.phis);
    ssa.set_block(h, target);
    ssa.push_block(block);
    ssa.repair_ssa();
}

/// The marks, with blocks that are not marked up to `n`.
pub open spec fn padded(marks: Seq<bool>, n: nat) -> Seq<bool> {
    Seq::new(n, |b: int| b < marks.len() && marks[b])
}

impl<T: Target> SsaView<T> {
    /// The blocks outside a loop from which control enters it.
    pub open spec fn ways_in(self, info: LoopView) -> Seq<usize> {
        self.outside_predecessors(info.header, padded(info.body, self.blocks.len()))
    }

    /// What is done about one loop.
    pub open spec fn loop_canonicalized(self, info: LoopView, method: T::MethodRef) -> Outcome<T> {
        let n = self.blocks.len();
        let outside = self.ways_in(info);
        if info.header >= n {
            self.untouched()
        } else if info.preheader is None && outside.len() > 1 {
            Outcome {
                ssa: self.funnelled(info.header, outside),
                events: seq![
                    EventView::at(
                        EventKind::ControlFlowRestructured,
                        method,
                        n as int,
                        "Inserted preheader B"@ + text::decimal(n) + " for loop at B"@
                            + text::decimal(info.header as nat),
                    ),
                ],
                changed: true,
            }
        } else if info.latches.len() > 1 {
            Outcome {
                ssa: self.funnelled(info.header, info.latches),
                events: seq![
                    EventView::at(
                        EventKind::ControlFlowRestructured,
                        method,
                        n as int,
                        "Unified "@ + text::decimal(info.latches.len()) + " latches into B"@
                            + text::decimal(n) + " for loop at B"@ + text::decimal(
                            info.header as nat,
                        ),
                    ),
                ],
                changed: true,
            }
        } else {
            self.untouched()
        }
    }

    /// What is done about the first `k` loops of a list.
    pub open spec fn loops_canonicalized(
        self,
        list: Seq<LoopView>,
        method: T::MethodRef,
        k: nat,
    ) -> Outcome<T>
        decreases k,
    {
        if k == 0 {
            self.untouched()
        } else {
            let before = self.loops_canonicalized(list, method, (k - 1) as nat);
            let step = before.ssa.loop_canonicalized(list[k - 1], method);
            Outcome {
                ssa: step.ssa,
                events: before.events + step.events,
                changed: before.changed || step.changed,
            }
        }
    }

    /// One round over all loops.
    pub open spec fn canonical_round(self, method: T::MethodRef) -> Outcome<T> {
        self.loops_canonicalized(self.loops(), method, self.loops().len())
    }

    /// Rounds over all loops until one changes nothing.
    pub open spec fn canonical_loops(self, method: T::MethodRef) -> Outcome<T>
        decreases usize::MAX - self.blocks.len(),
    {
        proof {
            lemma_round_grows(self, self.loops(), method, self.loops().len());
        }
        let first = self.canonical_round(method);
        if !first.changed || first.ssa.blocks.len() > usize::MAX {
            first
        } else {
            let rest = first.ssa.canonical_loops(method);
            Outcome { ssa: rest.ssa, events: first.events + rest.events, changed: true }
        }
    }

    /// What the pass makes of the function.
    pub open spec fn loops_made_canonical(self, method: T::MethodRef) -> Outcome<T> {
        if self.blocks.len() < 2 {
            self.untouched()
        } else {
            let outcome = self.canonical_loops(method);
            if outcome.changed {
                Outcome { ssa: outcome.ssa.repaired(), ..outcome }
            } else {
                outcome
            }
        }
    }

    /// Every loop is entered through one block and closed by one.
    pub open spec fn has_canonical_loops(self) -> bool {
        forall|k: int|
            0 <= k < self.loops().len() ==> {
                let info = #[trigger] self.loops()[k];
                info.header < self.blocks.len() ==> (info.preheader is Some || self.ways_in(
                    info,
                ).len() <= 1) && info.latches.len() <= 1
            }
    }
}

/// A new block comes with every change.
pub proof fn lemma_round_grows<T: Target>(
    ssa: SsaView<T>,
    list: Seq<LoopView>,
    method: T::MethodRef,
    k: nat,
)
    ensures
        ({
            let outcome = ssa.loops_canonicalized(list, method, k);
            if outcome.changed {
                outcome.ssa.blocks.len() > ssa.blocks.len()
            } else {
                outcome.ssa == ssa
            }
        }),
    decreases k,
{
    if k > 0 {
        lemma_round_grows(ssa, list, method, (k - 1) as nat);
    }
}

/// A round that changes nothing finds every loop entered through one block and closed by one.
pub proof fn quiet_round_is_canonical<T: Target>(ssa: SsaView<T>, method: T::MethodRef)
    requires
        !ssa.canonical_round(method).changed,
    ensures
        ssa.has_canonical_loops(),
{
    let list = ssa.loops();
    assert forall|k: int| 0 <= k < list.len() implies {
        let info = #[trigger] ssa.loops()[k];
        info.header < ssa.blocks.len() ==> (info.preheader is Some || ssa.ways_in(info).len() <= 1)
            && info.latches.len() <= 1
    } by {
        lemma_quiet_prefix(ssa, list, method, (k + 1) as nat, list.len());
        lemma_quiet_prefix(ssa, list, method, k as nat, list.len());
        lemma_round_grows(ssa, list, method, k as nat);
    }
}

proof fn lemma_quiet_prefix<T: Target>(
    ssa: SsaView<T>,
    list: Seq<LoopView>,
    method: T::MethodRef,
    j: nat,
    k: nat,
)
    requires
        j <= k,
        !ssa.loops_canonicalized(list, method, k).changed,
    ensures
        !ssa.loops_canonicalized(list, method, j).changed,
    decreases k,
{
    if j < k {
        lemma_quiet_prefix(ssa, list, method, j, (k - 1) as nat);
    }
}

/// The rounds end with every loop entered through one block and closed by one.
pub proof fn rounds_end_canonical<T: Target>(ssa: SsaView<T>, method: T::MethodRef)
    requires
        ssa.canonical_loops(method).ssa.blocks.len() <= usize::MAX,
    ensures
        ssa.canonical_loops(method).ssa.has_canonical_loops(),
    decreases usize::MAX - ssa.blocks.len(),
{
    lemma_round_grows(ssa, ssa.loops(), method, ssa.loops().len());
    let first = ssa.canonical_round(method);
    if !first.changed {
        quiet_round_is_canonical(ssa, method);
    } else if first.ssa.blocks.len() <= usize::MAX {
        rounds_end_canonical(first.ssa, method);
    }
}

/// A function whose loops are canonical is left as it is.
pub proof fn canonical_loops_are_left_alone<T: Target>(ssa: SsaView<T>, method: T::MethodRef)
    requires
        ssa.has_canonical_loops(),
    ensures
        ssa.loops_made_canonical(method) == ssa.untouched(),
{
    lemma_canonical_quiet(ssa, ssa.loops(), method, ssa.loops().len());
}

proof fn lemma_canonical_quiet<T: Target>(
    ssa: SsaView<T>,
    list: Seq<LoopView>,
    method: T::MethodRef,
    k: nat,
)
    requires
        list == ssa.loops(),
        k <= list.len(),
        ssa.has_canonical_loops(),
    ensures
        ssa.loops_canonicalized(list, method, k) == ssa.untouched(),
    decreases k,
{
    if k > 0 {
        lemma_canonical_quiet(ssa, list, method, (k - 1) as nat);
        let info = ssa.loops()[k - 1];
        assert(ssa.loop_canonicalized(info, method) == ssa.untouched());
        assert(ssa.untouched().events + ssa.untouched().events =~= ssa.untouched().events);
    }
}

/// Returns the marks, with blocks that are not marked up to `n`.
fn pad_marks(marks: &Vec<bool>, n: usize) -> (r: Vec<bool>)
    ensures
        r@ == padded(marks@, n as nat),
{
    let mut r: Vec<bool> = Vec::new();
    let mut b: usize = 0;
    while b < n
        invariant
            b <= n,
            r@ =~= padded(marks@, b as nat),
        decreases n - b,
    {
        r.push(b < marks.len() && marks[b]);
        b = b + 1;
    }
    r
}

/// Gives a loop one block that it is entered through.
fn insert_preheader<T: Target>(
    ssa: &mut SsaFunction<T>,
    header: usize,
    outside: &Vec<usize>,
    method: &T::MethodRef,
    events: &mut EventLog<T>,
)
    requires
        header < old(ssa)@.blocks.len(),
    ensures
        final(ssa)@ == old(ssa)@.funnelled(header, outside@),
        final(events)@ == old(events)@.push(
            EventView::at(
                EventKind::ControlFlowRestructured,
                *method,
                old(ssa)@.blocks.len() as int,
                "Inserted preheader B"@ + text::decimal(old(ssa)@.blocks.len())
                    + " for loop at B"@ + text::decimal(header as nat),
            ),
        ),
{
    let n: usize = ssa.blocks.len();
    funnel(ssa, header, outside);
    let mut message: String = String::from_str("Inserted preheader B");
    text::push_number(&mut message, n);
    message.append(" for loop at B");
    text::push_number(&mut message, header);
    events.record_at(EventKind::ControlFlowRestructured, method, n, message);
}

/// Gives a loop one block that closes it.
fn unify_latches<T: Target>(
    ssa: &mut SsaFunction<T>,
    header: usize,
    latches: &Vec<usize>,
    method: &T::MethodRef,
    events: &mut EventLog<T>,
)
    requires
        header < old(ssa)@.blocks.len(),
    ensures
        final(ssa)@ == old(ssa)@.funnelled(header, latches@),
        final(events)@ == old(events)@.push(
            EventView::at(
                EventKind::ControlFlowRestructured,
                *method,
                old(ssa)@.blocks.len() as int,
                "Unified "@ + text::decimal(latches@.len()) + " latches into B"@ + text::decimal(
                    old(ssa)@.blocks.len(),
                ) + " for loop at B"@ + text::decimal(header as nat),
            ),
        ),
{
    let n: usize = ssa.blocks.len();
    funnel(ssa, header, latches);
    let mut message: String = String::from_str("Unified ");
    text::push_number(&mut message, latches.len());
    message.append(" latches into B");
    text::push_number(&mut message, n);
    message.append(" for loop at B");
    text::push_number(&mut message, header);
    events.record_at(EventKind::ControlFlowRestructured, method, n, message);
}

/// Does what is to be done about one loop.
fn canonicalize_loop<T: Target>(
    ssa: &mut SsaFunction<T>,
    info: &LoopInfo,
    method: &T::MethodRef,
    events: &mut EventLog<T>,
) -> (r: bool)
    ensures
        ({
            let outcome = old(ssa)@.loop_canonicalized(info@, *method);
            &&& final(ssa)@ == outcome.ssa
            &&& final(events)@ == old(events)@ + outcome.events
            &&& r == outcome.changed
        }),
{
    let ghost s = ssa@;
    let n: usize = ssa.blocks.len();
    if info.header >= n {
        assert(events@ =~= old(events)@ + Seq::empty());
        return false;
    }
    if info.preheader.is_none() {
        let body: Vec<bool> = pad_marks(&info.body, n);
        let outside: Vec<usize> = find_outside_predecessors(ssa, info.header, &body);
        if outside.len() > 1 {
            insert_preheader(ssa, info.header, &outside, method, events);
            assert(events@ =~= old(events)@ + s.loop_canonicalized(info@, *method).events);
            return true;
        }
    }
    if info.latches.len() > 1 {
        unify_latches(ssa, info.header, &info.latches, method, events);
        assert(events@ =~= old(events)@ + s.loop_canonicalized(info@, *method).events);
        return true;
    }
    assert(events@ =~= old(events)@ + Seq::empty());
    false
}

/// Makes loops canonical until a round changes nothing.
fn canonicalize_loops<T: Target>(
    ssa: &mut SsaFunction<T>,
    method: &T::MethodRef,
    events: &mut EventLog<T>,
) -> (r: bool)
    ensures
        ({
            let outcome = old(ssa)@.canonical_loops(*method);
            &&& final(ssa)@ == outcome.ssa
            &&& final(events)@ == old(events)@ + outcome.events
            &&& r == outcome.changed
        }),
    decreases usize::MAX - old(ssa)@.blocks.len(),
{
    let ghost s = ssa@;
    let forest: Vec<LoopInfo> = analyze_loops(ssa);
    let ghost list = loops::loop_views(forest@);
    let mut changed: bool = false;
    assert(events@ =~= old(events)@ + s.loops_canonicalized(list, *method, 0).events);
    let mut k: usize = 0;
    while k < forest.len()
        invariant
            k <= forest@.len(),
            list == loops::loop_views(forest@),
            ssa@ == s.loops_canonicalized(list, *method, k as nat).ssa,
            changed == s.loops_canonicalized(list, *method, k as nat).changed,
            events@ =~= old(events)@ + s.loops_canonicalized(list, *method, k as nat).events,
        decreases forest@.len() - k,
    {
        assert(list[k as int] == forest@[k as int]@);
        if canonicalize_loop(ssa, &forest[k], method, events) {
            changed = true;
        }
        k = k + 1;
    }
    proof {
        lemma_round_grows(s, list, *method, list.len());
    }
    let now: usize = ssa.blocks.len();
    if !changed {
        return false;
    }
    let ghost first = s.canonical_round(*method);
    let ghost rest = first.ssa.canonical_loops(*method);
    let _ = canonicalize_loops(ssa, method, events);
    assert(old(events)@ + first.events + rest.events =~= old(events)@ + (first.events
        + rest.events));
    true
}

/// Makes every loop one that is entered through one block and closed by one.
///
/// Returns whether a block was added.
pub fn run<T: Target>(
    ssa: &mut SsaFunction<T>,
    method: &T::MethodRef,
    events: &mut EventLog<T>,
) -> (r: bool)
    ensures
        ({
            let outcome = old(ssa)@.loops_made_canonical(*method);
            &&& final(ssa)@ == outcome.ssa
            &&& final(events)@ == old(events)@ + outcome.events
            &&& r == outcome.changed
        }),
{
    if ssa.block_count() < 2 {
        assert(events@ =~= old(events)@ + Seq::empty());
        return false;
    }
    if canonicalize_loops(ssa, method, events) {
        ssa.repair_ssa();
        true
    } else {
        false
    }
}

proof fn lemma_round_in_order<T: Target>(
    ssa: SsaView<T>,
    list: Seq<LoopView>,
    method: T::MethodRef,
    k: nat,
)
    ensures
        ({
            let outcome = ssa.loops_canonicalized(list, method, k);
            outcome.changed ==> outcome.ssa.repaired() == outcome.ssa
        }),
    decreases k,
{
    if k > 0 {
        lemma_round_in_order(ssa, list, method, (k - 1) as nat);
        let before = ssa.loops_canonicalized(list, method, (k - 1) as nat).ssa;
        lemma_loop_in_order(before, list[k - 1], method);
    }
}

proof fn lemma_loop_in_order<T: Target>(ssa: SsaView<T>, info: LoopView, method: T::MethodRef)
    ensures
        ({
            let outcome = ssa.loop_canonicalized(info, method);
            if outcome.changed {
                outcome.ssa.repaired() == outcome.ssa
            } else {
                outcome.ssa == ssa
            }
        }),
{
    lemma_funnelled_in_order(ssa, info.header, ssa.ways_in(info));
    lemma_funnelled_in_order(ssa, info.header, info.latches);
}

proof fn lemma_funnelled_in_order<T: Target>(
    ssa: SsaView<T>,
    h: usize,
    preds: Seq<usize>,
)
    ensures
        ssa.funnelled(h, preds).repaired() == ssa.funnelled(h, preds),
{
    let n = ssa.blocks.len();
    let phis = ssa.blocks[h as int].phis;
    let funnel = BlockView {
        id: n as usize,
        phis: merged_phis(phis, preds, ssa.vars.len(), phis.len()),
        instrs: seq![Op::Jump { target: h }],
    };
    let redirected = Seq::new(
        n,
        |b: int|
            if preds.contains(b as usize) {
                ssa.blocks[b].with_end_redirected(h, n as usize)
            } else {
                ssa.blocks[b]
            },
    );
    let changed = SsaView {
        vars: ssa.with_created_vars(phis, preds, n as usize, phis.len()),
        blocks: redirected.update(
            h as int,
            redirected[h as int].funnelled(preds, ssa.vars.len(), n as usize),
        ).push(funnel),
        ..ssa
    };
    assert(ssa.funnelled(h, preds) == changed.repaired());
    edit::repair_is_idempotent(changed);
}

proof fn lemma_rounds_in_order<T: Target>(ssa: SsaView<T>, method: T::MethodRef)
    ensures
        ssa.canonical_loops(method).changed ==> ssa.canonical_loops(method).ssa.repaired()
            == ssa.canonical_loops(method).ssa,
    decreases usize::MAX - ssa.blocks.len(),
{
    lemma_round_grows(ssa, ssa.loops(), method, ssa.loops().len());
    lemma_round_in_order(ssa, ssa.loops(), method, ssa.loops().len());
    let first = ssa.canonical_round(method);
    if first.changed && first.ssa.blocks.len() <= usize::MAX {
        lemma_rounds_in_order(first.ssa, method);
        lemma_quiet_rounds(first.ssa, method);
    }
}

proof fn lemma_quiet_rounds<T: Target>(ssa: SsaView<T>, method: T::MethodRef)
    ensures
        !ssa.canonical_loops(method).changed ==> ssa.canonical_loops(method).ssa == ssa,
{
    lemma_round_grows(ssa, ssa.loops(), method, ssa.loops().len());
}

/// The pass leaves every loop entered through one block and closed by one.
pub proof fn canonicalization_is_complete<T: Target>(ssa: SsaView<T>, method: T::MethodRef)
    requires
        2 <= ssa.blocks.len(),
        ssa.loops_made_canonical(method).ssa.blocks.len() <= usize::MAX,
    ensures
        ssa.loops_made_canonical(method).ssa.has_canonical_loops(),
{
    lemma_rounds_in_order(ssa, method);
    rounds_end_canonical(ssa, method);
}

/// A second run of the pass changes nothing.
pub proof fn canonicalization_is_idempotent<T: Target>(ssa: SsaView<T>, method: T::MethodRef)
    requires
        ssa.loops_made_canonical(method).ssa.blocks.len() <= usize::MAX,
    ensures
        ({
            let once = ssa.loops_made_canonical(method).ssa;
            once.loops_made_canonical(method) == once.untouched()
        }),
{
    if ssa.blocks.len() >= 2 {
        canonicalization_is_complete(ssa, method);
        canonical_loops_are_left_alone(ssa.loops_made_canonical(method).ssa, method);
    }
}

} // verus!
