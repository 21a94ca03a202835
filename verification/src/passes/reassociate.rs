//! Reassociation: two operations with constants become one.
//!
//! `(x op c1) op c2` becomes `x op (c1 combined c2)`: the constant `c1` is replaced by the
//! combination, the inner operation computes the result, and the outer one copies it.
use crate::events::{EventKind, EventLog, EventView};
use crate::ir::function::{SsaFunction, SsaView};
use crate::ir::ops::{Op, OpView, SsaOp};
use crate::ir::value::{ArithKind, ConstValue};
use crate::ir::variable::SsaVarId;
use crate::passes::outcome::Outcome;
use crate::passes::predicates::DefinitionCache;
use crate::pointer;
use crate::pointer::PointerSize;
use crate::seqs;
use crate::target::Target;
use vstd::prelude::*;
use vstd::string::StringExecFns;

verus! {

/// The kind of operation that is reassociated.
#[derive(Debug, Clone, Copy, PartialEq, Eq, Structural)]
pub enum OpKind {
    /// Addition.
    Add,
    /// Subtraction.
    Sub,
    /// Multiplication.
    Mul,
    /// Bitwise conjunction.
    And,
    /// Bitwise disjunction.
    Or,
    /// Bitwise exclusive disjunction.
    Xor,
    /// Left shift.
    Shl,
    /// Right shift.
    Shr { unsigned: bool },
}

impl OpKind {
    /// How the two constants are combined: subtrahends and shift amounts add up.
    pub open spec fn combination(self) -> ArithKind {
        match self {
            OpKind::Add => ArithKind::Add,
            OpKind::Sub => ArithKind::Add,
            OpKind::Shl => ArithKind::Add,
            OpKind::Shr { .. } => ArithKind::Add,
            OpKind::Mul => ArithKind::Mul,
            OpKind::And => ArithKind::And,
            OpKind::Or => ArithKind::Or,
            OpKind::Xor => ArithKind::Xor,
        }
    }

    /// Exchanging the operands changes nothing.
    pub open spec fn commutes(self) -> bool {
        match self {
            OpKind::Sub => false,
            OpKind::Shl => false,
            OpKind::Shr { .. } => false,
            _ => true,
        }
    }

    /// The name of the operation.
    pub open spec fn label(self) -> Seq<char> {
        match self {
            OpKind::Add => "add"@,
            OpKind::Sub => "sub"@,
            OpKind::Mul => "mul"@,
            OpKind::And => "and"@,
            OpKind::Or => "or"@,
            OpKind::Xor => "xor"@,
            OpKind::Shl => "shl"@,
            OpKind::Shr { unsigned: false } => "shr"@,
            OpKind::Shr { unsigned: true } => "shr.un"@,
        }
    }

    /// The name of the operation that combines the constants.
    pub open spec fn combination_label(self) -> Seq<char> {
        if self.commutes() {
            self.label()
        } else {
            "add"@
        }
    }

    /// The operation of this kind.
    pub open spec fn operation<T: Target>(
        self,
        dest: SsaVarId,
        left: SsaVarId,
        right: SsaVarId,
    ) -> OpView<T> {
        match self {
            OpKind::Add => Op::Add { dest, left, right, flags: None },
            OpKind::Sub => Op::Sub { dest, left, right, flags: None },
            OpKind::Mul => Op::Mul { dest, left, right, flags: None },
            OpKind::And => Op::And { dest, left, right, flags: None },
            OpKind::Or => Op::Or { dest, left, right, flags: None },
            OpKind::Xor => Op::Xor { dest, left, right, flags: None },
            OpKind::Shl => Op::Shl { dest, value: left, amount: right, flags: None },
            OpKind::Shr { unsigned } => Op::Shr {
                dest,
                value: left,
                amount: right,
                unsigned,
                flags: None,
            },
        }
    }

    /// Combines the two constants.
    #[must_use]
    pub fn combine(self, c1: &ConstValue, c2: &ConstValue, ptr_size: PointerSize) -> (r: Option<
        ConstValue,
    >)
        ensures
            r == ConstValue::combined(self.combination(), *c1, *c2, ptr_size),
    {
        match self {
            OpKind::Add => c1.add(c2, ptr_size),
            OpKind::Sub => c1.add(c2, ptr_size),
            OpKind::Shl => c1.add(c2, ptr_size),
            OpKind::Shr { .. } => c1.add(c2, ptr_size),
            OpKind::Mul => c1.mul(c2, ptr_size),
            OpKind::And => c1.bitwise_and(c2, ptr_size),
            OpKind::Or => c1.bitwise_or(c2, ptr_size),
            OpKind::Xor => c1.bitwise_xor(c2, ptr_size),
        }
    }

    /// Returns the name of the operation.
    #[must_use]
    pub fn name(self) -> (r: &'static str)
        ensures
            r@ == self.label(),
    {
        match self {
            OpKind::Add => "add",
            OpKind::Sub => "sub",
            OpKind::Mul => "mul",
            OpKind::And => "and",
            OpKind::Or => "or",
            OpKind::Xor => "xor",
            OpKind::Shl => "shl",
            OpKind::Shr { unsigned } => if unsigned {
                "shr.un"
            } else {
                "shr"
            },
        }
    }

    /// Returns the name of the operation that combines the constants.
    #[must_use]
    pub fn combine_name(self) -> (r: &'static str)
        ensures
            r@ == self.combination_label(),
    {
        if self.is_commutative() {
            self.name()
        } else {
            "add"
        }
    }

    /// Returns whether exchanging the operands changes nothing.
    #[must_use]
    pub fn is_commutative(self) -> (r: bool)
        ensures
            r == self.commutes(),
    {
        match self {
            OpKind::Sub => false,
            OpKind::Shl => false,
            OpKind::Shr { .. } => false,
            _ => true,
        }
    }
}

/// Kind, result and operands of an operation that can be reassociated.
pub open spec fn op_kind<T: Target, B, A>(op: Op<T, B, A>) -> Option<
    (OpKind, SsaVarId, SsaVarId, SsaVarId),
> {
    match op {
        Op::Add { dest, left, right, .. } => Some((OpKind::Add, dest, left, right)),
        Op::Sub { dest, left, right, .. } => Some((OpKind::Sub, dest, left, right)),
        Op::Mul { dest, left, right, .. } => Some((OpKind::Mul, dest, left, right)),
        Op::And { dest, left, right, .. } => Some((OpKind::And, dest, left, right)),
        Op::Or { dest, left, right, .. } => Some((OpKind::Or, dest, left, right)),
        Op::Xor { dest, left, right, .. } => Some((OpKind::Xor, dest, left, right)),
        Op::Shl { dest, value, amount, .. } => Some((OpKind::Shl, dest, value, amount)),
        Op::Shr { dest, value, amount, unsigned, .. } => Some(
            (OpKind::Shr { unsigned }, dest, value, amount),
        ),
        _ => None,
    }
}

/// Returns kind, result and operands of an operation that can be reassociated.
pub fn get_op_kind<T: Target>(op: &SsaOp<T>) -> (r: Option<(OpKind, SsaVarId, SsaVarId, SsaVarId)>)
    ensures
        r == op_kind(op@),
{
    match op {
        Op::Add { dest, left, right, .. } => Some((OpKind::Add, *dest, *left, *right)),
        Op::Sub { dest, left, right, .. } => Some((OpKind::Sub, *dest, *left, *right)),
        Op::Mul { dest, left, right, .. } => Some((OpKind::Mul, *dest, *left, *right)),
        Op::And { dest, left, right, .. } => Some((OpKind::And, *dest, *left, *right)),
        Op::Or { dest, left, right, .. } => Some((OpKind::Or, *dest, *left, *right)),
        Op::Xor { dest, left, right, .. } => Some((OpKind::Xor, *dest, *left, *right)),
        Op::Shl { dest, value, amount, .. } => Some((OpKind::Shl, *dest, *value, *amount)),
        Op::Shr { dest, value, amount, unsigned, .. } => Some(
            (OpKind::Shr { unsigned: *unsigned }, *dest, *value, *amount),
        ),
        _ => None,
    }
}

/// Returns the operation of kind `kind`.
pub fn make_op<T: Target>(
    kind: OpKind,
    dest: SsaVarId,
    left: SsaVarId,
    right: SsaVarId,
) -> (r: SsaOp<T>)
    ensures
        r@ == kind.operation::<T>(dest, left, right),
        op_kind(r@) == Some((kind, dest, left, right)),
{
    match kind {
        OpKind::Add => Op::Add { dest, left, right, flags: None },
        OpKind::Sub => Op::Sub { dest, left, right, flags: None },
        OpKind::Mul => Op::Mul { dest, left, right, flags: None },
        OpKind::And => Op::And { dest, left, right, flags: None },
        OpKind::Or => Op::Or { dest, left, right, flags: None },
        OpKind::Xor => Op::Xor { dest, left, right, flags: None },
        OpKind::Shl => Op::Shl { dest, value: left, amount: right, flags: None },
        OpKind::Shr { unsigned } => Op::Shr {
            dest,
            value: left,
            amount: right,
            unsigned,
            flags: None,
        },
    }
}

/// An opportunity: `dest = (base_var op c1) op c2`.
#[derive(Debug, Clone, Copy, PartialEq, Eq)]
pub struct ReassociationCandidate {
    /// Block and index of the outer instruction.
    pub outer: (usize, usize),
    /// Result of the outer instruction.
    pub dest: SsaVarId,
    /// The operand of the inner operation that is not the constant.
    pub base_var: SsaVarId,
    /// The variable that holds `c1`.
    pub const1_var: SsaVarId,
    /// The constant `c1`.
    pub const1_value: ConstValue,
    /// The constant `c2`.
    pub const2_value: ConstValue,
    /// Block and index of the inner instruction.
    pub inner: (usize, usize),
    /// Result of the inner instruction.
    pub inner_dest: SsaVarId,
    /// The kind of both operations.
    pub op_kind: OpKind,
}

/// The first instruction from `n` on that loads a constant into `v`.
pub open spec fn const_index<T: Target>(instrs: Seq<OpView<T>>, v: SsaVarId, n: nat) -> Option<int>
    decreases instrs.len() - n,
{
    if n >= instrs.len() {
        None
    } else if instrs[n as int] matches Op::Const { dest, .. } && dest == v {
        Some(n as int)
    } else {
        const_index(instrs, v, n + 1)
    }
}

/// A function in the course of being rewritten.
pub struct Progress<T: Target> {
    pub ssa: SsaView<T>,
    /// The instructions rewritten so far.
    pub modified: Seq<(usize, usize)>,
    pub events: Seq<EventView<T>>,
}

impl<T: Target> Progress<T> {
    /// The constant that the candidate calls for and the place to put it, where it can be applied.
    ///
    /// It cannot where an earlier rewriting touched one of its instructions, where the constants do
    /// not combine, or where `c1` is not loaded in the block of the inner instruction.
    pub open spec fn applicable(
        self,
        candidate: ReassociationCandidate,
        ptr_size: PointerSize,
    ) -> Option<(ConstValue, int)> {
        if self.modified.contains(candidate.inner) || self.modified.contains(candidate.outer) {
            None
        } else {
            match (
                ConstValue::combined(
                    candidate.op_kind.combination(),
                    candidate.const1_value,
                    candidate.const2_value,
                    ptr_size,
                ),
                const_index(
                    self.ssa.blocks[candidate.inner.0 as int].instrs,
                    candidate.const1_var,
                    0,
                ),
            ) {
                (Some(combined), Some(at)) => Some((combined, at)),
                _ => None,
            }
        }
    }

    /// The progress after one more candidate.
    pub open spec fn step(
        self,
        candidate: ReassociationCandidate,
        method: T::MethodRef,
        ptr_size: PointerSize,
    ) -> Progress<T> {
        match self.applicable(candidate, ptr_size) {
            Some((combined, at)) => {
                let c = candidate;
                Progress {
                    ssa: self.ssa.with_op(
                        c.inner.0 as int,
                        at,
                        Op::Const { dest: c.const1_var, value: combined },
                    ).with_op(
                        c.inner.0 as int,
                        c.inner.1 as int,
                        c.op_kind.operation(c.inner_dest, c.base_var, c.const1_var),
                    ).with_op(
                        c.outer.0 as int,
                        c.outer.1 as int,
                        Op::Copy { dest: c.dest, src: c.inner_dest },
                    ),
                    modified: self.modified.push(c.inner).push(c.outer),
                    events: self.events.push(
                        EventView::at(
                            EventKind::ConstantFolded,
                            method,
                            c.outer.1 as int,
                            "reassociate: (x "@ + c.op_kind.label() + " c1) "@ + c.op_kind.label()
                                + " c2 → x "@ + c.op_kind.label() + " (c1 "@
                                + c.op_kind.combination_label() + " c2)"@,
                        ),
                    ),
                }
            },
            None => self,
        }
    }

    /// The progress after the first `n` candidates.
    pub open spec fn steps(
        self,
        candidates: Seq<ReassociationCandidate>,
        method: T::MethodRef,
        ptr_size: PointerSize,
        n: nat,
    ) -> Progress<T>
        decreases n,
    {
        if n == 0 {
            self
        } else {
            self.steps(candidates, method, ptr_size, (n - 1) as nat).step(
                candidates[n - 1],
                method,
                ptr_size,
            )
        }
    }
}

impl<T: Target> SsaView<T> {
    /// `v` is a variable of the function that is read more than once.
    pub open spec fn is_shared(self, v: SsaVarId) -> bool {
        v.0 < self.vars.len() && self.use_count(v) > 1
    }

    /// The opportunity that an instruction at `b`, `i` with operation `op` is.
    pub open spec fn reassociation(self, op: OpView<T>, b: usize, i: usize) -> Option<
        ReassociationCandidate,
    > {
        match op_kind(op) {
            Some((kind, dest, left, right)) => match (self.const_of(right), self.definition(left)) {
                (Some(c2), Some((ib, ii))) => match op_kind(self.blocks[ib].instrs[ii]) {
                    Some((inner_kind, inner_dest, inner_left, inner_right)) => if inner_kind != kind
                        || self.is_shared(inner_dest) {
                        None
                    } else {
                        let found = |base: SsaVarId, c1: SsaVarId, value: ConstValue|
                            ReassociationCandidate {
                                outer: (b, i),
                                dest,
                                base_var: base,
                                const1_var: c1,
                                const1_value: value,
                                const2_value: c2,
                                inner: (ib as usize, ii as usize),
                                inner_dest,
                                op_kind: kind,
                            };
                        match self.const_of(inner_right) {
                            Some(c1) => Some(found(inner_left, inner_right, c1)),
                            None => match self.const_of(inner_left) {
                                Some(c1) => if kind.commutes() {
                                    Some(found(inner_right, inner_left, c1))
                                } else {
                                    None
                                },
                                None => None,
                            },
                        }
                    },
                    None => None,
                },
                _ => None,
            },
            None => None,
        }
    }

    /// The opportunities of block `b`, instruction by instruction.
    pub open spec fn reassociations_in(self, b: int) -> spec_fn(int) -> Seq<
        ReassociationCandidate,
    > {
        |i: int|
            match self.reassociation(self.blocks[b].instrs[i], b as usize, i as usize) {
                Some(c) => seq![c],
                None => Seq::empty(),
            }
    }

    /// The opportunities, block by block.
    pub open spec fn reassociations(self) -> spec_fn(int) -> Seq<ReassociationCandidate> {
        |b: int| seqs::flat(self.reassociations_in(b), self.blocks[b].instrs.len())
    }

    /// What the pass makes of the function.
    pub open spec fn reassociated(self, method: T::MethodRef, ptr_size: PointerSize) -> Outcome<T> {
        let candidates = seqs::flat(self.reassociations(), self.blocks.len());
        let end = Progress {
            ssa: self,
            modified: Seq::empty(),
            events: Seq::empty(),
        }.steps(candidates, method, ptr_size, candidates.len());
        if end.events.len() == 0 {
            self.untouched()
        } else {
            Outcome { ssa: end.ssa.repaired(), events: end.events, changed: true }
        }
    }

    /// Blocks and instructions are as many as in `other`.
    pub open spec fn same_shape(self, other: SsaView<T>) -> bool {
        &&& self.blocks.len() == other.blocks.len()
        &&& forall|b: int|
            0 <= b < self.blocks.len() ==> (#[trigger] self.blocks[b]).instrs.len()
                == other.blocks[b].instrs.len()
    }
}

/// The candidate names instructions of the function.
pub open spec fn in_place<T: Target>(c: ReassociationCandidate, ssa: SsaView<T>) -> bool {
    ssa.has_instr(c.inner.0 as int, c.inner.1 as int) && ssa.has_instr(
        c.outer.0 as int,
        c.outer.1 as int,
    )
}

/// Returns the opportunity that an instruction is.
fn check_reassociation<T: Target>(
    op: &SsaOp<T>,
    b: usize,
    i: usize,
    cache: &DefinitionCache<'_, T>,
) -> (r: Option<ReassociationCandidate>)
    requires
        cache.wf(),
        cache.ssa@.has_instr(b as int, i as int),
    ensures
        r == cache.ssa@.reassociation(op@, b, i),
        r matches Some(c) ==> in_place(c, cache.ssa@),
{
    let (kind, dest, left, right) = match get_op_kind(op) {
        Some(found) => found,
        None => return None,
    };
    let c2: ConstValue = match cache.get_constant(right) {
        Some(c) => c,
        None => return None,
    };
    let inner: (usize, usize) = match cache.index.full_definition(cache.ssa, left) {
        Some(place) => place,
        None => return None,
    };
    let (inner_kind, inner_dest, inner_left, inner_right) = match get_op_kind(
        &cache.ssa.blocks[inner.0].instrs[inner.1].op,
    ) {
        Some(found) => found,
        None => return None,
    };
    if inner_kind != kind {
        return None;
    }
    if inner_dest.0 < cache.ssa.var_id_capacity() && cache.index.use_count(cache.ssa, inner_dest)
        > 1 {
        return None;
    }
    if let Some(c1) = cache.get_constant(inner_right) {
        return Some(
            ReassociationCandidate {
                outer: (b, i),
                dest,
                base_var: inner_left,
                const1_var: inner_right,
                const1_value: c1,
                const2_value: c2,
                inner,
                inner_dest,
                op_kind: kind,
            },
        );
    }
    if kind.is_commutative() {
        if let Some(c1) = cache.get_constant(inner_left) {
            return Some(
                ReassociationCandidate {
                    outer: (b, i),
                    dest,
                    base_var: inner_right,
                    const1_var: inner_left,
                    const1_value: c1,
                    const2_value: c2,
                    inner,
                    inner_dest,
                    op_kind: kind,
                },
            );
        }
    }
    None
}

/// Returns the opportunities of a function, in program order.
fn find_candidates<T: Target>(ssa: &SsaFunction<T>) -> (r: Vec<ReassociationCandidate>)
    ensures
        r@ == seqs::flat(ssa@.reassociations(), ssa@.blocks.len()),
        forall|k: int| 0 <= k < r@.len() ==> in_place(#[trigger] r@[k], ssa@),
{
    let cache: DefinitionCache<'_, T> = DefinitionCache::build(ssa);
    let ghost all = ssa@.reassociations();
    let mut r: Vec<ReassociationCandidate> = Vec::new();
    let mut b: usize = 0;
    while b < ssa.blocks.len()
        invariant
            cache.wf(),
            cache.ssa == ssa,
            all == ssa@.reassociations(),
            b <= ssa.blocks@.len(),
            r@ == seqs::flat(all, b as nat),
            forall|k: int| 0 <= k < r@.len() ==> in_place(#[trigger] r@[k], ssa@),
        decreases ssa.blocks@.len() - b,
    {
        let ghost here = ssa@.reassociations_in(b as int);
        let ghost before = r@;
        assert(before + seqs::flat(here, 0) =~= before);
        let mut i: usize = 0;
        while i < ssa.blocks[b].instrs.len()
            invariant
                cache.wf(),
                cache.ssa == ssa,
                b < ssa.blocks@.len(),
                here == ssa@.reassociations_in(b as int),
                i <= ssa@.blocks[b as int].instrs.len(),
                r@ == before + seqs::flat(here, i as nat),
                forall|k: int| 0 <= k < r@.len() ==> in_place(#[trigger] r@[k], ssa@),
            decreases ssa@.blocks[b as int].instrs.len() - i,
        {
            let op: &SsaOp<T> = &ssa.blocks[b].instrs[i].op;
            assert(op@ == ssa@.blocks[b as int].instrs[i as int]);
            let ghost mid = r@;
            if let Some(c) = check_reassociation(op, b, i, &cache) {
                r.push(c);
            }
            assert(r@ =~= mid + here(i as int));
            assert(before + seqs::flat(here, i as nat) + here(i as int) =~= before + seqs::flat(
                here,
                (i + 1) as nat,
            ));
            i = i + 1;
        }
        b = b + 1;
    }
    r
}

/// Finds the first instruction of a block that loads a constant into `v`.
fn find_const_index<T: Target>(ssa: &SsaFunction<T>, b: usize, v: SsaVarId) -> (r: Option<usize>)
    requires
        b < ssa@.blocks.len(),
    ensures
        match r {
            Some(i) => const_index(ssa@.blocks[b as int].instrs, v, 0) == Some(i as int) && i
                < ssa@.blocks[b as int].instrs.len(),
            None => const_index(ssa@.blocks[b as int].instrs, v, 0) is None,
        },
{
    let ghost instrs = ssa@.blocks[b as int].instrs;
    let mut i: usize = 0;
    while i < ssa.blocks[b].instrs.len()
        invariant
            b < ssa@.blocks.len(),
            instrs == ssa@.blocks[b as int].instrs,
            i <= instrs.len(),
            const_index(instrs, v, 0) == const_index(instrs, v, i as nat),
        decreases instrs.len() - i,
    {
        assert(instrs[i as int] == ssa.blocks@[b as int].instrs@[i as int]@);
        if let Op::Const { dest, .. } = &ssa.blocks[b].instrs[i].op {
            if *dest == v {
                return Some(i);
            }
        }
        i = i + 1;
    }
    None
}

/// Returns whether a list of places holds `place`.
fn lists_place(list: &Vec<(usize, usize)>, place: (usize, usize)) -> (r: bool)
    ensures
        r == list@.contains(place),
{
    let mut i: usize = 0;
    while i < list.len()
        invariant
            i <= list@.len(),
            forall|j: int| 0 <= j < i ==> list@[j] != place,
        decreases list@.len() - i,
    {
        if list[i].0 == place.0 && list[i].1 == place.1 {
            assert(list@[i as int] == place);
            return true;
        }
        i = i + 1;
    }
    false
}

/// The message of a rewriting.
fn reassociation_message(kind: OpKind) -> (r: String)
    ensures
        r@ == "reassociate: (x "@ + kind.label() + " c1) "@ + kind.label() + " c2 → x "@
            + kind.label() + " (c1 "@ + kind.combination_label() + " c2)"@,
{
    let mut message: String = String::from_str("reassociate: (x ");
    message.append(kind.name());
    message.append(" c1) ");
    message.append(kind.name());
    message.append(" c2 → x ");
    message.append(kind.name());
    message.append(" (c1 ");
    message.append(kind.combine_name());
    message.append(" c2)");
    message
}

/// Applies the opportunities in order, and returns whether any could be applied.
fn apply_reassociations<T: Target>(
    ssa: &mut SsaFunction<T>,
    candidates: &Vec<ReassociationCandidate>,
    method: &T::MethodRef,
    events: &mut EventLog<T>,
    ptr_size: PointerSize,
) -> (r: bool)
    requires
        forall|k: int| 0 <= k < candidates@.len() ==> in_place(#[trigger] candidates@[k], old(ssa)@),
    ensures
        ({
            let end = Progress {
                ssa: old(ssa)@,
                modified: Seq::empty(),
                events: Seq::empty(),
            }.steps(candidates@, *method, ptr_size, candidates@.len());
            &&& r == (end.events.len() > 0)
            &&& final(ssa)@ == (if r {
                end.ssa.repaired()
            } else {
                old(ssa)@
            })
            &&& final(events)@ == old(events)@ + end.events
        }),
{
    let ghost start = Progress { ssa: ssa@, modified: Seq::empty(), events: Seq::empty() };
    let mut modified: Vec<(usize, usize)> = Vec::new();
    let mut changed: bool = false;
    assert(modified@ =~= Seq::empty());
    assert(events@ + Seq::empty() =~= events@);
    let mut k: usize = 0;
    while k < candidates.len()
        invariant
            k <= candidates@.len(),
            start.ssa == old(ssa)@,
            ssa@.same_shape(old(ssa)@),
            forall|j: int|
                0 <= j < candidates@.len() ==> in_place(#[trigger] candidates@[j], old(ssa)@),
            ({
                let now = start.steps(candidates@, *method, ptr_size, k as nat);
                &&& now.ssa == ssa@
                &&& now.modified == modified@
                &&& events@ == old(events)@ + now.events
                &&& changed == (now.events.len() > 0)
                &&& !changed ==> ssa@ == old(ssa)@
            }),
        decreases candidates@.len() - k,
    {
        let c: ReassociationCandidate = candidates[k];
        let ghost now = start.steps(candidates@, *method, ptr_size, k as nat);
        assert(in_place(candidates@[k as int], old(ssa)@));
        assert(ssa@.blocks[c.inner.0 as int].instrs.len() == old(
            ssa,
        )@.blocks[c.inner.0 as int].instrs.len());
        assert(ssa@.blocks[c.outer.0 as int].instrs.len() == old(
            ssa,
        )@.blocks[c.outer.0 as int].instrs.len());
        if !lists_place(&modified, c.inner) && !lists_place(&modified, c.outer) {
            if let Some(combined) = c.op_kind.combine(
                &c.const1_value,
                &c.const2_value,
                ptr_size,
            ) {
                if let Some(at) = find_const_index(ssa, c.inner.0, c.const1_var) {
                    ssa.set_op(c.inner.0, at, Op::Const { dest: c.const1_var, value: combined });
                    ssa.set_op(
                        c.inner.0,
                        c.inner.1,
                        make_op(c.op_kind, c.inner_dest, c.base_var, c.const1_var),
                    );
                    ssa.set_op(
                        c.outer.0,
                        c.outer.1,
                        Op::Copy { dest: c.dest, src: c.inner_dest },
                    );
                    modified.push(c.inner);
                    modified.push(c.outer);
                    let message: String = reassociation_message(c.op_kind);
                    events.record_at(EventKind::ConstantFolded, method, c.outer.1, message);
                    changed = true;
                    proof {
                        let next = now.step(c, *method, ptr_size);
                        assert(events@ =~= old(events)@ + next.events);
                    }
                }
            }
        }
        k = k + 1;
    }
    if changed {
        ssa.repair_ssa();
    }
    changed
}

/// Reassociates the operations of a function.
///
/// Returns whether any operation was rewritten.
pub fn run<T: Target>(
    ssa: &mut SsaFunction<T>,
    method: &T::MethodRef,
    events: &mut EventLog<T>,
    ptr_size: PointerSize,
) -> (r: bool)
    ensures
        ({
            let outcome = old(ssa)@.reassociated(*method, ptr_size);
            &&& final(ssa)@ == outcome.ssa
            &&& final(events)@ == old(events)@ + outcome.events
            &&& r == outcome.changed
        }),
{
    let candidates: Vec<ReassociationCandidate> = find_candidates(ssa);
    let r: bool = apply_reassociations(ssa, &candidates, method, events, ptr_size);
    proof {
        let end = Progress {
            ssa: old(ssa)@,
            modified: Seq::empty(),
            events: Seq::empty(),
        }.steps(candidates@, *method, ptr_size, candidates@.len());
        if !r {
            assert(end.events =~= Seq::empty());
        }
    }
    r
}

/// What a kind of operation computes in 64-bit registers, for the kinds that are not shifts.
pub open spec fn computed(kind: OpKind, x: i64, c: i64) -> i64 {
    match kind {
        OpKind::Add => ArithKind::Add.on_i64(x, c),
        OpKind::Sub => ArithKind::Sub.on_i64(x, c),
        OpKind::Mul => ArithKind::Mul.on_i64(x, c),
        OpKind::And => x & c,
        OpKind::Or => x | c,
        OpKind::Xor => x ^ c,
        OpKind::Shl => x << c,
        OpKind::Shr { .. } => x >> c,
    }
}

proof fn lemma_wrapped(v: int)
    ensures
        pointer::wrap_signed(v, pointer::modulus(64)) as i64 == pointer::wrap_signed(
            v,
            pointer::modulus(64),
        ),
        exists|k: int|
            pointer::wrap_signed(v, pointer::modulus(64)) == v + #[trigger] (k
                * pointer::modulus(64)),
{
    let m = pointer::modulus(64);
    vstd::arithmetic::div_mod::lemma_fundamental_div_mod(v, m);
    let q = v / m;
    assert(v % m == v + (-q) * m) by (nonlinear_arith)
        requires
            v == m * q + v % m,
    ;
    assert(v % m - m == v + (-q - 1) * m) by (nonlinear_arith)
        requires
            v == m * q + v % m,
    ;
}

proof fn lemma_same_wrapped(a: int, b: int, k: int)
    requires
        a == b + k * pointer::modulus(64),
    ensures
        pointer::wrap_signed(a, pointer::modulus(64)) == pointer::wrap_signed(
            b,
            pointer::modulus(64),
        ),
{
    vstd::arithmetic::div_mod::lemma_mod_multiples_vanish(k, b, pointer::modulus(64));
    assert(pointer::modulus(64) * k == k * pointer::modulus(64)) by (nonlinear_arith);
}

/// Applying a kind of operation with one constant after the other computes the same as applying
/// it once with the combination, in 64-bit registers.
pub proof fn combined_constant_computes_the_same(kind: OpKind, x: i64, c1: i64, c2: i64)
    requires
        kind.combination() is Add ==> kind is Add || kind is Sub,
    ensures
        computed(kind, computed(kind, x, c1), c2) == computed(
            kind,
            x,
            kind.combination().on_i64(c1, c2),
        ),
{
    let m = pointer::modulus(64);
    match kind {
        OpKind::Add => {
            lemma_wrapped(x + c1);
            lemma_wrapped(c1 + c2);
            let i = choose|k: int|
                pointer::wrap_signed(x + c1, m) == x + c1 + #[trigger] (k * m);
            let j = choose|k: int|
                pointer::wrap_signed(c1 + c2, m) == c1 + c2 + #[trigger] (k * m);
            let a = pointer::wrap_signed(x + c1, m) + c2;
            let b = x + pointer::wrap_signed(c1 + c2, m);
            assert((i - j) * m == i * m - j * m) by (nonlinear_arith);
            lemma_same_wrapped(a, b, i - j);
        },
        OpKind::Sub => {
            lemma_wrapped(x - c1);
            lemma_wrapped(c1 + c2);
            let i = choose|k: int|
                pointer::wrap_signed(x - c1, m) == x - c1 + #[trigger] (k * m);
            let j = choose|k: int|
                pointer::wrap_signed(c1 + c2, m) == c1 + c2 + #[trigger] (k * m);
            let a = pointer::wrap_signed(x - c1, m) - c2;
            let b = x - pointer::wrap_signed(c1 + c2, m);
            assert((i + j) * m == i * m + j * m) by (nonlinear_arith);
            lemma_same_wrapped(a, b, i + j);
        },
        OpKind::Mul => {
            lemma_wrapped(x * c1);
            lemma_wrapped(c1 * c2);
            let i = choose|k: int|
                pointer::wrap_signed(x * c1, m) == x * c1 + #[trigger] (k * m);
            let j = choose|k: int|
                pointer::wrap_signed(c1 * c2, m) == c1 * c2 + #[trigger] (k * m);
            let p = pointer::wrap_signed(x * c1, m);
            let q = pointer::wrap_signed(c1 * c2, m);
            let a = p * c2;
            let b = x * q;
            assert(a == b + (i * c2 - j * x) * m) by (nonlinear_arith)
                requires
                    p == x * c1 + i * m,
                    q == c1 * c2 + j * m,
                    a == p * c2,
                    b == x * q,
            ;
            lemma_same_wrapped(a, b, i * c2 - j * x);
        },
        OpKind::And => {
            assert((x & c1) & c2 == x & (c1 & c2)) by (bit_vector);
        },
        OpKind::Or => {
            assert((x | c1) | c2 == x | (c1 | c2)) by (bit_vector);
        },
        OpKind::Xor => {
            assert((x ^ c1) ^ c2 == x ^ (c1 ^ c2)) by (bit_vector);
        },
        _ => {},
    }
}

proof fn lemma_shift_one_more(x: i64, y: u64, a: u64)
    requires
        a < 63,
    ensures
        (x << a) << 1u64 == x << ((a + 1) as u64),
        (x >> a) >> 1u64 == x >> ((a + 1) as u64),
        (y >> a) >> 1u64 == y >> ((a + 1) as u64),
{
    let s: u64 = (a + 1) as u64;
    assert((x << a) << 1u64 == x << s) by (bit_vector)
        requires
            s == a + 1,
            a < 63,
    ;
    assert((x >> a) >> 1u64 == x >> s) by (bit_vector)
        requires
            s == a + 1,
            a < 63,
    ;
    assert((y >> a) >> 1u64 == y >> s) by (bit_vector)
        requires
            s == a + 1,
            a < 63,
    ;
}

proof fn lemma_shift_twice(x: i64, y: u64, c1: u64, c2: u64)
    requires
        c1 + c2 < 64,
    ensures
        (x << c1) << c2 == x << ((c1 + c2) as u64),
        (x >> c1) >> c2 == x >> ((c1 + c2) as u64),
        (y >> c1) >> c2 == y >> ((c1 + c2) as u64),
    decreases c2,
{
    if c2 == 0 {
        let p: i64 = x << c1;
        let q: i64 = x >> c1;
        let r: u64 = y >> c1;
        assert(p << 0u64 == p && q >> 0u64 == q && r >> 0u64 == r) by (bit_vector);
    } else {
        let d: u64 = (c2 - 1) as u64;
        lemma_shift_twice(x, y, c1, d);
        lemma_shift_one_more(x, y, (c1 + d) as u64);
        lemma_shift_one_more(x << c1, y >> c1, d);
        lemma_shift_one_more(x >> c1, y >> c1, d);
    }
}

/// Shifting by one amount after the other computes the same as shifting by their sum, as long as
/// the sum is an amount that 64-bit registers shift by.
pub proof fn combined_shift_computes_the_same(x: i64, y: u64, c1: u64, c2: u64)
    requires
        c1 + c2 < 64,
    ensures
        (x << c1) << c2 == x << OpKind::Shl.combination().on_u64(c1, c2),
        (x >> c1) >> c2 == x >> (OpKind::Shr { unsigned: false }).combination().on_u64(c1, c2),
        (y >> c1) >> c2 == y >> (OpKind::Shr { unsigned: true }).combination().on_u64(c1, c2),
{
    assert(pointer::wrap_unsigned(c1 + c2, pointer::modulus(64)) == c1 + c2);
    lemma_shift_twice(x, y, c1, c2);
}

} // verus!
