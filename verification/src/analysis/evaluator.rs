//! Evaluation of operations on known constants.
use crate::analysis::defuse::DefUseIndex;
use crate::ir::block::{BlockView, SsaBlock};
use crate::ir::function::{SsaFunction, SsaView};
use crate::ir::ops::{Op, OpView, SsaOp};
use crate::ir::phi::{PhiNode, PhiOperand, PhiView};
use crate::ir::value::{ArithKind, ConstValue};
use crate::ir::variable::SsaVarId;
use crate::pointer::PointerSize;
use crate::target::Target;
use vstd::prelude::*;

verus! {

/// What is known of the variables: a constant, or nothing.
pub open spec fn known(env: Seq<Option<ConstValue>>, v: SsaVarId) -> Option<ConstValue> {
    if v.0 < env.len() {
        env[v.0 as int]
    } else {
        None
    }
}

/// The result of a comparison.
pub open spec fn truth(b: bool) -> Option<ConstValue> {
    if b {
        Some(ConstValue::I32(1))
    } else {
        Some(ConstValue::I32(0))
    }
}

/// The combination of what is known of two variables.
pub open spec fn arith(
    env: Seq<Option<ConstValue>>,
    kind: ArithKind,
    left: SsaVarId,
    right: SsaVarId,
    ptr_size: PointerSize,
) -> Option<ConstValue> {
    match (known(env, left), known(env, right)) {
        (Some(a), Some(b)) => ConstValue::combined(kind, a, b, ptr_size),
        _ => None,
    }
}

/// The value that an operation computes from what is known.
pub open spec fn value_of<T: Target>(
    env: Seq<Option<ConstValue>>,
    op: OpView<T>,
    ptr_size: PointerSize,
) -> Option<ConstValue> {
    match op {
        Op::Const { value, .. } => Some(value),
        Op::Copy { src, .. } => known(env, src),
        Op::Add { left, right, .. } => arith(env, ArithKind::Add, left, right, ptr_size),
        Op::Sub { left, right, .. } => arith(env, ArithKind::Sub, left, right, ptr_size),
        Op::Mul { left, right, .. } => arith(env, ArithKind::Mul, left, right, ptr_size),
        Op::And { left, right, .. } => arith(env, ArithKind::And, left, right, ptr_size),
        Op::Or { left, right, .. } => arith(env, ArithKind::Or, left, right, ptr_size),
        Op::Xor { left, right, .. } => arith(env, ArithKind::Xor, left, right, ptr_size),
        Op::Ceq { left, right, .. } => match (known(env, left), known(env, right)) {
            (Some(a), Some(b)) => match (a.number(), b.number()) {
                (Some(x), Some(y)) => truth(x == y),
                _ => None,
            },
            _ => None,
        },
        Op::Clt { left, right, unsigned, .. } => match (known(env, left), known(env, right)) {
            (Some(a), Some(b)) => if unsigned {
                match (a.unsigned(), b.unsigned()) {
                    (Some(x), Some(y)) => truth(x < y),
                    _ => None,
                }
            } else {
                match (a.signed(), b.signed()) {
                    (Some(x), Some(y)) => truth(x < y),
                    _ => None,
                }
            },
            _ => None,
        },
        Op::Cgt { left, right, unsigned, .. } => match (known(env, left), known(env, right)) {
            (Some(a), Some(b)) => if unsigned {
                match (a.unsigned(), b.unsigned()) {
                    (Some(x), Some(y)) => truth(x > y),
                    _ => None,
                }
            } else {
                match (a.signed(), b.signed()) {
                    (Some(x), Some(y)) => truth(x > y),
                    _ => None,
                }
            },
            _ => None,
        },
        _ => None,
    }
}

/// What is known after an operation.
pub open spec fn after_op<T: Target>(
    env: Seq<Option<ConstValue>>,
    op: OpView<T>,
    ptr_size: PointerSize,
) -> Seq<Option<ConstValue>> {
    match op.result() {
        Some(dest) => if dest.0 < env.len() {
            env.update(dest.0 as int, value_of(env, op, ptr_size))
        } else {
            env
        },
        None => env,
    }
}

/// What is known after the first `n` of some operations.
pub open spec fn after_ops<T: Target>(
    env: Seq<Option<ConstValue>>,
    instrs: Seq<OpView<T>>,
    ptr_size: PointerSize,
    n: nat,
) -> Seq<Option<ConstValue>>
    decreases n,
{
    if n == 0 {
        env
    } else {
        after_op(after_ops(env, instrs, ptr_size, (n - 1) as nat), instrs[n - 1], ptr_size)
    }
}

/// What is known after the first `n` blocks, evaluated in order.
pub open spec fn after_blocks<T: Target>(
    env: Seq<Option<ConstValue>>,
    blocks: Seq<BlockView<T>>,
    ptr_size: PointerSize,
    n: nat,
) -> Seq<Option<ConstValue>>
    decreases n,
{
    if n == 0 {
        env
    } else {
        let instrs = blocks[n - 1].instrs;
        after_ops(
            after_blocks(env, blocks, ptr_size, (n - 1) as nat),
            instrs,
            ptr_size,
            instrs.len(),
        )
    }
}

/// The first operand from position `n` on that comes from `pred`.
pub open spec fn operand_from(operands: Seq<PhiOperand>, pred: usize, n: nat) -> Option<SsaVarId>
    decreases operands.len() - n,
{
    if n >= operands.len() {
        None
    } else if operands[n as int].predecessor == pred {
        Some(operands[n as int].value)
    } else {
        operand_from(operands, pred, n + 1)
    }
}

/// What is known of the result of a phi node when control comes from `pred`.
pub open spec fn phi_value(
    env: Seq<Option<ConstValue>>,
    phi: PhiView,
    pred: usize,
) -> Option<ConstValue> {
    match operand_from(phi.operands, pred, 0) {
        Some(v) => known(env, v),
        None => None,
    }
}

/// What is known after the first `n` phi nodes when control comes from `pred`.
///
/// All of them read what was known before.
pub open spec fn after_phis(
    env: Seq<Option<ConstValue>>,
    phis: Seq<PhiView>,
    pred: usize,
    n: nat,
) -> Seq<Option<ConstValue>>
    decreases n,
{
    if n == 0 {
        env
    } else {
        let before = after_phis(env, phis, pred, (n - 1) as nat);
        let dest = phis[n - 1].result;
        if dest.0 < env.len() {
            before.update(dest.0 as int, phi_value(env, phis[n - 1], pred))
        } else {
            before
        }
    }
}

/// Nothing is known of any of `n` variables.
pub open spec fn blank(n: nat) -> Seq<Option<ConstValue>> {
    Seq::new(n, |i: int| None::<ConstValue>)
}

/// The constant that `v` is found to have by looking at definitions through at most `depth`
/// copies.
pub open spec fn traced<T: Target>(
    env: Seq<Option<ConstValue>>,
    ssa: SsaView<T>,
    v: SsaVarId,
    depth: nat,
) -> Option<ConstValue>
    decreases depth,
{
    match known(env, v) {
        Some(c) => Some(c),
        None => match ssa.def_op(v) {
            Some(Op::Const { value, .. }) => Some(value),
            Some(Op::Copy { src, .. }) => if depth == 0 {
                None
            } else {
                traced(env, ssa, src, (depth - 1) as nat)
            },
            _ => None,
        },
    }
}

/// Evaluates a function piece by piece.
pub struct SsaEvaluator {
    pub env: Vec<Option<ConstValue>>,
    pub ptr_size: PointerSize,
}

impl SsaEvaluator {
    /// Starts with nothing known of `vars` variables.
    #[must_use]
    pub fn new(vars: usize, ptr_size: PointerSize) -> (r: Self)
        ensures
            r.env@ == blank(vars as nat),
            r.ptr_size == ptr_size,
    {
        let mut env: Vec<Option<ConstValue>> = Vec::new();
        let mut i: usize = 0;
        while i < vars
            invariant
                i <= vars,
                env@ =~= blank(i as nat),
            decreases vars - i,
        {
            env.push(None);
            i = i + 1;
        }
        SsaEvaluator { env, ptr_size }
    }

    /// Returns what is known of `v`.
    #[must_use]
    pub fn get(&self, v: SsaVarId) -> (r: Option<ConstValue>)
        ensures
            r == known(self.env@, v),
    {
        if v.0 < self.env.len() {
            self.env[v.0]
        } else {
            None
        }
    }

    /// Combines what is known of two variables.
    fn combine(&self, kind: ArithKind, left: SsaVarId, right: SsaVarId) -> (r: Option<ConstValue>)
        ensures
            r == arith(self.env@, kind, left, right, self.ptr_size),
    {
        match (self.get(left), self.get(right)) {
            (Some(a), Some(b)) => a.combine(&b, kind, self.ptr_size),
            _ => None,
        }
    }

    /// Compares what is known of two variables.
    fn order(&self, left: SsaVarId, right: SsaVarId, unsigned: bool, less: bool) -> (r: Option<
        ConstValue,
    >)
        ensures
            r == (match (known(self.env@, left), known(self.env@, right)) {
                (Some(a), Some(b)) => if unsigned {
                    match (a.unsigned(), b.unsigned()) {
                        (Some(x), Some(y)) => truth(
                            if less {
                                x < y
                            } else {
                                x > y
                            },
                        ),
                        _ => None,
                    }
                } else {
                    match (a.signed(), b.signed()) {
                        (Some(x), Some(y)) => truth(
                            if less {
                                x < y
                            } else {
                                x > y
                            },
                        ),
                        _ => None,
                    }
                },
                _ => None,
            }),
    {
        match (self.get(left), self.get(right)) {
            (Some(a), Some(b)) => if unsigned {
                match (a.as_u64(), b.as_u64()) {
                    (Some(x), Some(y)) => Some(
                        truth_const(
                            if less {
                                x < y
                            } else {
                                x > y
                            },
                        ),
                    ),
                    _ => None,
                }
            } else {
                match (a.as_i64(), b.as_i64()) {
                    (Some(x), Some(y)) => Some(
                        truth_const(
                            if less {
                                x < y
                            } else {
                                x > y
                            },
                        ),
                    ),
                    _ => None,
                }
            },
            _ => None,
        }
    }

    /// Returns the value that an operation computes from what is known.
    #[must_use]
    pub fn value<T: Target>(&self, op: &SsaOp<T>) -> (r: Option<ConstValue>)
        ensures
            r == value_of(self.env@, op@, self.ptr_size),
    {
        match op {
            Op::Const { value, .. } => Some(*value),
            Op::Copy { src, .. } => self.get(*src),
            Op::Add { left, right, .. } => self.combine(ArithKind::Add, *left, *right),
            Op::Sub { left, right, .. } => self.combine(ArithKind::Sub, *left, *right),
            Op::Mul { left, right, .. } => self.combine(ArithKind::Mul, *left, *right),
            Op::And { left, right, .. } => self.combine(ArithKind::And, *left, *right),
            Op::Or { left, right, .. } => self.combine(ArithKind::Or, *left, *right),
            Op::Xor { left, right, .. } => self.combine(ArithKind::Xor, *left, *right),
            Op::Ceq { left, right, .. } => match (self.get(*left), self.get(*right)) {
                (Some(a), Some(b)) => same_number(a, b),
                _ => None,
            },
            Op::Clt { left, right, unsigned, .. } => self.order(*left, *right, *unsigned, true),
            Op::Cgt { left, right, unsigned, .. } => self.order(*left, *right, *unsigned, false),
            _ => None,
        }
    }

    /// Evaluates the instructions of a block.
    pub fn evaluate_block<T: Target>(&mut self, block: &SsaBlock<T>)
        ensures
            final(self).ptr_size == old(self).ptr_size,
            final(self).env@ == after_ops(
                old(self).env@,
                block@.instrs,
                old(self).ptr_size,
                block@.instrs.len(),
            ),
    {
        let mut i: usize = 0;
        while i < block.instrs.len()
            invariant
                i <= block.instrs@.len(),
                self.ptr_size == old(self).ptr_size,
                self.env@ == after_ops(old(self).env@, block@.instrs, self.ptr_size, i as nat),
            decreases block.instrs@.len() - i,
        {
            let op: &SsaOp<T> = &block.instrs[i].op;
            assert(op@ == block@.instrs[i as int]);
            if let Some(dest) = op.dest() {
                let value: Option<ConstValue> = self.value(op);
                if dest.0 < self.env.len() {
                    self.env.set(dest.0, value);
                }
            }
            i = i + 1;
        }
    }

    /// Evaluates the phi nodes of a block, control coming from `pred`.
    pub fn evaluate_phis<T: Target>(&mut self, block: &SsaBlock<T>, pred: usize)
        ensures
            final(self).ptr_size == old(self).ptr_size,
            final(self).env@ == after_phis(
                old(self).env@,
                block@.phis,
                pred,
                block@.phis.len(),
            ),
    {
        let mut values: Vec<Option<ConstValue>> = Vec::new();
        let mut i: usize = 0;
        while i < block.phis.len()
            invariant
                i <= block.phis@.len(),
                *self == *old(self),
                values@.len() == i,
                forall|j: int|
                    0 <= j < i ==> #[trigger] values@[j] == phi_value(
                        self.env@,
                        block@.phis[j],
                        pred,
                    ),
            decreases block.phis@.len() - i,
        {
            assert(block.phis@[i as int]@ == block@.phis[i as int]);
            let value: Option<ConstValue> = match find_operand(&block.phis[i], pred) {
                Some(v) => self.get(v),
                None => None,
            };
            values.push(value);
            i = i + 1;
        }
        let mut i: usize = 0;
        while i < block.phis.len()
            invariant
                i <= block.phis@.len(),
                values@.len() == block.phis@.len(),
                self.ptr_size == old(self).ptr_size,
                forall|j: int|
                    0 <= j < values@.len() ==> #[trigger] values@[j] == phi_value(
                        old(self).env@,
                        block@.phis[j],
                        pred,
                    ),
                self.env@.len() == old(self).env@.len(),
                self.env@ == after_phis(old(self).env@, block@.phis, pred, i as nat),
            decreases block.phis@.len() - i,
        {
            let dest: SsaVarId = block.phis[i].result;
            assert(dest == block@.phis[i as int].result);
            assert(values@[i as int] == phi_value(old(self).env@, block@.phis[i as int], pred));
            if dest.0 < self.env.len() {
                self.env.set(dest.0, values[i]);
            }
            i = i + 1;
        }
    }

    /// Returns the constant that `v` is found to have by looking at definitions through at most
    /// `depth` copies.
    #[must_use]
    pub fn resolve_with_trace<T: Target>(
        &self,
        ssa: &SsaFunction<T>,
        index: &DefUseIndex,
        v: SsaVarId,
        depth: usize,
    ) -> (r: Option<ConstValue>)
        requires
            index.describes(ssa@),
        ensures
            r == traced(self.env@, ssa@, v, depth as nat),
        decreases depth,
    {
        match self.get(v) {
            Some(c) => Some(c),
            None => match index.def_op(ssa, v) {
                Some(op) => match op {
                    Op::Const { value, .. } => Some(*value),
                    Op::Copy { src, .. } => if depth == 0 {
                        None
                    } else {
                        self.resolve_with_trace(ssa, index, *src, depth - 1)
                    },
                    _ => None,
                },
                None => None,
            },
        }
    }
}

/// The constant that stands for a truth value.
fn truth_const(b: bool) -> (r: ConstValue)
    ensures
        truth(b) == Some(r),
{
    if b {
        ConstValue::I32(1)
    } else {
        ConstValue::I32(0)
    }
}

/// Compares the numbers of two constants.
fn same_number(a: ConstValue, b: ConstValue) -> (r: Option<ConstValue>)
    ensures
        r == (match (a.number(), b.number()) {
            (Some(x), Some(y)) => truth(x == y),
            _ => None,
        }),
{
    match (a.as_i64(), b.as_i64()) {
        (Some(x), Some(y)) => Some(truth_const(x == y)),
        (None, None) => match (a.as_u64(), b.as_u64()) {
            (Some(x), Some(y)) => Some(truth_const(x == y)),
            _ => None,
        },
        _ => match (a.as_u64(), b.as_u64()) {
            (Some(_), Some(_)) => Some(truth_const(false)),
            _ => None,
        },
    }
}

/// Finds the first operand that comes from `pred`.
fn find_operand(phi: &PhiNode, pred: usize) -> (r: Option<SsaVarId>)
    ensures
        r == operand_from(phi@.operands, pred, 0),
{
    let mut i: usize = 0;
    while i < phi.operands.len()
        invariant
            i <= phi.operands@.len(),
            operand_from(phi@.operands, pred, 0) == operand_from(phi@.operands, pred, i as nat),
        decreases phi.operands@.len() - i,
    {
        if phi.operands[i].predecessor == pred {
            return Some(phi.operands[i].value);
        }
        i = i + 1;
    }
    None
}

} // verus!
