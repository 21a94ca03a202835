//! Renaming what an operation assigns.
use crate::ir::ops::{all_renamed, option_renamed, rename_var, renamed, Op, OpView};
use crate::ir::variable::SsaVarId;
use crate::target::Target;
use vstd::prelude::*;

verus! {

/// Exchanges a variable for another, where there is one.
fn rename_option(var: &mut Option<SsaVarId>, old_var: SsaVarId, new_var: SsaVarId)
    ensures
        *final(var) == option_renamed(*old(var), old_var, new_var),
{
    if let Some(v) = *var {
        if v.0 == old_var.0 {
            *var = Some(new_var);
        }
    }
}

impl<T: Target, B, A> Op<T, B, A> {
    /// The operation with every assignment to `old` assigning `new` in its place.
    pub open spec fn assigning(self, old: SsaVarId, new: SsaVarId) -> Self {
        match self {
            Op::Const { dest, value } => Op::Const {
                dest: renamed(dest, old, new),
                value,
            },
            Op::Copy { dest, src } => Op::Copy {
                dest: renamed(dest, old, new),
                src,
            },
            Op::Add { dest, left, right, flags } => Op::Add {
                dest: renamed(dest, old, new),
                left,
                right,
                flags: option_renamed(flags, old, new),
            },
            Op::Sub { dest, left, right, flags } => Op::Sub {
                dest: renamed(dest, old, new),
                left,
                right,
                flags: option_renamed(flags, old, new),
            },
            Op::Mul { dest, left, right, flags } => Op::Mul {
                dest: renamed(dest, old, new),
                left,
                right,
                flags: option_renamed(flags, old, new),
            },
            Op::AddOvf { dest, left, right, unsigned, flags } => Op::AddOvf {
                dest: renamed(dest, old, new),
                left,
                right,
                unsigned,
                flags: option_renamed(flags, old, new),
            },
            Op::SubOvf { dest, left, right, unsigned, flags } => Op::SubOvf {
                dest: renamed(dest, old, new),
                left,
                right,
                unsigned,
                flags: option_renamed(flags, old, new),
            },
            Op::MulOvf { dest, left, right, unsigned, flags } => Op::MulOvf {
                dest: renamed(dest, old, new),
                left,
                right,
                unsigned,
                flags: option_renamed(flags, old, new),
            },
            Op::Div { dest, left, right, unsigned, flags } => Op::Div {
                dest: renamed(dest, old, new),
                left,
                right,
                unsigned,
                flags: option_renamed(flags, old, new),
            },
            Op::Rem { dest, left, right, unsigned, flags } => Op::Rem {
                dest: renamed(dest, old, new),
                left,
                right,
                unsigned,
                flags: option_renamed(flags, old, new),
            },
            Op::And { dest, left, right, flags } => Op::And {
                dest: renamed(dest, old, new),
                left,
                right,
                flags: option_renamed(flags, old, new),
            },
            Op::Or { dest, left, right, flags } => Op::Or {
                dest: renamed(dest, old, new),
                left,
                right,
                flags: option_renamed(flags, old, new),
            },
            Op::Xor { dest, left, right, flags } => Op::Xor {
                dest: renamed(dest, old, new),
                left,
                right,
                flags: option_renamed(flags, old, new),
            },
            Op::Shl { dest, value, amount, flags } => Op::Shl {
                dest: renamed(dest, old, new),
                value,
                amount,
                flags: option_renamed(flags, old, new),
            },
            Op::Shr { dest, value, amount, unsigned, flags } => Op::Shr {
                dest: renamed(dest, old, new),
                value,
                amount,
                unsigned,
                flags: option_renamed(flags, old, new),
            },
            Op::Neg { dest, operand, flags } => Op::Neg {
                dest: renamed(dest, old, new),
                operand,
                flags: option_renamed(flags, old, new),
            },
            Op::Not { dest, operand, flags } => Op::Not {
                dest: renamed(dest, old, new),
                operand,
                flags: option_renamed(flags, old, new),
            },
            Op::Ckfinite { dest, operand } => Op::Ckfinite {
                dest: renamed(dest, old, new),
                operand,
            },
            Op::Ceq { dest, left, right } => Op::Ceq {
                dest: renamed(dest, old, new),
                left,
                right,
            },
            Op::Clt { dest, left, right, unsigned } => Op::Clt {
                dest: renamed(dest, old, new),
                left,
                right,
                unsigned,
            },
            Op::Cgt { dest, left, right, unsigned } => Op::Cgt {
                dest: renamed(dest, old, new),
                left,
                right,
                unsigned,
            },
            Op::LoadArg { dest, arg_index } => Op::LoadArg {
                dest: renamed(dest, old, new),
                arg_index,
            },
            Op::LoadLocal { dest, local_index } => Op::LoadLocal {
                dest: renamed(dest, old, new),
                local_index,
            },
            Op::LoadLocalAddr { dest, local_index } => Op::LoadLocalAddr {
                dest: renamed(dest, old, new),
                local_index,
            },
            Op::ArrayLength { dest, array } => Op::ArrayLength {
                dest: renamed(dest, old, new),
                array,
            },
            Op::LoadToken { dest, token } => Op::LoadToken {
                dest: renamed(dest, old, new),
                token,
            },
            Op::NewObj { dest, ctor, args } => Op::NewObj {
                dest: renamed(dest, old, new),
                ctor,
                args,
            },
            Op::NewArr { dest, elem_type, length } => Op::NewArr {
                dest: renamed(dest, old, new),
                elem_type,
                length,
            },
            Op::Box { dest, value, value_type } => Op::Box {
                dest: renamed(dest, old, new),
                value,
                value_type,
            },
            Op::Call { dest, method, args } => Op::Call {
                dest: option_renamed(dest, old, new),
                method,
                args,
            },
            Op::LoadField { dest, object, field } => Op::LoadField {
                dest: renamed(dest, old, new),
                object,
                field,
            },
            Op::LoadIndirect { dest, addr, value_type } => Op::LoadIndirect {
                dest: renamed(dest, old, new),
                addr,
                value_type,
            },
            Op::AtomicExchange { dest, addr, value, ordering, width, volatile } => Op::AtomicExchange {
                dest: renamed(dest, old, new),
                addr,
                value,
                ordering,
                width,
                volatile,
            },
            _ => self,
        }
    }
}

impl<T: Target> Op<T, Vec<usize>, Vec<SsaVarId>> {
    /// Makes every assignment to `old_var` assign `new_var`.
    pub fn replace_defs(&mut self, old_var: SsaVarId, new_var: SsaVarId)
        ensures
            final(self)@ == old(self)@.assigning(old_var, new_var),
    {
        match self {
            Op::Const { dest, .. } => {
                rename_var(dest, old_var, new_var);
            },
            Op::Copy { dest, .. } => {
                rename_var(dest, old_var, new_var);
            },
            Op::Add { dest, flags, .. } => {
                rename_var(dest, old_var, new_var);
                rename_option(flags, old_var, new_var);
            },
            Op::Sub { dest, flags, .. } => {
                rename_var(dest, old_var, new_var);
                rename_option(flags, old_var, new_var);
            },
            Op::Mul { dest, flags, .. } => {
                rename_var(dest, old_var, new_var);
                rename_option(flags, old_var, new_var);
            },
            Op::AddOvf { dest, flags, .. } => {
                rename_var(dest, old_var, new_var);
                rename_option(flags, old_var, new_var);
            },
            Op::SubOvf { dest, flags, .. } => {
                rename_var(dest, old_var, new_var);
                rename_option(flags, old_var, new_var);
            },
            Op::MulOvf { dest, flags, .. } => {
                rename_var(dest, old_var, new_var);
                rename_option(flags, old_var, new_var);
            },
            Op::Div { dest, flags, .. } => {
                rename_var(dest, old_var, new_var);
                rename_option(flags, old_var, new_var);
            },
            Op::Rem { dest, flags, .. } => {
                rename_var(dest, old_var, new_var);
                rename_option(flags, old_var, new_var);
            },
            Op::And { dest, flags, .. } => {
                rename_var(dest, old_var, new_var);
                rename_option(flags, old_var, new_var);
            },
            Op::Or { dest, flags, .. } => {
                rename_var(dest, old_var, new_var);
                rename_option(flags, old_var, new_var);
            },
            Op::Xor { dest, flags, .. } => {
                rename_var(dest, old_var, new_var);
                rename_option(flags, old_var, new_var);
            },
            Op::Shl { dest, flags, .. } => {
                rename_var(dest, old_var, new_var);
                rename_option(flags, old_var, new_var);
            },
            Op::Shr { dest, flags, .. } => {
                rename_var(dest, old_var, new_var);
                rename_option(flags, old_var, new_var);
            },
            Op::Neg { dest, flags, .. } => {
                rename_var(dest, old_var, new_var);
                rename_option(flags, old_var, new_var);
            },
            Op::Not { dest, flags, .. } => {
                rename_var(dest, old_var, new_var);
                rename_option(flags, old_var, new_var);
            },
            Op::Ckfinite { dest, .. } => {
                rename_var(dest, old_var, new_var);
            },
            Op::Ceq { dest, .. } => {
                rename_var(dest, old_var, new_var);
            },
            Op::Clt { dest, .. } => {
                rename_var(dest, old_var, new_var);
            },
            Op::Cgt { dest, .. } => {
                rename_var(dest, old_var, new_var);
            },
            Op::LoadArg { dest, .. } => {
                rename_var(dest, old_var, new_var);
            },
            Op::LoadLocal { dest, .. } => {
                rename_var(dest, old_var, new_var);
            },
            Op::LoadLocalAddr { dest, .. } => {
                rename_var(dest, old_var, new_var);
            },
            Op::ArrayLength { dest, .. } => {
                rename_var(dest, old_var, new_var);
            },
            Op::LoadToken { dest, .. } => {
                rename_var(dest, old_var, new_var);
            },
            Op::NewObj { dest, .. } => {
                rename_var(dest, old_var, new_var);
            },
            Op::NewArr { dest, .. } => {
                rename_var(dest, old_var, new_var);
            },
            Op::Box { dest, .. } => {
                rename_var(dest, old_var, new_var);
            },
            Op::Call { dest, .. } => {
                rename_option(dest, old_var, new_var);
            },
            Op::LoadField { dest, .. } => {
                rename_var(dest, old_var, new_var);
            },
            Op::LoadIndirect { dest, .. } => {
                rename_var(dest, old_var, new_var);
            },
            Op::AtomicExchange { dest, .. } => {
                rename_var(dest, old_var, new_var);
            },
            _ => {},
        }
    }
}

/// Renaming what an operation does not assign changes nothing.
pub proof fn lemma_nothing_assigned<T: Target, B, A>(
    op: Op<T, B, A>,
    old: SsaVarId,
    new: SsaVarId,
)
    requires
        op.result() != Some(old),
        op.flags_result() != Some(old),
    ensures
        op.assigning(old, new) == op,
{
}

/// What an operation reads does not matter to what it assigns.
pub proof fn lemma_reading<T: Target>(op: OpView<T>, from: SsaVarId, to: SsaVarId)
    ensures
        op.reading(from, to).result() == op.result(),
        op.reading(from, to).flags_result() == op.flags_result(),
        op.reading(from, to).defs() == op.defs(),
        op.reading(from, to).successors() == op.successors(),
        op.reading(from, to).ends_block() == op.ends_block(),
{
}

/// An operation that does not assign a variable assigns neither its result nor its flags to it.
pub proof fn lemma_not_assigned<T: Target>(op: OpView<T>, v: SsaVarId)
    requires
        !op.defs().contains(v),
    ensures
        op.result() != Some(v),
        op.flags_result() != Some(v),
{
    if op.result() == Some(v) {
        assert(op.defs()[0] == v);
    }
    if op.flags_result() == Some(v) {
        assert(op.defs()[op.defs().len() - 1] == v);
    }
}

/// Renaming what an operation assigns renames its result and its flags, and nothing else.
pub proof fn lemma_assigning<T: Target>(op: OpView<T>, from: SsaVarId, to: SsaVarId)
    ensures
        op.assigning(from, to).result() == option_renamed(op.result(), from, to),
        op.assigning(from, to).flags_result() == option_renamed(op.flags_result(), from, to),
        op.assigning(from, to).uses() == op.uses(),
        op.assigning(from, to).successors() == op.successors(),
        op.assigning(from, to).ends_block() == op.ends_block(),
{
}

/// Renaming what an operation reads renames its operands, one by one.
pub proof fn lemma_reading_uses<T: Target>(op: OpView<T>, from: SsaVarId, to: SsaVarId)
    ensures
        op.reading(from, to).uses() =~= all_renamed(op.uses(), from, to),
{
}

} // verus!
