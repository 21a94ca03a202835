//! Operations.
use crate::ir::value::ConstValue;
use crate::ir::variable::SsaVarId;
use crate::target::Target;
use vstd::prelude::*;

verus! {

/// How two values are compared by a fused comparison and branch.
#[derive(Debug, Clone, Copy, PartialEq, Eq, Hash, Structural)]
pub enum CompareKind {
    /// Equal.
    Eq,
    /// Not equal.
    Ne,
    /// Less than.
    Lt,
    /// Less than or equal.
    Le,
    /// Greater than.
    Gt,
    /// Greater than or equal.
    Ge,
}

/// A condition on machine flags.
#[derive(Debug, Clone, Copy, PartialEq, Eq, Hash, Structural)]
pub enum FlagCondition {
    /// The result was zero.
    Zero,
    /// The result was not zero.
    NotZero,
    /// The result was negative.
    Sign,
    /// The operation carried.
    Carry,
    /// The operation overflowed.
    Overflow,
}

/// How an atomic access is ordered against other accesses.
#[derive(Debug, Clone, Copy, PartialEq, Eq, Hash, Structural)]
pub enum AtomicOrdering {
    /// No ordering.
    Relaxed,
    /// Later accesses stay behind it.
    Acquire,
    /// Earlier accesses stay before it.
    Release,
    /// Both of these.
    AcqRel,
    /// Both, and one order of all such accesses.
    SeqCst,
}

/// How wide an atomic access is.
#[derive(Debug, Clone, Copy, PartialEq, Eq, Hash, Structural)]
pub enum AtomicAccessWidth {
    /// One byte.
    Bits8,
    /// Two bytes.
    Bits16,
    /// Four bytes.
    Bits32,
    /// Eight bytes.
    Bits64,
    /// Sixteen bytes.
    Bits128,
}

/// Which accesses a fence orders.
#[derive(Debug, Clone, Copy, PartialEq, Eq, Hash, Structural)]
pub enum FenceKind {
    /// Later accesses stay behind it.
    Acquire,
    /// Earlier accesses stay before it.
    Release,
    /// Both of these.
    Full,
}

/// An operation, with block lists of type `B` and variable lists of type `A`.
#[allow(inconsistent_fields)]
pub enum Op<T: Target, B, A> {
    /// Loads a constant.
    Const { dest: SsaVarId, value: ConstValue },
    /// Copies a variable.
    Copy { dest: SsaVarId, src: SsaVarId },
    /// Wrapping addition.
    Add { dest: SsaVarId, left: SsaVarId, right: SsaVarId, flags: Option<SsaVarId> },
    /// Wrapping subtraction.
    Sub { dest: SsaVarId, left: SsaVarId, right: SsaVarId, flags: Option<SsaVarId> },
    /// Wrapping multiplication.
    Mul { dest: SsaVarId, left: SsaVarId, right: SsaVarId, flags: Option<SsaVarId> },
    /// Addition that throws on overflow.
    AddOvf { dest: SsaVarId, left: SsaVarId, right: SsaVarId, unsigned: bool, flags: Option<SsaVarId> },
    /// Subtraction that throws on overflow.
    SubOvf { dest: SsaVarId, left: SsaVarId, right: SsaVarId, unsigned: bool, flags: Option<SsaVarId> },
    /// Multiplication that throws on overflow.
    MulOvf { dest: SsaVarId, left: SsaVarId, right: SsaVarId, unsigned: bool, flags: Option<SsaVarId> },
    /// Division that throws on a zero divisor.
    Div { dest: SsaVarId, left: SsaVarId, right: SsaVarId, unsigned: bool, flags: Option<SsaVarId> },
    /// Remainder that throws on a zero divisor.
    Rem { dest: SsaVarId, left: SsaVarId, right: SsaVarId, unsigned: bool, flags: Option<SsaVarId> },
    /// Bitwise conjunction.
    And { dest: SsaVarId, left: SsaVarId, right: SsaVarId, flags: Option<SsaVarId> },
    /// Bitwise disjunction.
    Or { dest: SsaVarId, left: SsaVarId, right: SsaVarId, flags: Option<SsaVarId> },
    /// Bitwise exclusive disjunction.
    Xor { dest: SsaVarId, left: SsaVarId, right: SsaVarId, flags: Option<SsaVarId> },
    /// Left shift.
    Shl { dest: SsaVarId, value: SsaVarId, amount: SsaVarId, flags: Option<SsaVarId> },
    /// Right shift, logical where `unsigned`, arithmetic otherwise.
    Shr { dest: SsaVarId, value: SsaVarId, amount: SsaVarId, unsigned: bool, flags: Option<SsaVarId> },
    /// Arithmetic negation.
    Neg { dest: SsaVarId, operand: SsaVarId, flags: Option<SsaVarId> },
    /// Bitwise complement.
    Not { dest: SsaVarId, operand: SsaVarId, flags: Option<SsaVarId> },
    /// Throws unless the operand is a finite number.
    Ckfinite { dest: SsaVarId, operand: SsaVarId },
    /// One where the operands are equal, zero otherwise.
    Ceq { dest: SsaVarId, left: SsaVarId, right: SsaVarId },
    /// One where `left` is less than `right`, zero otherwise.
    Clt { dest: SsaVarId, left: SsaVarId, right: SsaVarId, unsigned: bool },
    /// One where `left` is greater than `right`, zero otherwise.
    Cgt { dest: SsaVarId, left: SsaVarId, right: SsaVarId, unsigned: bool },
    /// Reads a method argument.
    LoadArg { dest: SsaVarId, arg_index: u16 },
    /// Reads a local variable.
    LoadLocal { dest: SsaVarId, local_index: u16 },
    /// Takes the address of a local variable.
    LoadLocalAddr { dest: SsaVarId, local_index: u16 },
    /// Reads the length of an array.
    ArrayLength { dest: SsaVarId, array: SsaVarId },
    /// Loads a metadata token.
    LoadToken { dest: SsaVarId, token: T::TypeRef },
    /// Creates an object.
    NewObj { dest: SsaVarId, ctor: T::MethodRef, args: A },
    /// Creates an array.
    NewArr { dest: SsaVarId, elem_type: T::TypeRef, length: SsaVarId },
    /// Boxes a value.
    Box { dest: SsaVarId, value: SsaVarId, value_type: T::TypeRef },
    /// Calls a method.
    Call { dest: Option<SsaVarId>, method: T::MethodRef, args: A },
    /// Reads a field.
    LoadField { dest: SsaVarId, object: SsaVarId, field: T::FieldRef },
    /// Writes a field.
    StoreField { object: SsaVarId, field: T::FieldRef, value: SsaVarId },
    /// Reads memory.
    LoadIndirect { dest: SsaVarId, addr: SsaVarId, value_type: T::Type },
    /// Writes memory.
    StoreIndirect { addr: SsaVarId, value: SsaVarId, value_type: T::Type },
    /// Writes memory and reads what it held before, in one step.
    AtomicExchange { dest: SsaVarId, addr: SsaVarId, value: SsaVarId, ordering: AtomicOrdering, width: AtomicAccessWidth, volatile: bool },
    /// Keeps accesses to memory in order.
    Fence { kind: FenceKind },
    /// Discards a value.
    Pop { value: SsaVarId },
    /// Does nothing.
    Nop,
    /// Continues at `target`.
    Jump { target: usize },
    /// Leaves a protected region for `target`.
    Leave { target: usize },
    /// Continues at `true_target` where the condition is non-zero.
    Branch { condition: SsaVarId, true_target: usize, false_target: usize },
    /// Continues at `true_target` where the comparison holds.
    BranchCmp { left: SsaVarId, right: SsaVarId, kind: CompareKind, unsigned: bool, true_target: usize, false_target: usize },
    /// Continues at `true_target` where the flags meet the condition.
    BranchFlags { flags: SsaVarId, condition: FlagCondition, true_target: usize, false_target: usize },
    /// Continues at the target that `value` selects, or at `default`.
    Switch { value: SsaVarId, targets: B, default: usize },
    /// Continues at a computed address.
    IndirectBranch { address: SsaVarId, resolved_targets: B },
    /// Returns from the function.
    Return { value: Option<SsaVarId> },
    /// Throws an exception.
    Throw { exception: SsaVarId },
    /// Throws the current exception again.
    Rethrow,
    /// Ends a finally or fault handler.
    EndFinally,
    /// Ends an exception filter.
    EndFilter { result: SsaVarId },
    /// Returns from an interrupt.
    InterruptReturn,
}

/// An operation as the library holds it.
pub type SsaOp<T> = Op<T, Vec<usize>, Vec<SsaVarId>>;

/// An operation as a mathematical value.
pub type OpView<T> = Op<T, Seq<usize>, Seq<SsaVarId>>;

impl<T: Target> View for Op<T, Vec<usize>, Vec<SsaVarId>> {
    type V = OpView<T>;

    open spec fn view(&self) -> OpView<T> {
        match *self {
            Op::Const { dest, value } => Op::Const { dest, value },
            Op::Copy { dest, src } => Op::Copy { dest, src },
            Op::Add { dest, left, right, flags } => Op::Add { dest, left, right, flags },
            Op::Sub { dest, left, right, flags } => Op::Sub { dest, left, right, flags },
            Op::Mul { dest, left, right, flags } => Op::Mul { dest, left, right, flags },
            Op::AddOvf { dest, left, right, unsigned, flags } => Op::AddOvf { dest, left, right, unsigned, flags },
            Op::SubOvf { dest, left, right, unsigned, flags } => Op::SubOvf { dest, left, right, unsigned, flags },
            Op::MulOvf { dest, left, right, unsigned, flags } => Op::MulOvf { dest, left, right, unsigned, flags },
            Op::Div { dest, left, right, unsigned, flags } => Op::Div { dest, left, right, unsigned, flags },
            Op::Rem { dest, left, right, unsigned, flags } => Op::Rem { dest, left, right, unsigned, flags },
            Op::And { dest, left, right, flags } => Op::And { dest, left, right, flags },
            Op::Or { dest, left, right, flags } => Op::Or { dest, left, right, flags },
            Op::Xor { dest, left, right, flags } => Op::Xor { dest, left, right, flags },
            Op::Shl { dest, value, amount, flags } => Op::Shl { dest, value, amount, flags },
            Op::Shr { dest, value, amount, unsigned, flags } => Op::Shr { dest, value, amount, unsigned, flags },
            Op::Neg { dest, operand, flags } => Op::Neg { dest, operand, flags },
            Op::Not { dest, operand, flags } => Op::Not { dest, operand, flags },
            Op::Ckfinite { dest, operand } => Op::Ckfinite { dest, operand },
            Op::Ceq { dest, left, right } => Op::Ceq { dest, left, right },
            Op::Clt { dest, left, right, unsigned } => Op::Clt { dest, left, right, unsigned },
            Op::Cgt { dest, left, right, unsigned } => Op::Cgt { dest, left, right, unsigned },
            Op::LoadArg { dest, arg_index } => Op::LoadArg { dest, arg_index },
            Op::LoadLocal { dest, local_index } => Op::LoadLocal { dest, local_index },
            Op::LoadLocalAddr { dest, local_index } => Op::LoadLocalAddr { dest, local_index },
            Op::ArrayLength { dest, array } => Op::ArrayLength { dest, array },
            Op::LoadToken { dest, token } => Op::LoadToken { dest, token },
            Op::NewObj { dest, ctor, args } => Op::NewObj { dest, ctor, args: args@ },
            Op::NewArr { dest, elem_type, length } => Op::NewArr { dest, elem_type, length },
            Op::Box { dest, value, value_type } => Op::Box { dest, value, value_type },
            Op::Call { dest, method, args } => Op::Call { dest, method, args: args@ },
            Op::LoadField { dest, object, field } => Op::LoadField { dest, object, field },
            Op::StoreField { object, field, value } => Op::StoreField { object, field, value },
            Op::LoadIndirect { dest, addr, value_type } => Op::LoadIndirect { dest, addr, value_type },
            Op::StoreIndirect { addr, value, value_type } => Op::StoreIndirect { addr, value, value_type },
            Op::AtomicExchange { dest, addr, value, ordering, width, volatile } => Op::AtomicExchange { dest, addr, value, ordering, width, volatile },
            Op::Fence { kind } => Op::Fence { kind },
            Op::Pop { value } => Op::Pop { value },
            Op::Nop => Op::Nop,
            Op::Jump { target } => Op::Jump { target },
            Op::Leave { target } => Op::Leave { target },
            Op::Branch { condition, true_target, false_target } => Op::Branch { condition, true_target, false_target },
            Op::BranchCmp { left, right, kind, unsigned, true_target, false_target } => Op::BranchCmp { left, right, kind, unsigned, true_target, false_target },
            Op::BranchFlags { flags, condition, true_target, false_target } => Op::BranchFlags { flags, condition, true_target, false_target },
            Op::Switch { value, targets, default } => Op::Switch { value, targets: targets@, default },
            Op::IndirectBranch { address, resolved_targets } => Op::IndirectBranch { address, resolved_targets: resolved_targets@ },
            Op::Return { value } => Op::Return { value },
            Op::Throw { exception } => Op::Throw { exception },
            Op::Rethrow => Op::Rethrow,
            Op::EndFinally => Op::EndFinally,
            Op::EndFilter { result } => Op::EndFilter { result },
            Op::InterruptReturn => Op::InterruptReturn,
        }
    }
}

impl<T: Target, B, A> Op<T, B, A> {
    /// The variable that the operation assigns its result to.
    pub open spec fn result(self) -> Option<SsaVarId> {
        match self {
            Op::Const { dest, .. } => Some(dest),
            Op::Copy { dest, .. } => Some(dest),
            Op::Add { dest, .. } => Some(dest),
            Op::Sub { dest, .. } => Some(dest),
            Op::Mul { dest, .. } => Some(dest),
            Op::AddOvf { dest, .. } => Some(dest),
            Op::SubOvf { dest, .. } => Some(dest),
            Op::MulOvf { dest, .. } => Some(dest),
            Op::Div { dest, .. } => Some(dest),
            Op::Rem { dest, .. } => Some(dest),
            Op::And { dest, .. } => Some(dest),
            Op::Or { dest, .. } => Some(dest),
            Op::Xor { dest, .. } => Some(dest),
            Op::Shl { dest, .. } => Some(dest),
            Op::Shr { dest, .. } => Some(dest),
            Op::Neg { dest, .. } => Some(dest),
            Op::Not { dest, .. } => Some(dest),
            Op::Ckfinite { dest, .. } => Some(dest),
            Op::Ceq { dest, .. } => Some(dest),
            Op::Clt { dest, .. } => Some(dest),
            Op::Cgt { dest, .. } => Some(dest),
            Op::LoadArg { dest, .. } => Some(dest),
            Op::LoadLocal { dest, .. } => Some(dest),
            Op::LoadLocalAddr { dest, .. } => Some(dest),
            Op::ArrayLength { dest, .. } => Some(dest),
            Op::LoadToken { dest, .. } => Some(dest),
            Op::NewObj { dest, .. } => Some(dest),
            Op::NewArr { dest, .. } => Some(dest),
            Op::Box { dest, .. } => Some(dest),
            Op::Call { dest, .. } => dest,
            Op::LoadField { dest, .. } => Some(dest),
            Op::LoadIndirect { dest, .. } => Some(dest),
            Op::AtomicExchange { dest, .. } => Some(dest),
            _ => None,
        }
    }

    /// The variable that the operation assigns the machine flags to.
    pub open spec fn flags_result(self) -> Option<SsaVarId> {
        match self {
            Op::Add { flags, .. } => flags,
            Op::Sub { flags, .. } => flags,
            Op::Mul { flags, .. } => flags,
            Op::AddOvf { flags, .. } => flags,
            Op::SubOvf { flags, .. } => flags,
            Op::MulOvf { flags, .. } => flags,
            Op::Div { flags, .. } => flags,
            Op::Rem { flags, .. } => flags,
            Op::And { flags, .. } => flags,
            Op::Or { flags, .. } => flags,
            Op::Xor { flags, .. } => flags,
            Op::Shl { flags, .. } => flags,
            Op::Shr { flags, .. } => flags,
            Op::Neg { flags, .. } => flags,
            Op::Not { flags, .. } => flags,
            _ => None,
        }
    }

    /// The operation ends a block.
    pub open spec fn ends_block(self) -> bool {
        match self {
            Op::Jump { .. } => true,
            Op::Leave { .. } => true,
            Op::Branch { .. } => true,
            Op::BranchCmp { .. } => true,
            Op::BranchFlags { .. } => true,
            Op::Switch { .. } => true,
            Op::IndirectBranch { .. } => true,
            Op::Return { .. } => true,
            Op::Throw { .. } => true,
            Op::Rethrow => true,
            Op::EndFinally => true,
            Op::EndFilter { .. } => true,
            Op::InterruptReturn => true,
            _ => false,
        }
    }

    /// The operation only computes its results: it neither changes state nor throws nor branches.
    pub open spec fn pure(self) -> bool {
        match self {
            Op::Const { .. } => true,
            Op::Copy { .. } => true,
            Op::Add { .. } => true,
            Op::Sub { .. } => true,
            Op::Mul { .. } => true,
            Op::And { .. } => true,
            Op::Or { .. } => true,
            Op::Xor { .. } => true,
            Op::Shl { .. } => true,
            Op::Shr { .. } => true,
            Op::Neg { .. } => true,
            Op::Not { .. } => true,
            Op::Ceq { .. } => true,
            Op::Clt { .. } => true,
            Op::Cgt { .. } => true,
            Op::LoadArg { .. } => true,
            Op::LoadLocal { .. } => true,
            Op::LoadLocalAddr { .. } => true,
            Op::LoadToken { .. } => true,
            Op::Pop { .. } => true,
            Op::Nop => true,
            _ => false,
        }
    }

    /// The operation multiplies a signed number by itself, and throws where the square overflows.
    pub open spec fn is_checked_square(self) -> bool {
        match self {
            Op::MulOvf { left, right, unsigned, .. } => left == right && !unsigned,
            _ => false,
        }
    }

    /// Returns the variable that the operation assigns its result to.
    #[must_use]
    pub fn dest(&self) -> (r: Option<SsaVarId>)
        ensures
            r == self.result(),
    {
        match self {
            Op::Const { dest, .. } => Some(*dest),
            Op::Copy { dest, .. } => Some(*dest),
            Op::Add { dest, .. } => Some(*dest),
            Op::Sub { dest, .. } => Some(*dest),
            Op::Mul { dest, .. } => Some(*dest),
            Op::AddOvf { dest, .. } => Some(*dest),
            Op::SubOvf { dest, .. } => Some(*dest),
            Op::MulOvf { dest, .. } => Some(*dest),
            Op::Div { dest, .. } => Some(*dest),
            Op::Rem { dest, .. } => Some(*dest),
            Op::And { dest, .. } => Some(*dest),
            Op::Or { dest, .. } => Some(*dest),
            Op::Xor { dest, .. } => Some(*dest),
            Op::Shl { dest, .. } => Some(*dest),
            Op::Shr { dest, .. } => Some(*dest),
            Op::Neg { dest, .. } => Some(*dest),
            Op::Not { dest, .. } => Some(*dest),
            Op::Ckfinite { dest, .. } => Some(*dest),
            Op::Ceq { dest, .. } => Some(*dest),
            Op::Clt { dest, .. } => Some(*dest),
            Op::Cgt { dest, .. } => Some(*dest),
            Op::LoadArg { dest, .. } => Some(*dest),
            Op::LoadLocal { dest, .. } => Some(*dest),
            Op::LoadLocalAddr { dest, .. } => Some(*dest),
            Op::ArrayLength { dest, .. } => Some(*dest),
            Op::LoadToken { dest, .. } => Some(*dest),
            Op::NewObj { dest, .. } => Some(*dest),
            Op::NewArr { dest, .. } => Some(*dest),
            Op::Box { dest, .. } => Some(*dest),
            Op::Call { dest, .. } => *dest,
            Op::LoadField { dest, .. } => Some(*dest),
            Op::LoadIndirect { dest, .. } => Some(*dest),
            Op::AtomicExchange { dest, .. } => Some(*dest),
            _ => None,
        }
    }

    /// Returns the variable that the operation assigns the machine flags to.
    #[must_use]
    pub fn flags_dest(&self) -> (r: Option<SsaVarId>)
        ensures
            r == self.flags_result(),
    {
        match self {
            Op::Add { flags, .. } => *flags,
            Op::Sub { flags, .. } => *flags,
            Op::Mul { flags, .. } => *flags,
            Op::AddOvf { flags, .. } => *flags,
            Op::SubOvf { flags, .. } => *flags,
            Op::MulOvf { flags, .. } => *flags,
            Op::Div { flags, .. } => *flags,
            Op::Rem { flags, .. } => *flags,
            Op::And { flags, .. } => *flags,
            Op::Or { flags, .. } => *flags,
            Op::Xor { flags, .. } => *flags,
            Op::Shl { flags, .. } => *flags,
            Op::Shr { flags, .. } => *flags,
            Op::Neg { flags, .. } => *flags,
            Op::Not { flags, .. } => *flags,
            _ => None,
        }
    }

    /// Returns `true` if the operation ends a block.
    #[must_use]
    pub fn is_terminator(&self) -> (r: bool)
        ensures
            r == self.ends_block(),
    {
        match self {
            Op::Jump { .. } => true,
            Op::Leave { .. } => true,
            Op::Branch { .. } => true,
            Op::BranchCmp { .. } => true,
            Op::BranchFlags { .. } => true,
            Op::Switch { .. } => true,
            Op::IndirectBranch { .. } => true,
            Op::Return { .. } => true,
            Op::Throw { .. } => true,
            Op::Rethrow => true,
            Op::EndFinally => true,
            Op::EndFilter { .. } => true,
            Op::InterruptReturn => true,
            _ => false,
        }
    }

    /// Returns `true` if the operation only computes its results.
    #[must_use]
    pub fn is_pure(&self) -> (r: bool)
        ensures
            r == self.pure(),
    {
        match self {
            Op::Const { .. } => true,
            Op::Copy { .. } => true,
            Op::Add { .. } => true,
            Op::Sub { .. } => true,
            Op::Mul { .. } => true,
            Op::And { .. } => true,
            Op::Or { .. } => true,
            Op::Xor { .. } => true,
            Op::Shl { .. } => true,
            Op::Shr { .. } => true,
            Op::Neg { .. } => true,
            Op::Not { .. } => true,
            Op::Ceq { .. } => true,
            Op::Clt { .. } => true,
            Op::Cgt { .. } => true,
            Op::LoadArg { .. } => true,
            Op::LoadLocal { .. } => true,
            Op::LoadLocalAddr { .. } => true,
            Op::LoadToken { .. } => true,
            Op::Pop { .. } => true,
            Op::Nop => true,
            _ => false,
        }
    }
}

/// The sequence of the values that an option holds.
pub open spec fn option_seq<V>(v: Option<V>) -> Seq<V> {
    match v {
        Some(x) => seq![x],
        None => Seq::empty(),
    }
}

/// `new` where `v` is `old`, and `v` otherwise.
pub open spec fn renamed<V>(v: V, old: V, new: V) -> V {
    if v == old {
        new
    } else {
        v
    }
}

/// Every entry of `s` that is `old` exchanged for `new`.
pub open spec fn all_renamed<V>(s: Seq<V>, old: V, new: V) -> Seq<V> {
    s.map_values(|v: V| renamed(v, old, new))
}

/// Every entry of an option that is `old` exchanged for `new`.
pub open spec fn option_renamed<V>(v: Option<V>, old: V, new: V) -> Option<V> {
    match v {
        Some(x) => Some(renamed(x, old, new)),
        None => None,
    }
}

impl<T: Target> Op<T, Seq<usize>, Seq<SsaVarId>> {
    /// The variables that the operation defines, in order.
    pub open spec fn defs(self) -> Seq<SsaVarId> {
        option_seq(self.result()) + option_seq(self.flags_result())
    }

    /// The variables that the operation reads, in order.
    pub open spec fn uses(self) -> Seq<SsaVarId> {
        match self {
            Op::Copy { src, .. } => seq![src],
            Op::Add { left, right, .. } => seq![left, right],
            Op::Sub { left, right, .. } => seq![left, right],
            Op::Mul { left, right, .. } => seq![left, right],
            Op::AddOvf { left, right, .. } => seq![left, right],
            Op::SubOvf { left, right, .. } => seq![left, right],
            Op::MulOvf { left, right, .. } => seq![left, right],
            Op::Div { left, right, .. } => seq![left, right],
            Op::Rem { left, right, .. } => seq![left, right],
            Op::And { left, right, .. } => seq![left, right],
            Op::Or { left, right, .. } => seq![left, right],
            Op::Xor { left, right, .. } => seq![left, right],
            Op::Shl { value, amount, .. } => seq![value, amount],
            Op::Shr { value, amount, .. } => seq![value, amount],
            Op::Neg { operand, .. } => seq![operand],
            Op::Not { operand, .. } => seq![operand],
            Op::Ckfinite { operand, .. } => seq![operand],
            Op::Ceq { left, right, .. } => seq![left, right],
            Op::Clt { left, right, .. } => seq![left, right],
            Op::Cgt { left, right, .. } => seq![left, right],
            Op::ArrayLength { array, .. } => seq![array],
            Op::NewObj { args, .. } => args,
            Op::NewArr { length, .. } => seq![length],
            Op::Box { value, .. } => seq![value],
            Op::Call { args, .. } => args,
            Op::LoadField { object, .. } => seq![object],
            Op::StoreField { object, value, .. } => seq![object, value],
            Op::LoadIndirect { addr, .. } => seq![addr],
            Op::StoreIndirect { addr, value, .. } => seq![addr, value],
            Op::AtomicExchange { addr, value, .. } => seq![addr, value],
            Op::Pop { value } => seq![value],
            Op::Branch { condition, .. } => seq![condition],
            Op::BranchCmp { left, right, .. } => seq![left, right],
            Op::BranchFlags { flags, .. } => seq![flags],
            Op::Switch { value, .. } => seq![value],
            Op::IndirectBranch { address, .. } => seq![address],
            Op::Return { value } => option_seq(value),
            Op::Throw { exception } => seq![exception],
            Op::EndFilter { result } => seq![result],
            _ => Seq::empty(),
        }
    }

    /// The blocks that control may continue at, in order.
    pub open spec fn successors(self) -> Seq<usize> {
        match self {
            Op::Jump { target } => seq![target],
            Op::Leave { target } => seq![target],
            Op::Branch { true_target, false_target, .. } => seq![true_target, false_target],
            Op::BranchCmp { true_target, false_target, .. } => seq![true_target, false_target],
            Op::BranchFlags { true_target, false_target, .. } => seq![true_target, false_target],
            Op::Switch { targets, default, .. } => targets.push(default),
            Op::IndirectBranch { resolved_targets, .. } => resolved_targets,
            _ => Seq::empty(),
        }
    }

    /// The operation with every branch to `old` going to `new` in its place.
    pub open spec fn redirected(self, old: usize, new: usize) -> Self {
        match self {
            Op::Jump { target } => Op::Jump {
                target: renamed(target, old, new),
            },
            Op::Leave { target } => Op::Leave {
                target: renamed(target, old, new),
            },
            Op::Branch { condition, true_target, false_target } => Op::Branch {
                condition,
                true_target: renamed(true_target, old, new),
                false_target: renamed(false_target, old, new),
            },
            Op::BranchCmp { left, right, kind, unsigned, true_target, false_target } => Op::BranchCmp {
                left,
                right,
                kind,
                unsigned,
                true_target: renamed(true_target, old, new),
                false_target: renamed(false_target, old, new),
            },
            Op::BranchFlags { flags, condition, true_target, false_target } => Op::BranchFlags {
                flags,
                condition,
                true_target: renamed(true_target, old, new),
                false_target: renamed(false_target, old, new),
            },
            Op::Switch { value, targets, default } => Op::Switch {
                value,
                targets: all_renamed(targets, old, new),
                default: renamed(default, old, new),
            },
            Op::IndirectBranch { address, resolved_targets } => Op::IndirectBranch {
                address,
                resolved_targets: all_renamed(resolved_targets, old, new),
            },
            _ => self,
        }
    }

    /// The operation with every read of `old` reading `new` in its place.
    pub open spec fn reading(self, old: SsaVarId, new: SsaVarId) -> Self {
        match self {
            Op::Copy { dest, src } => Op::Copy {
                dest,
                src: renamed(src, old, new),
            },
            Op::Add { dest, left, right, flags } => Op::Add {
                dest,
                left: renamed(left, old, new),
                right: renamed(right, old, new),
                flags,
            },
            Op::Sub { dest, left, right, flags } => Op::Sub {
                dest,
                left: renamed(left, old, new),
                right: renamed(right, old, new),
                flags,
            },
            Op::Mul { dest, left, right, flags } => Op::Mul {
                dest,
                left: renamed(left, old, new),
                right: renamed(right, old, new),
                flags,
            },
            Op::AddOvf { dest, left, right, unsigned, flags } => Op::AddOvf {
                dest,
                left: renamed(left, old, new),
                right: renamed(right, old, new),
                unsigned,
                flags,
            },
            Op::SubOvf { dest, left, right, unsigned, flags } => Op::SubOvf {
                dest,
                left: renamed(left, old, new),
                right: renamed(right, old, new),
                unsigned,
                flags,
            },
            Op::MulOvf { dest, left, right, unsigned, flags } => Op::MulOvf {
                dest,
                left: renamed(left, old, new),
                right: renamed(right, old, new),
                unsigned,
                flags,
            },
            Op::Div { dest, left, right, unsigned, flags } => Op::Div {
                dest,
                left: renamed(left, old, new),
                right: renamed(right, old, new),
                unsigned,
                flags,
            },
            Op::Rem { dest, left, right, unsigned, flags } => Op::Rem {
                dest,
                left: renamed(left, old, new),
                right: renamed(right, old, new),
                unsigned,
                flags,
            },
            Op::And { dest, left, right, flags } => Op::And {
                dest,
                left: renamed(left, old, new),
                right: renamed(right, old, new),
                flags,
            },
            Op::Or { dest, left, right, flags } => Op::Or {
                dest,
                left: renamed(left, old, new),
                right: renamed(right, old, new),
                flags,
            },
            Op::Xor { dest, left, right, flags } => Op::Xor {
                dest,
                left: renamed(left, old, new),
                right: renamed(right, old, new),
                flags,
            },
            Op::Shl { dest, value, amount, flags } => Op::Shl {
                dest,
                value: renamed(value, old, new),
                amount: renamed(amount, old, new),
                flags,
            },
            Op::Shr { dest, value, amount, unsigned, flags } => Op::Shr {
                dest,
                value: renamed(value, old, new),
                amount: renamed(amount, old, new),
                unsigned,
                flags,
            },
            Op::Neg { dest, operand, flags } => Op::Neg {
                dest,
                operand: renamed(operand, old, new),
                flags,
            },
            Op::Not { dest, operand, flags } => Op::Not {
                dest,
                operand: renamed(operand, old, new),
                flags,
            },
            Op::Ckfinite { dest, operand } => Op::Ckfinite {
                dest,
                operand: renamed(operand, old, new),
            },
            Op::Ceq { dest, left, right } => Op::Ceq {
                dest,
                left: renamed(left, old, new),
                right: renamed(right, old, new),
            },
            Op::Clt { dest, left, right, unsigned } => Op::Clt {
                dest,
                left: renamed(left, old, new),
                right: renamed(right, old, new),
                unsigned,
            },
            Op::Cgt { dest, left, right, unsigned } => Op::Cgt {
                dest,
                left: renamed(left, old, new),
                right: renamed(right, old, new),
                unsigned,
            },
            Op::ArrayLength { dest, array } => Op::ArrayLength {
                dest,
                array: renamed(array, old, new),
            },
            Op::NewObj { dest, ctor, args } => Op::NewObj {
                dest,
                ctor,
                args: all_renamed(args, old, new),
            },
            Op::NewArr { dest, elem_type, length } => Op::NewArr {
                dest,
                elem_type,
                length: renamed(length, old, new),
            },
            Op::Box { dest, value, value_type } => Op::Box {
                dest,
                value: renamed(value, old, new),
                value_type,
            },
            Op::Call { dest, method, args } => Op::Call {
                dest,
                method,
                args: all_renamed(args, old, new),
            },
            Op::LoadField { dest, object, field } => Op::LoadField {
                dest,
                object: renamed(object, old, new),
                field,
            },
            Op::StoreField { object, field, value } => Op::StoreField {
                object: renamed(object, old, new),
                field,
                value: renamed(value, old, new),
            },
            Op::LoadIndirect { dest, addr, value_type } => Op::LoadIndirect {
                dest,
                addr: renamed(addr, old, new),
                value_type,
            },
            Op::StoreIndirect { addr, value, value_type } => Op::StoreIndirect {
                addr: renamed(addr, old, new),
                value: renamed(value, old, new),
                value_type,
            },
            Op::AtomicExchange { dest, addr, value, ordering, width, volatile } => Op::AtomicExchange {
                dest,
                addr: renamed(addr, old, new),
                value: renamed(value, old, new),
                ordering,
                width,
                volatile,
            },
            Op::Pop { value } => Op::Pop {
                value: renamed(value, old, new),
            },
            Op::Branch { condition, true_target, false_target } => Op::Branch {
                condition: renamed(condition, old, new),
                true_target,
                false_target,
            },
            Op::BranchCmp { left, right, kind, unsigned, true_target, false_target } => Op::BranchCmp {
                left: renamed(left, old, new),
                right: renamed(right, old, new),
                kind,
                unsigned,
                true_target,
                false_target,
            },
            Op::BranchFlags { flags, condition, true_target, false_target } => Op::BranchFlags {
                flags: renamed(flags, old, new),
                condition,
                true_target,
                false_target,
            },
            Op::Switch { value, targets, default } => Op::Switch {
                value: renamed(value, old, new),
                targets,
                default,
            },
            Op::IndirectBranch { address, resolved_targets } => Op::IndirectBranch {
                address: renamed(address, old, new),
                resolved_targets,
            },
            Op::Return { value } => Op::Return {
                value: option_renamed(value, old, new),
            },
            Op::Throw { exception } => Op::Throw {
                exception: renamed(exception, old, new),
            },
            Op::EndFilter { result } => Op::EndFilter {
                result: renamed(result, old, new),
            },
            _ => self,
        }
    }
}

/// Copies a list of plain values.
fn copy_list<V: Copy>(list: &Vec<V>) -> (r: Vec<V>)
    ensures
        r@ == list@,
{
    let mut r: Vec<V> = Vec::new();
    let mut i: usize = 0;
    while i < list.len()
        invariant
            i <= list@.len(),
            r@ == list@.take(i as int),
        decreases list@.len() - i,
    {
        r.push(list[i]);
        i = i + 1;
    }
    assert(r@ =~= list@);
    r
}

/// Returns whether a block list holds `block`.
fn lists_block(list: &Vec<usize>, block: usize) -> (r: bool)
    ensures
        r == list@.contains(block),
{
    let mut i: usize = 0;
    while i < list.len()
        invariant
            i <= list@.len(),
            forall|j: int| 0 <= j < i ==> list@[j] != block,
        decreases list@.len() - i,
    {
        if list[i] == block {
            assert(list@[i as int] == block);
            return true;
        }
        i = i + 1;
    }
    false
}

/// Exchanges `old` for `new` in a block list.
fn rename_blocks(list: &mut Vec<usize>, old_block: usize, new_block: usize)
    ensures
        final(list)@ == all_renamed(old(list)@, old_block, new_block),
{
    let mut i: usize = 0;
    while i < list.len()
        invariant
            i <= list@.len(),
            list@.len() == old(list)@.len(),
            forall|j: int|
                0 <= j < i ==> list@[j] == renamed(
                    #[trigger] old(list)@[j],
                    old_block,
                    new_block,
                ),
            forall|j: int| i <= j < list@.len() ==> list@[j] == #[trigger] old(list)@[j],
        decreases list@.len() - i,
    {
        if list[i] == old_block {
            list.set(i, new_block);
        }
        i = i + 1;
    }
    assert(list@ =~= all_renamed(old(list)@, old_block, new_block));
}

/// Exchanges `old` for `new` in a variable list.
fn rename_vars(list: &mut Vec<SsaVarId>, old_var: SsaVarId, new_var: SsaVarId)
    ensures
        final(list)@ == all_renamed(old(list)@, old_var, new_var),
{
    let mut i: usize = 0;
    while i < list.len()
        invariant
            i <= list@.len(),
            list@.len() == old(list)@.len(),
            forall|j: int|
                0 <= j < i ==> list@[j] == renamed(#[trigger] old(list)@[j], old_var, new_var),
            forall|j: int| i <= j < list@.len() ==> list@[j] == #[trigger] old(list)@[j],
        decreases list@.len() - i,
    {
        if list[i] == old_var {
            list.set(i, new_var);
        }
        i = i + 1;
    }
    assert(list@ =~= all_renamed(old(list)@, old_var, new_var));
}

/// Exchanges a block for another.
fn rename_block(block: &mut usize, old_block: usize, new_block: usize)
    ensures
        *final(block) == renamed(*old(block), old_block, new_block),
{
    if *block == old_block {
        *block = new_block;
    }
}

/// Exchanges a variable for another.
pub(crate) fn rename_var(var: &mut SsaVarId, old_var: SsaVarId, new_var: SsaVarId)
    ensures
        *final(var) == renamed(*old(var), old_var, new_var),
{
    if *var == old_var {
        *var = new_var;
    }
}

impl<T: Target> Op<T, Vec<usize>, Vec<SsaVarId>> {
    /// Returns an equal operation.
    #[must_use]
    pub fn duplicate(&self) -> (r: Self)
        ensures
            r@ == self@,
    {
        match self {
            Op::Const { dest, value } => Op::Const { dest: *dest, value: *value },
            Op::Copy { dest, src } => Op::Copy { dest: *dest, src: *src },
            Op::Add { dest, left, right, flags } => Op::Add { dest: *dest, left: *left, right: *right, flags: *flags },
            Op::Sub { dest, left, right, flags } => Op::Sub { dest: *dest, left: *left, right: *right, flags: *flags },
            Op::Mul { dest, left, right, flags } => Op::Mul { dest: *dest, left: *left, right: *right, flags: *flags },
            Op::AddOvf { dest, left, right, unsigned, flags } => Op::AddOvf { dest: *dest, left: *left, right: *right, unsigned: *unsigned, flags: *flags },
            Op::SubOvf { dest, left, right, unsigned, flags } => Op::SubOvf { dest: *dest, left: *left, right: *right, unsigned: *unsigned, flags: *flags },
            Op::MulOvf { dest, left, right, unsigned, flags } => Op::MulOvf { dest: *dest, left: *left, right: *right, unsigned: *unsigned, flags: *flags },
            Op::Div { dest, left, right, unsigned, flags } => Op::Div { dest: *dest, left: *left, right: *right, unsigned: *unsigned, flags: *flags },
            Op::Rem { dest, left, right, unsigned, flags } => Op::Rem { dest: *dest, left: *left, right: *right, unsigned: *unsigned, flags: *flags },
            Op::And { dest, left, right, flags } => Op::And { dest: *dest, left: *left, right: *right, flags: *flags },
            Op::Or { dest, left, right, flags } => Op::Or { dest: *dest, left: *left, right: *right, flags: *flags },
            Op::Xor { dest, left, right, flags } => Op::Xor { dest: *dest, left: *left, right: *right, flags: *flags },
            Op::Shl { dest, value, amount, flags } => Op::Shl { dest: *dest, value: *value, amount: *amount, flags: *flags },
            Op::Shr { dest, value, amount, unsigned, flags } => Op::Shr { dest: *dest, value: *value, amount: *amount, unsigned: *unsigned, flags: *flags },
            Op::Neg { dest, operand, flags } => Op::Neg { dest: *dest, operand: *operand, flags: *flags },
            Op::Not { dest, operand, flags } => Op::Not { dest: *dest, operand: *operand, flags: *flags },
            Op::Ckfinite { dest, operand } => Op::Ckfinite { dest: *dest, operand: *operand },
            Op::Ceq { dest, left, right } => Op::Ceq { dest: *dest, left: *left, right: *right },
            Op::Clt { dest, left, right, unsigned } => Op::Clt { dest: *dest, left: *left, right: *right, unsigned: *unsigned },
            Op::Cgt { dest, left, right, unsigned } => Op::Cgt { dest: *dest, left: *left, right: *right, unsigned: *unsigned },
            Op::LoadArg { dest, arg_index } => Op::LoadArg { dest: *dest, arg_index: *arg_index },
            Op::LoadLocal { dest, local_index } => Op::LoadLocal { dest: *dest, local_index: *local_index },
            Op::LoadLocalAddr { dest, local_index } => Op::LoadLocalAddr { dest: *dest, local_index: *local_index },
            Op::ArrayLength { dest, array } => Op::ArrayLength { dest: *dest, array: *array },
            Op::LoadToken { dest, token } => Op::LoadToken { dest: *dest, token: *token },
            Op::NewObj { dest, ctor, args } => Op::NewObj { dest: *dest, ctor: *ctor, args: copy_list(args) },
            Op::NewArr { dest, elem_type, length } => Op::NewArr { dest: *dest, elem_type: *elem_type, length: *length },
            Op::Box { dest, value, value_type } => Op::Box { dest: *dest, value: *value, value_type: *value_type },
            Op::Call { dest, method, args } => Op::Call { dest: *dest, method: *method, args: copy_list(args) },
            Op::LoadField { dest, object, field } => Op::LoadField { dest: *dest, object: *object, field: *field },
            Op::StoreField { object, field, value } => Op::StoreField { object: *object, field: *field, value: *value },
            Op::LoadIndirect { dest, addr, value_type } => Op::LoadIndirect { dest: *dest, addr: *addr, value_type: *value_type },
            Op::StoreIndirect { addr, value, value_type } => Op::StoreIndirect { addr: *addr, value: *value, value_type: *value_type },
            Op::AtomicExchange { dest, addr, value, ordering, width, volatile } => Op::AtomicExchange { dest: *dest, addr: *addr, value: *value, ordering: *ordering, width: *width, volatile: *volatile },
            Op::Fence { kind } => Op::Fence { kind: *kind },
            Op::Pop { value } => Op::Pop { value: *value },
            Op::Nop => Op::Nop,
            Op::Jump { target } => Op::Jump { target: *target },
            Op::Leave { target } => Op::Leave { target: *target },
            Op::Branch { condition, true_target, false_target } => Op::Branch { condition: *condition, true_target: *true_target, false_target: *false_target },
            Op::BranchCmp { left, right, kind, unsigned, true_target, false_target } => Op::BranchCmp { left: *left, right: *right, kind: *kind, unsigned: *unsigned, true_target: *true_target, false_target: *false_target },
            Op::BranchFlags { flags, condition, true_target, false_target } => Op::BranchFlags { flags: *flags, condition: *condition, true_target: *true_target, false_target: *false_target },
            Op::Switch { value, targets, default } => Op::Switch { value: *value, targets: copy_list(targets), default: *default },
            Op::IndirectBranch { address, resolved_targets } => Op::IndirectBranch { address: *address, resolved_targets: copy_list(resolved_targets) },
            Op::Return { value } => Op::Return { value: *value },
            Op::Throw { exception } => Op::Throw { exception: *exception },
            Op::Rethrow => Op::Rethrow,
            Op::EndFinally => Op::EndFinally,
            Op::EndFilter { result } => Op::EndFilter { result: *result },
            Op::InterruptReturn => Op::InterruptReturn,
        }
    }

    /// Returns the variables that the operation defines, in order.
    #[must_use]
    pub fn defs(&self) -> (r: Vec<SsaVarId>)
        ensures
            r@ == self@.defs(),
    {
        let mut r: Vec<SsaVarId> = Vec::new();
        if let Some(dest) = self.dest() {
            r.push(dest);
        }
        if let Some(flags) = self.flags_dest() {
            r.push(flags);
        }
        assert(r@ =~= self@.defs());
        r
    }

    /// Returns the variables that the operation reads, in order.
    #[must_use]
    pub fn uses(&self) -> (r: Vec<SsaVarId>)
        ensures
            r@ == self@.uses(),
    {
        let mut r: Vec<SsaVarId> = Vec::new();
        match self {
            Op::Copy { src, .. } => {
                r.push(*src);
            },
            Op::Add { left, right, .. } => {
                r.push(*left);
                r.push(*right);
            },
            Op::Sub { left, right, .. } => {
                r.push(*left);
                r.push(*right);
            },
            Op::Mul { left, right, .. } => {
                r.push(*left);
                r.push(*right);
            },
            Op::AddOvf { left, right, .. } => {
                r.push(*left);
                r.push(*right);
            },
            Op::SubOvf { left, right, .. } => {
                r.push(*left);
                r.push(*right);
            },
            Op::MulOvf { left, right, .. } => {
                r.push(*left);
                r.push(*right);
            },
            Op::Div { left, right, .. } => {
                r.push(*left);
                r.push(*right);
            },
            Op::Rem { left, right, .. } => {
                r.push(*left);
                r.push(*right);
            },
            Op::And { left, right, .. } => {
                r.push(*left);
                r.push(*right);
            },
            Op::Or { left, right, .. } => {
                r.push(*left);
                r.push(*right);
            },
            Op::Xor { left, right, .. } => {
                r.push(*left);
                r.push(*right);
            },
            Op::Shl { value, amount, .. } => {
                r.push(*value);
                r.push(*amount);
            },
            Op::Shr { value, amount, .. } => {
                r.push(*value);
                r.push(*amount);
            },
            Op::Neg { operand, .. } => {
                r.push(*operand);
            },
            Op::Not { operand, .. } => {
                r.push(*operand);
            },
            Op::Ckfinite { operand, .. } => {
                r.push(*operand);
            },
            Op::Ceq { left, right, .. } => {
                r.push(*left);
                r.push(*right);
            },
            Op::Clt { left, right, .. } => {
                r.push(*left);
                r.push(*right);
            },
            Op::Cgt { left, right, .. } => {
                r.push(*left);
                r.push(*right);
            },
            Op::ArrayLength { array, .. } => {
                r.push(*array);
            },
            Op::NewObj { args, .. } => {
                r = copy_list(args);
            },
            Op::NewArr { length, .. } => {
                r.push(*length);
            },
            Op::Box { value, .. } => {
                r.push(*value);
            },
            Op::Call { args, .. } => {
                r = copy_list(args);
            },
            Op::LoadField { object, .. } => {
                r.push(*object);
            },
            Op::StoreField { object, value, .. } => {
                r.push(*object);
                r.push(*value);
            },
            Op::LoadIndirect { addr, .. } => {
                r.push(*addr);
            },
            Op::StoreIndirect { addr, value, .. } => {
                r.push(*addr);
                r.push(*value);
            },
            Op::AtomicExchange { addr, value, .. } => {
                r.push(*addr);
                r.push(*value);
            },
            Op::Pop { value } => {
                r.push(*value);
            },
            Op::Branch { condition, .. } => {
                r.push(*condition);
            },
            Op::BranchCmp { left, right, .. } => {
                r.push(*left);
                r.push(*right);
            },
            Op::BranchFlags { flags, .. } => {
                r.push(*flags);
            },
            Op::Switch { value, .. } => {
                r.push(*value);
            },
            Op::IndirectBranch { address, .. } => {
                r.push(*address);
            },
            Op::Return { value } => {
                if let Some(v) = value {
                    r.push(*v);
                }
            },
            Op::Throw { exception } => {
                r.push(*exception);
            },
            Op::EndFilter { result } => {
                r.push(*result);
            },
            _ => {},
        }
        assert(r@ =~= self@.uses());
        r
    }

    /// Returns the blocks that control may continue at, in order.
    #[must_use]
    pub fn successors(&self) -> (r: Vec<usize>)
        ensures
            r@ == self@.successors(),
    {
        let mut r: Vec<usize> = Vec::new();
        match self {
            Op::Jump { target } => {
                r.push(*target);
            },
            Op::Leave { target } => {
                r.push(*target);
            },
            Op::Branch { true_target, false_target, .. } => {
                r.push(*true_target);
                r.push(*false_target);
            },
            Op::BranchCmp { true_target, false_target, .. } => {
                r.push(*true_target);
                r.push(*false_target);
            },
            Op::BranchFlags { true_target, false_target, .. } => {
                r.push(*true_target);
                r.push(*false_target);
            },
            Op::Switch { targets, default, .. } => {
                r = copy_list(targets);
                r.push(*default);
            },
            Op::IndirectBranch { resolved_targets, .. } => {
                r = copy_list(resolved_targets);
            },
            _ => {},
        }
        assert(r@ =~= self@.successors());
        r
    }

    /// Returns whether control may continue at `block`.
    #[must_use]
    pub fn has_successor(&self, block: usize) -> (r: bool)
        ensures
            r == self@.successors().contains(block),
    {
        let successors: Vec<usize> = self.successors();
        lists_block(&successors, block)
    }

    /// Returns whether the operation reads `var`.
    #[must_use]
    pub fn uses_var(&self, var: SsaVarId) -> (r: bool)
        ensures
            r == self@.uses().contains(var),
    {
        let uses: Vec<SsaVarId> = self.uses();
        let mut i: usize = 0;
        while i < uses.len()
            invariant
                i <= uses@.len(),
                uses@ == self@.uses(),
                forall|j: int| 0 <= j < i ==> uses@[j] != var,
            decreases uses@.len() - i,
        {
            if uses[i] == var {
                assert(uses@[i as int] == var);
                return true;
            }
            i = i + 1;
        }
        false
    }

    /// Makes every branch to `old_target` go to `new_target`, and returns whether that changed
    /// the operation.
    pub fn redirect_target(&mut self, old_target: usize, new_target: usize) -> (r: bool)
        ensures
            final(self)@ == old(self)@.redirected(old_target, new_target),
            r == (old_target != new_target && old(self)@.successors().contains(old_target)),
    {
        let found: bool = old_target != new_target && self.has_successor(old_target);
        match self {
            Op::Jump { target } => {
                rename_block(target, old_target, new_target);
            },
            Op::Leave { target } => {
                rename_block(target, old_target, new_target);
            },
            Op::Branch { true_target, false_target, .. } => {
                rename_block(true_target, old_target, new_target);
                rename_block(false_target, old_target, new_target);
            },
            Op::BranchCmp { true_target, false_target, .. } => {
                rename_block(true_target, old_target, new_target);
                rename_block(false_target, old_target, new_target);
            },
            Op::BranchFlags { true_target, false_target, .. } => {
                rename_block(true_target, old_target, new_target);
                rename_block(false_target, old_target, new_target);
            },
            Op::Switch { targets, default, .. } => {
                rename_blocks(targets, old_target, new_target);
                rename_block(default, old_target, new_target);
            },
            Op::IndirectBranch { resolved_targets, .. } => {
                rename_blocks(resolved_targets, old_target, new_target);
            },
            _ => {},
        }
        found
    }

    /// Makes every read of `old_var` read `new_var`.
    pub fn replace_uses(&mut self, old_var: SsaVarId, new_var: SsaVarId)
        ensures
            final(self)@ == old(self)@.reading(old_var, new_var),
    {
        match self {
            Op::Copy { src, .. } => {
                rename_var(src, old_var, new_var);
            },
            Op::Add { left, right, .. } => {
                rename_var(left, old_var, new_var);
                rename_var(right, old_var, new_var);
            },
            Op::Sub { left, right, .. } => {
                rename_var(left, old_var, new_var);
                rename_var(right, old_var, new_var);
            },
            Op::Mul { left, right, .. } => {
                rename_var(left, old_var, new_var);
                rename_var(right, old_var, new_var);
            },
            Op::AddOvf { left, right, .. } => {
                rename_var(left, old_var, new_var);
                rename_var(right, old_var, new_var);
            },
            Op::SubOvf { left, right, .. } => {
                rename_var(left, old_var, new_var);
                rename_var(right, old_var, new_var);
            },
            Op::MulOvf { left, right, .. } => {
                rename_var(left, old_var, new_var);
                rename_var(right, old_var, new_var);
            },
            Op::Div { left, right, .. } => {
                rename_var(left, old_var, new_var);
                rename_var(right, old_var, new_var);
            },
            Op::Rem { left, right, .. } => {
                rename_var(left, old_var, new_var);
                rename_var(right, old_var, new_var);
            },
            Op::And { left, right, .. } => {
                rename_var(left, old_var, new_var);
                rename_var(right, old_var, new_var);
            },
            Op::Or { left, right, .. } => {
                rename_var(left, old_var, new_var);
                rename_var(right, old_var, new_var);
            },
            Op::Xor { left, right, .. } => {
                rename_var(left, old_var, new_var);
                rename_var(right, old_var, new_var);
            },
            Op::Shl { value, amount, .. } => {
                rename_var(value, old_var, new_var);
                rename_var(amount, old_var, new_var);
            },
            Op::Shr { value, amount, .. } => {
                rename_var(value, old_var, new_var);
                rename_var(amount, old_var, new_var);
            },
            Op::Neg { operand, .. } => {
                rename_var(operand, old_var, new_var);
            },
            Op::Not { operand, .. } => {
                rename_var(operand, old_var, new_var);
            },
            Op::Ckfinite { operand, .. } => {
                rename_var(operand, old_var, new_var);
            },
            Op::Ceq { left, right, .. } => {
                rename_var(left, old_var, new_var);
                rename_var(right, old_var, new_var);
            },
            Op::Clt { left, right, .. } => {
                rename_var(left, old_var, new_var);
                rename_var(right, old_var, new_var);
            },
            Op::Cgt { left, right, .. } => {
                rename_var(left, old_var, new_var);
                rename_var(right, old_var, new_var);
            },
            Op::ArrayLength { array, .. } => {
                rename_var(array, old_var, new_var);
            },
            Op::NewObj { args, .. } => {
                rename_vars(args, old_var, new_var);
            },
            Op::NewArr { length, .. } => {
                rename_var(length, old_var, new_var);
            },
            Op::Box { value, .. } => {
                rename_var(value, old_var, new_var);
            },
            Op::Call { args, .. } => {
                rename_vars(args, old_var, new_var);
            },
            Op::LoadField { object, .. } => {
                rename_var(object, old_var, new_var);
            },
            Op::StoreField { object, value, .. } => {
                rename_var(object, old_var, new_var);
                rename_var(value, old_var, new_var);
            },
            Op::LoadIndirect { addr, .. } => {
                rename_var(addr, old_var, new_var);
            },
            Op::StoreIndirect { addr, value, .. } => {
                rename_var(addr, old_var, new_var);
                rename_var(value, old_var, new_var);
            },
            Op::AtomicExchange { addr, value, .. } => {
                rename_var(addr, old_var, new_var);
                rename_var(value, old_var, new_var);
            },
            Op::Pop { value } => {
                rename_var(value, old_var, new_var);
            },
            Op::Branch { condition, .. } => {
                rename_var(condition, old_var, new_var);
            },
            Op::BranchCmp { left, right, .. } => {
                rename_var(left, old_var, new_var);
                rename_var(right, old_var, new_var);
            },
            Op::BranchFlags { flags, .. } => {
                rename_var(flags, old_var, new_var);
            },
            Op::Switch { value, .. } => {
                rename_var(value, old_var, new_var);
            },
            Op::IndirectBranch { address, .. } => {
                rename_var(address, old_var, new_var);
            },
            Op::Return { value } => {
                if let Some(v) = value {
                    rename_var(v, old_var, new_var);
                }
            },
            Op::Throw { exception } => {
                rename_var(exception, old_var, new_var);
            },
            Op::EndFilter { result } => {
                rename_var(result, old_var, new_var);
            },
            _ => {},
        }
    }
}

} // verus!
