//! Opaque predicate detection and removal.
//!
//! Finds conditions that always have one value, whatever the program computes, and removes the
//! branches and comparisons on them: comparisons of a variable with itself, values that are zero
//! by construction, products of consecutive integers modulo two, fresh objects compared with
//! null, constants, ranges, comparisons of comparisons, and conditions that an earlier branch on the
//! same variable decides.
use crate::analysis::defuse::DefUseIndex;
use crate::analysis::evaluator;
use crate::analysis::evaluator::SsaEvaluator;
use crate::analysis::loops::{compute_dominators, Dominators};
use crate::analysis::meaning;
use crate::analysis::range::ValueRange;
use crate::events::{EventKind, EventLog, EventView};
use crate::ir::block::{BlockView, SsaBlock, SsaInstruction};
use crate::ir::function::{SsaFunction, SsaView};
use crate::ir::ops::{Op, OpView, SsaOp};
use crate::ir::phi::{PhiNode, PhiOperand, PhiView};
use crate::ir::value::ConstValue;
use crate::ir::variable::SsaVarId;
use crate::passes::correlation;
use crate::passes::outcome::Outcome;
use crate::pointer;
use crate::pointer::PointerSize;
use crate::seqs;
use crate::target::Target;
use crate::text;
use core::marker::PhantomData;
use std::collections::BTreeMap;
use vstd::prelude::*;
use vstd::string::StringExecFns;

verus! {

/// What is known of a condition.
#[derive(Debug, Clone, Copy, PartialEq, Eq, Structural)]
pub enum PredicateResult {
    /// The condition always evaluates to a non-zero value.
    AlwaysTrue,
    /// The condition always evaluates to zero.
    AlwaysFalse,
    /// The value of the condition is not known.
    Unknown,
}

impl PredicateResult {
    /// The truth value, where it is known.
    pub open spec fn truth(self) -> Option<bool> {
        match self {
            PredicateResult::AlwaysTrue => Some(true),
            PredicateResult::AlwaysFalse => Some(false),
            PredicateResult::Unknown => None,
        }
    }

    /// The result whose truth value is `truth`.
    pub open spec fn of(truth: bool) -> PredicateResult {
        if truth {
            PredicateResult::AlwaysTrue
        } else {
            PredicateResult::AlwaysFalse
        }
    }

    /// The result for the opposite condition.
    pub open spec fn negation(self) -> PredicateResult {
        match self {
            PredicateResult::AlwaysTrue => PredicateResult::AlwaysFalse,
            PredicateResult::AlwaysFalse => PredicateResult::AlwaysTrue,
            PredicateResult::Unknown => PredicateResult::Unknown,
        }
    }

    /// Converts to an optional boolean.
    #[must_use]
    pub fn as_bool(self) -> (r: Option<bool>)
        ensures
            r == self.truth(),
    {
        match self {
            PredicateResult::AlwaysTrue => Some(true),
            PredicateResult::AlwaysFalse => Some(false),
            PredicateResult::Unknown => None,
        }
    }

    /// Negates the result.
    #[must_use]
    pub fn negate(self) -> (r: Self)
        ensures
            r == self.negation(),
    {
        match self {
            PredicateResult::AlwaysTrue => PredicateResult::AlwaysFalse,
            PredicateResult::AlwaysFalse => PredicateResult::AlwaysTrue,
            PredicateResult::Unknown => PredicateResult::Unknown,
        }
    }

    /// The result whose truth value is `truth`.
    fn from_bool(truth: bool) -> (r: Self)
        ensures
            r == PredicateResult::of(truth),
    {
        if truth {
            PredicateResult::AlwaysTrue
        } else {
            PredicateResult::AlwaysFalse
        }
    }
}

/// Negating twice changes nothing, and negating flips the truth value.
pub proof fn negate_is_involution(p: PredicateResult)
    ensures
        p.negation().negation() == p,
        p.negation().truth() == (match p.truth() {
            Some(b) => Some(!b),
            None => None,
        }),
{
}

/// How far comparisons of comparisons are followed.
pub const MAX_PREDICATE_DEPTH: usize = 16;

impl<T: Target> SsaView<T> {
    /// The constant that `v` is defined as.
    pub open spec fn const_of(self, v: SsaVarId) -> Option<ConstValue> {
        match self.def_op(v) {
            Some(Op::Const { value, .. }) => Some(value),
            _ => None,
        }
    }

    /// `v` is defined as a constant that stands for the number `n`.
    pub open spec fn is_number(self, v: SsaVarId, n: int) -> bool {
        self.const_of(v) matches Some(c) && c.number() == Some(n)
    }

    /// `v` is defined as the null constant.
    pub open spec fn is_null(self, v: SsaVarId) -> bool {
        self.const_of(v) == Some(ConstValue::Null)
    }

    /// `v` is defined by an operation whose result is never null.
    pub open spec fn is_non_null(self, v: SsaVarId) -> bool {
        match self.def_op(v) {
            Some(Op::NewObj { .. }) => true,
            Some(Op::NewArr { .. }) => true,
            Some(Op::Box { .. }) => true,
            Some(Op::LoadToken { .. }) => true,
            _ => false,
        }
    }

    /// The range that the definition of `v` gives it: a constant, an array length, or a square that
    /// did not overflow.
    pub open spec fn range_of(self, v: SsaVarId) -> Option<ValueRange> {
        match self.def_op(v) {
            Some(Op::MulOvf { left, right, unsigned, .. }) => if left == right && !unsigned {
                Some(ValueRange::Interval { min: 0, max: i64::MAX })
            } else {
                None
            },
            Some(Op::ArrayLength { .. }) => Some(
                ValueRange::Interval { min: 0, max: i64::MAX },
            ),
            Some(Op::Const { value, .. }) => match value.signed() {
                Some(n) => Some(ValueRange::Interval { min: n, max: n }),
                None => None,
            },
            _ => None,
        }
    }

    /// `v` is defined as a value that is zero whatever its operands are.
    pub open spec fn is_zero_by_construction(self, v: SsaVarId) -> bool {
        match self.def_op(v) {
            Some(Op::Xor { left, right, .. }) => left == right,
            Some(Op::Sub { left, right, .. }) => left == right,
            Some(Op::Mul { left, right, .. }) => self.is_number(left, 0) || self.is_number(
                right,
                0,
            ),
            Some(Op::And { left, right, .. }) => self.is_number(left, 0) || self.is_number(
                right,
                0,
            ),
            Some(Op::Rem { right, .. }) => self.is_number(right, 1),
            _ => false,
        }
    }

    /// `b` is defined as `a + 1`.
    pub open spec fn is_successor(self, a: SsaVarId, b: SsaVarId) -> bool {
        match self.def_op(b) {
            Some(Op::Add { left, right, .. }) => (left == a && self.is_number(right, 1)) || (right
                == a && self.is_number(left, 1)),
            _ => false,
        }
    }

    /// `b` is defined as `a - (-1)`.
    pub open spec fn is_offset_successor(self, a: SsaVarId, b: SsaVarId) -> bool {
        match self.def_op(b) {
            Some(Op::Sub { left, right, .. }) => left == a && self.is_number(right, -1),
            _ => false,
        }
    }

    /// `b` is defined as `a - 1`.
    pub open spec fn is_predecessor(self, a: SsaVarId, b: SsaVarId) -> bool {
        match self.def_op(b) {
            Some(Op::Sub { left, right, .. }) => left == a && self.is_number(right, 1),
            _ => false,
        }
    }

    /// One of `a` and `b` is defined as the other plus or minus one.
    pub open spec fn are_consecutive(self, a: SsaVarId, b: SsaVarId) -> bool {
        ||| self.is_successor(a, b)
        ||| self.is_successor(b, a)
        ||| self.is_offset_successor(a, b)
        ||| self.is_predecessor(a, b)
        ||| self.is_predecessor(b, a)
    }

    /// `square` is defined as `other * other`.
    pub open spec fn is_square_of(self, square: SsaVarId, other: SsaVarId) -> bool {
        self.def_op(square) matches Some(Op::Mul { left, right, .. }) && left == other && right
            == other
    }

    /// `v` is defined as a value that is even whatever its operands are.
    pub open spec fn is_even_by_construction(self, v: SsaVarId) -> bool {
        match self.def_op(v) {
            Some(Op::Mul { left, right, .. }) => self.are_consecutive(left, right),
            Some(Op::Sub { left, right, .. }) => self.is_square_of(left, right)
                || self.is_square_of(right, left),
            Some(Op::Add { left, right, .. }) => self.is_square_of(left, right)
                || self.is_square_of(right, left),
            _ => false,
        }
    }

    /// `v` is defined as the remainder by two of a value that is even by construction.
    pub open spec fn is_even_remainder(self, v: SsaVarId) -> bool {
        match self.def_op(v) {
            Some(Op::Rem { left, right, .. }) => self.is_number(right, 2)
                && self.is_even_by_construction(left),
            _ => false,
        }
    }

    /// `v == w` holds because one side is zero by construction and the other is zero.
    pub open spec fn is_zero_identity(self, v: SsaVarId, w: SsaVarId) -> bool {
        ||| self.is_zero_by_construction(v) && self.is_number(w, 0)
        ||| self.is_zero_by_construction(w) && self.is_number(v, 0)
        ||| self.is_even_remainder(v) && self.is_number(w, 0)
        ||| self.is_even_remainder(w) && self.is_number(v, 0)
    }

    /// What is known of `left == right`.
    pub open spec fn equality(self, left: SsaVarId, right: SsaVarId, depth: nat) -> PredicateResult
        decreases MAX_PREDICATE_DEPTH + 1 - depth, 0nat,
    {
        if self.is_zero_identity(left, right) {
            PredicateResult::AlwaysTrue
        } else {
            match (self.signed_const(left), self.signed_const(right)) {
                (Some(l), Some(r)) => PredicateResult::of(l == r),
                _ => if (self.is_non_null(left) && self.is_null(right)) || (self.is_non_null(right)
                    && self.is_null(left)) {
                    PredicateResult::AlwaysFalse
                } else {
                    match self.def_op(left) {
                        Some(op) => {
                            let nested = if depth >= MAX_PREDICATE_DEPTH {
                                PredicateResult::Unknown
                            } else {
                                self.predicate(op, depth + 1)
                            };
                            if self.is_number(right, 1) {
                                nested
                            } else if self.is_number(right, 0) {
                                nested.negation()
                            } else {
                                PredicateResult::Unknown
                            }
                        },
                        None => PredicateResult::Unknown,
                    }
                },
            }
        }
    }

    /// The constant that `v` is defined as, as a signed value.
    pub open spec fn signed_const(self, v: SsaVarId) -> Option<i64> {
        match self.const_of(v) {
            Some(c) => c.signed(),
            None => None,
        }
    }

    /// The constant that `v` is defined as, as an unsigned value.
    pub open spec fn unsigned_const(self, v: SsaVarId) -> Option<u64> {
        match self.const_of(v) {
            Some(c) => c.unsigned(),
            None => None,
        }
    }

    /// What constants alone say of `left < right`.
    pub open spec fn constant_less(
        self,
        left: SsaVarId,
        right: SsaVarId,
        unsigned: bool,
    ) -> Option<bool> {
        if unsigned {
            match (self.unsigned_const(left), self.unsigned_const(right)) {
                (Some(l), Some(r)) => Some(l < r),
                _ => None,
            }
        } else {
            match (self.signed_const(left), self.signed_const(right)) {
                (Some(l), Some(r)) => Some(l < r),
                _ => None,
            }
        }
    }

    /// What the ranges of the definitions say of `left < right`. They are ranges of signed numbers,
    /// and say nothing of an unsigned comparison where one of them holds a negative number.
    pub open spec fn range_less(self, left: SsaVarId, right: SsaVarId, unsigned: bool) -> Option<
        bool,
    > {
        match (self.range_of(left), self.range_of(right)) {
            (
                Some(ValueRange::Interval { min: a, max: b }),
                Some(ValueRange::Interval { min: c, max: d }),
            ) => if unsigned && (a < 0 || c < 0) {
                None
            } else if b < c {
                Some(true)
            } else if a >= d {
                Some(false)
            } else {
                None
            },
            _ => None,
        }
    }

    /// What is known of `left < right`.
    pub open spec fn less_than(
        self,
        left: SsaVarId,
        right: SsaVarId,
        unsigned: bool,
    ) -> PredicateResult {
        match self.constant_less(left, right, unsigned) {
            Some(b) => PredicateResult::of(b),
            None => match self.range_less(left, right, unsigned) {
                Some(b) => PredicateResult::of(b),
                None => if unsigned && self.unsigned_const(right) == Some(0u64) {
                    PredicateResult::AlwaysFalse
                } else {
                    PredicateResult::Unknown
                },
            },
        }
    }

    /// What the ranges of the definitions say of `left > right`.
    pub open spec fn range_greater(
        self,
        left: SsaVarId,
        right: SsaVarId,
        unsigned: bool,
    ) -> Option<bool> {
        self.range_less(right, left, unsigned)
    }

    /// What is known of `left > right`.
    pub open spec fn greater_than(
        self,
        left: SsaVarId,
        right: SsaVarId,
        unsigned: bool,
    ) -> PredicateResult {
        match self.constant_less(right, left, unsigned) {
            Some(b) => PredicateResult::of(b),
            None => match self.range_greater(left, right, unsigned) {
                Some(b) => PredicateResult::of(b),
                None => if unsigned && self.unsigned_const(left) == Some(0u64) {
                    PredicateResult::AlwaysFalse
                } else {
                    PredicateResult::Unknown
                },
            },
        }
    }

    /// What is known of the result of an operation, read as a truth value.
    pub open spec fn predicate(self, op: OpView<T>, depth: nat) -> PredicateResult
        decreases MAX_PREDICATE_DEPTH + 1 - depth, 1nat,
    {
        if depth > MAX_PREDICATE_DEPTH {
            PredicateResult::Unknown
        } else {
            match op {
                Op::Ceq { left, right, .. } => if left == right {
                    PredicateResult::AlwaysTrue
                } else {
                    self.equality(left, right, depth)
                },
                Op::Clt { left, right, unsigned, .. } => if left == right {
                    PredicateResult::AlwaysFalse
                } else {
                    self.less_than(left, right, unsigned)
                },
                Op::Cgt { left, right, unsigned, .. } => if left == right {
                    PredicateResult::AlwaysFalse
                } else {
                    self.greater_than(left, right, unsigned)
                },
                _ => PredicateResult::Unknown,
            }
        }
    }
}

/// The definitions of a function, for repeated lookup.
pub struct DefinitionCache<'a, T: Target> {
    pub ssa: &'a SsaFunction<T>,
    pub index: DefUseIndex,
}

impl<'a, T: Target> DefinitionCache<'a, T> {
    /// The index is that of the function.
    pub open spec fn wf(&self) -> bool {
        self.index.describes(self.ssa@)
    }

    /// Builds the cache of a function.
    pub fn build(ssa: &'a SsaFunction<T>) -> (r: Self)
        ensures
            r.wf(),
            r.ssa == ssa,
    {
        DefinitionCache { ssa, index: DefUseIndex::build(ssa) }
    }

    /// Returns the operation that defines `var`.
    pub fn get_definition(&self, var: SsaVarId) -> (r: Option<&'a SsaOp<T>>)
        requires
            self.wf(),
        ensures
            r is Some <==> self.ssa@.def_op(var) is Some,
            r matches Some(op) ==> self.ssa@.def_op(var) == Some(op@),
    {
        self.index.def_op(self.ssa, var)
    }

    /// Returns the constant that `var` is defined as.
    pub fn get_constant(&self, var: SsaVarId) -> (r: Option<ConstValue>)
        requires
            self.wf(),
        ensures
            r == self.ssa@.const_of(var),
    {
        match self.get_definition(var) {
            Some(op) => match op {
                Op::Const { value, .. } => Some(*value),
                _ => None,
            },
            None => None,
        }
    }

    /// Returns whether `var` is defined by an operation whose result is never null.
    pub fn is_non_null(&self, var: SsaVarId) -> (r: bool)
        requires
            self.wf(),
        ensures
            r == self.ssa@.is_non_null(var),
    {
        match self.get_definition(var) {
            Some(op) => match op {
                Op::NewObj { .. } => true,
                Op::NewArr { .. } => true,
                Op::Box { .. } => true,
                Op::LoadToken { .. } => true,
                _ => false,
            },
            None => false,
        }
    }

    /// Returns the range that the definition of `var` gives it.
    pub fn get_range(&self, var: SsaVarId) -> (r: Option<ValueRange>)
        requires
            self.wf(),
        ensures
            r == self.ssa@.range_of(var),
    {
        match self.get_definition(var) {
            Some(op) => match op {
                Op::ArrayLength { .. } => Some(ValueRange::non_negative()),
                Op::MulOvf { left, right, unsigned, .. } => if *left == *right && !*unsigned {
                    Some(ValueRange::non_negative())
                } else {
                    None
                },
                Op::Const { value, .. } => match value.as_i64() {
                    Some(n) => Some(ValueRange::constant(n)),
                    None => None,
                },
                _ => None,
            },
            None => None,
        }
    }
}

/// Opaque predicate detection and removal pass.
pub struct OpaquePredicatePass<T: Target> {
    _target: PhantomData<T>,
}

impl<T: Target> OpaquePredicatePass<T> {
    /// Creates a new opaque predicate pass.
    #[must_use]
    pub fn new() -> Self {
        OpaquePredicatePass { _target: PhantomData }
    }

    /// Returns what is known of the result of an operation.
    pub fn analyze_predicate_with_cache(
        op: &SsaOp<T>,
        cache: &DefinitionCache<'_, T>,
        depth: usize,
    ) -> (r: PredicateResult)
        requires
            cache.wf(),
        ensures
            r == cache.ssa@.predicate(op@, depth as nat),
        decreases MAX_PREDICATE_DEPTH + 1 - depth, 1nat,
    {
        if depth > MAX_PREDICATE_DEPTH {
            return PredicateResult::Unknown;
        }
        match op {
            Op::Ceq { left, right, .. } => {
                if *left == *right {
                    return PredicateResult::AlwaysTrue;
                }
                Self::analyze_equality(*left, *right, cache, depth)
            },
            Op::Clt { left, right, unsigned, .. } => {
                if *left == *right {
                    return PredicateResult::AlwaysFalse;
                }
                Self::analyze_less_than(*left, *right, *unsigned, cache)
            },
            Op::Cgt { left, right, unsigned, .. } => {
                if *left == *right {
                    return PredicateResult::AlwaysFalse;
                }
                Self::analyze_greater_than(*left, *right, *unsigned, cache)
            },
            _ => PredicateResult::Unknown,
        }
    }

    /// Returns what is known of `left == right`.
    pub fn analyze_equality(
        left: SsaVarId,
        right: SsaVarId,
        cache: &DefinitionCache<'_, T>,
        depth: usize,
    ) -> (r: PredicateResult)
        requires
            cache.wf(),
            depth <= MAX_PREDICATE_DEPTH,
        ensures
            r == cache.ssa@.equality(left, right, depth as nat),
        decreases MAX_PREDICATE_DEPTH + 1 - depth, 0nat,
    {
        let right_zero: bool = Self::is_zero_var(right, cache);
        if right_zero && (Self::is_zero_by_construction(left, cache)
            || Self::is_always_even_expression(left, cache)) {
            return PredicateResult::AlwaysTrue;
        }
        if Self::is_zero_var(left, cache) && (Self::is_zero_by_construction(right, cache)
            || Self::is_always_even_expression(right, cache)) {
            return PredicateResult::AlwaysTrue;
        }
        let left_const: Option<i64> = Self::signed_constant(left, cache);
        let right_const: Option<i64> = Self::signed_constant(right, cache);
        if let (Some(l), Some(r)) = (left_const, right_const) {
            return PredicateResult::from_bool(l == r);
        }
        if cache.is_non_null(left) && Self::is_null_var(right, cache) {
            return PredicateResult::AlwaysFalse;
        }
        if cache.is_non_null(right) && Self::is_null_var(left, cache) {
            return PredicateResult::AlwaysFalse;
        }
        if let Some(left_op) = cache.get_definition(left) {
            let left_result: PredicateResult = if depth >= MAX_PREDICATE_DEPTH {
                PredicateResult::Unknown
            } else {
                Self::analyze_predicate_with_cache(left_op, cache, depth + 1)
            };
            if Self::is_one_var(right, cache) {
                return left_result;
            }
            if right_zero {
                return left_result.negate();
            }
        }
        PredicateResult::Unknown
    }

    /// Returns what is known of `left < right`.
    pub fn analyze_less_than(
        left: SsaVarId,
        right: SsaVarId,
        unsigned: bool,
        cache: &DefinitionCache<'_, T>,
    ) -> (r: PredicateResult)
        requires
            cache.wf(),
        ensures
            r == cache.ssa@.less_than(left, right, unsigned),
    {
        let left_const: Option<ConstValue> = cache.get_constant(left);
        let right_const: Option<ConstValue> = cache.get_constant(right);
        if let (Some(lval), Some(rval)) = (left_const, right_const) {
            if unsigned {
                if let (Some(l), Some(r)) = (lval.as_u64(), rval.as_u64()) {
                    return PredicateResult::from_bool(l < r);
                }
            } else if let (Some(l), Some(r)) = (lval.as_i64(), rval.as_i64()) {
                return PredicateResult::from_bool(l < r);
            }
        }
        if let Some(b) = Self::compare_ranges(left, right, unsigned, cache) {
            return PredicateResult::from_bool(b);
        }
        if unsigned {
            if let Some(rval) = right_const {
                if let Some(r) = rval.as_u64() {
                    if r == 0 {
                        return PredicateResult::AlwaysFalse;
                    }
                }
            }
        }
        PredicateResult::Unknown
    }

    /// Returns what is known of `left > right`.
    pub fn analyze_greater_than(
        left: SsaVarId,
        right: SsaVarId,
        unsigned: bool,
        cache: &DefinitionCache<'_, T>,
    ) -> (r: PredicateResult)
        requires
            cache.wf(),
        ensures
            r == cache.ssa@.greater_than(left, right, unsigned),
    {
        let left_const: Option<ConstValue> = cache.get_constant(left);
        let right_const: Option<ConstValue> = cache.get_constant(right);
        if let (Some(lval), Some(rval)) = (left_const, right_const) {
            if unsigned {
                if let (Some(l), Some(r)) = (lval.as_u64(), rval.as_u64()) {
                    return PredicateResult::from_bool(l > r);
                }
            } else if let (Some(l), Some(r)) = (lval.as_i64(), rval.as_i64()) {
                return PredicateResult::from_bool(l > r);
            }
        }
        if let Some(b) = Self::compare_ranges(right, left, unsigned, cache) {
            return PredicateResult::from_bool(b);
        }
        if unsigned {
            if let Some(lval) = left_const {
                if let Some(l) = lval.as_u64() {
                    if l == 0 {
                        return PredicateResult::AlwaysFalse;
                    }
                }
            }
        }
        PredicateResult::Unknown
    }

    /// Returns what the ranges of the definitions say of `left < right`.
    fn compare_ranges(
        left: SsaVarId,
        right: SsaVarId,
        unsigned: bool,
        cache: &DefinitionCache<'_, T>,
    ) -> (r: Option<bool>)
        requires
            cache.wf(),
        ensures
            r == cache.ssa@.range_less(left, right, unsigned),
    {
        match (cache.get_range(left), cache.get_range(right)) {
            (Some(left_range), Some(right_range)) => {
                if unsigned && !(left_range.is_always_non_negative()
                    && right_range.is_always_non_negative()) {
                    return None;
                }
                if let (Some(l_max), Some(r_min)) = (left_range.max(), right_range.min()) {
                    if l_max < r_min {
                        return Some(true);
                    }
                }
                if let (Some(l_min), Some(r_max)) = (left_range.min(), right_range.max()) {
                    if l_min >= r_max {
                        return Some(false);
                    }
                }
                None
            },
            _ => None,
        }
    }

    /// Returns the constant that `var` is defined as, as a signed value.
    fn signed_constant(var: SsaVarId, cache: &DefinitionCache<'_, T>) -> (r: Option<i64>)
        requires
            cache.wf(),
        ensures
            r == cache.ssa@.signed_const(var),
    {
        match cache.get_constant(var) {
            Some(c) => c.as_i64(),
            None => None,
        }
    }

    /// Returns whether `var` is defined as a constant zero.
    fn is_zero_var(var: SsaVarId, cache: &DefinitionCache<'_, T>) -> (r: bool)
        requires
            cache.wf(),
        ensures
            r == cache.ssa@.is_number(var, 0),
    {
        match cache.get_constant(var) {
            Some(c) => c.is_zero(),
            None => false,
        }
    }

    /// Returns whether `var` is defined as a constant one.
    fn is_one_var(var: SsaVarId, cache: &DefinitionCache<'_, T>) -> (r: bool)
        requires
            cache.wf(),
        ensures
            r == cache.ssa@.is_number(var, 1),
    {
        match cache.get_constant(var) {
            Some(c) => c.is_one(),
            None => false,
        }
    }

    /// Returns whether `var` is defined as a constant minus one.
    fn is_minus_one_var(var: SsaVarId, cache: &DefinitionCache<'_, T>) -> (r: bool)
        requires
            cache.wf(),
        ensures
            r == cache.ssa@.is_number(var, -1),
    {
        match cache.get_constant(var) {
            Some(c) => c.is_minus_one(),
            None => false,
        }
    }

    /// Returns whether `var` is defined as the null constant.
    fn is_null_var(var: SsaVarId, cache: &DefinitionCache<'_, T>) -> (r: bool)
        requires
            cache.wf(),
        ensures
            r == cache.ssa@.is_null(var),
    {
        match cache.get_constant(var) {
            Some(c) => c.is_null(),
            None => false,
        }
    }

    /// Returns whether `var` is defined as a value that is zero whatever its operands are.
    fn is_zero_by_construction(var: SsaVarId, cache: &DefinitionCache<'_, T>) -> (r: bool)
        requires
            cache.wf(),
        ensures
            r == cache.ssa@.is_zero_by_construction(var),
    {
        match cache.get_definition(var) {
            Some(op) => match op {
                Op::Xor { left, right, .. } => *left == *right,
                Op::Sub { left, right, .. } => *left == *right,
                Op::Mul { left, right, .. } => Self::is_zero_var(*left, cache) || Self::is_zero_var(
                    *right,
                    cache,
                ),
                Op::And { left, right, .. } => Self::is_zero_var(*left, cache) || Self::is_zero_var(
                    *right,
                    cache,
                ),
                Op::Rem { right, .. } => Self::is_one_var(*right, cache),
                _ => false,
            },
            None => false,
        }
    }

    /// Returns whether `var` is defined as the remainder by two of a value that is always even.
    ///
    /// The product of two consecutive integers is even, and so are `x * x - x` and `x * x + x`.
    fn is_always_even_expression(var: SsaVarId, cache: &DefinitionCache<'_, T>) -> (r: bool)
        requires
            cache.wf(),
        ensures
            r == cache.ssa@.is_even_remainder(var),
    {
        let dividend: SsaVarId = match cache.get_definition(var) {
            Some(op) => match op {
                Op::Rem { left, right, .. } => {
                    let by_two: bool = match cache.get_constant(*right) {
                        Some(c) => match c.as_i64() {
                            Some(n) => n == 2,
                            None => false,
                        },
                        None => false,
                    };
                    if !by_two {
                        return false;
                    }
                    *left
                },
                _ => return false,
            },
            None => return false,
        };
        match cache.get_definition(dividend) {
            Some(op) => match op {
                Op::Mul { left, right, .. } => Self::is_consecutive_pair(*left, *right, cache),
                Op::Sub { left, right, .. } => Self::is_self_square(*left, *right, cache)
                    || Self::is_self_square(*right, *left, cache),
                Op::Add { left, right, .. } => Self::is_self_square(*left, *right, cache)
                    || Self::is_self_square(*right, *left, cache),
                _ => false,
            },
            None => false,
        }
    }

    /// Returns whether `square_var` is defined as `other * other`.
    fn is_self_square(
        square_var: SsaVarId,
        other: SsaVarId,
        cache: &DefinitionCache<'_, T>,
    ) -> (r: bool)
        requires
            cache.wf(),
        ensures
            r == cache.ssa@.is_square_of(square_var, other),
    {
        match cache.get_definition(square_var) {
            Some(op) => match op {
                Op::Mul { left, right, .. } => *left == other && *right == other,
                _ => false,
            },
            None => false,
        }
    }

    /// Returns whether `b` is defined as `a + 1`.
    fn is_incremented(a: SsaVarId, b: SsaVarId, cache: &DefinitionCache<'_, T>) -> (r: bool)
        requires
            cache.wf(),
        ensures
            r == cache.ssa@.is_successor(a, b),
    {
        match cache.get_definition(b) {
            Some(op) => match op {
                Op::Add { left, right, .. } => (*left == a && Self::is_one_var(*right, cache)) || (
                *right == a && Self::is_one_var(*left, cache)),
                _ => false,
            },
            None => false,
        }
    }

    /// Returns whether `b` is defined as `a - 1`.
    fn is_decremented(a: SsaVarId, b: SsaVarId, cache: &DefinitionCache<'_, T>) -> (r: bool)
        requires
            cache.wf(),
        ensures
            r == cache.ssa@.is_predecessor(a, b),
    {
        match cache.get_definition(b) {
            Some(op) => match op {
                Op::Sub { left, right, .. } => *left == a && Self::is_one_var(*right, cache),
                _ => false,
            },
            None => false,
        }
    }

    /// Returns whether one of two variables is defined as the other plus or minus one.
    fn is_consecutive_pair(a: SsaVarId, b: SsaVarId, cache: &DefinitionCache<'_, T>) -> (r: bool)
        requires
            cache.wf(),
        ensures
            r == cache.ssa@.are_consecutive(a, b),
    {
        if Self::is_incremented(a, b, cache) || Self::is_incremented(b, a, cache) {
            return true;
        }
        if Self::is_decremented(a, b, cache) || Self::is_decremented(b, a, cache) {
            return true;
        }
        match cache.get_definition(b) {
            Some(op) => match op {
                Op::Sub { left, right, .. } => *left == a && Self::is_minus_one_var(*right, cache),
                _ => false,
            },
            None => false,
        }
    }
}

impl<T: Target> Default for OpaquePredicatePass<T> {
    fn default() -> Self {
        OpaquePredicatePass::new()
    }
}

impl<T: Target> SsaView<T> {
    /// What is known of the result of an operation by what it computes.
    pub open spec fn branch_op(self, op: OpView<T>) -> PredicateResult {
        match op {
            Op::Xor { left, right, .. } => if left == right {
                PredicateResult::AlwaysFalse
            } else {
                PredicateResult::Unknown
            },
            Op::Sub { left, right, .. } => if left == right {
                PredicateResult::AlwaysFalse
            } else {
                PredicateResult::Unknown
            },
            Op::And { left, right, .. } => if self.is_number(left, 0) || self.is_number(right, 0) {
                PredicateResult::AlwaysFalse
            } else {
                PredicateResult::Unknown
            },
            Op::Mul { left, right, .. } => if self.is_number(left, 0) || self.is_number(right, 0) {
                PredicateResult::AlwaysFalse
            } else {
                PredicateResult::Unknown
            },
            Op::Or { left, right, .. } => if self.is_number(left, -1) || self.is_number(right, -1) {
                PredicateResult::AlwaysTrue
            } else {
                PredicateResult::Unknown
            },
            Op::Const { value, .. } => if value.number() == Some(0int) || value
                == ConstValue::Null {
                PredicateResult::AlwaysFalse
            } else if value.signed() is Some || value.boolean() is Some {
                PredicateResult::AlwaysTrue
            } else {
                PredicateResult::Unknown
            },
            _ => PredicateResult::Unknown,
        }
    }

    /// What is known of a branch on `v`, looking through at most `fuel` definitions.
    pub open spec fn branch_on(self, v: SsaVarId, fuel: nat) -> PredicateResult
        decreases fuel,
    {
        if fuel == 0 {
            PredicateResult::Unknown
        } else {
            match self.def_op(v) {
                Some(op) => {
                    let direct = self.predicate(op, 0);
                    if direct != PredicateResult::Unknown {
                        direct
                    } else {
                        match op {
                            Op::Copy { src, .. } => self.branch_on(src, (fuel - 1) as nat),
                            _ => self.branch_op(op),
                        }
                    }
                },
                None => PredicateResult::Unknown,
            }
        }
    }

    /// What is known of a branch on `v`.
    ///
    /// A chain of copies through more definitions than there are variables repeats one, and a
    /// chain that repeats a variable says nothing.
    pub open spec fn branch(self, v: SsaVarId) -> PredicateResult {
        self.branch_on(v, self.vars.len())
    }

    /// The comparison that says the same as `op` with less, and why it does.
    pub open spec fn simplification(self, op: OpView<T>) -> Option<(OpView<T>, Seq<char>)> {
        match op {
            Op::Ceq { dest, left, right } => match self.zero_test(dest, left, right) {
                Some(simpler) => Some(simpler),
                None => self.one_test(dest, left, right),
            },
            Op::Clt { dest, left, right, unsigned } => match self.signed_difference(
                left,
                right,
                unsigned,
            ) {
                Some((x, y)) => Some(
                    (
                        Op::Clt { dest, left: x, right: y, unsigned },
                        "(x - y) < 0 simplified to x < y"@,
                    ),
                ),
                None => None,
            },
            Op::Cgt { dest, left, right, unsigned } => match self.signed_difference(
                left,
                right,
                unsigned,
            ) {
                Some((x, y)) => Some(
                    (
                        Op::Cgt { dest, left: x, right: y, unsigned },
                        "(x - y) > 0 simplified to x > y"@,
                    ),
                ),
                None => None,
            },
            _ => None,
        }
    }

    /// The variable that is compared with a constant `n`.
    pub open spec fn tested_against(self, left: SsaVarId, right: SsaVarId, n: int) -> Option<
        SsaVarId,
    > {
        if self.is_number(right, n) {
            Some(left)
        } else if self.is_number(left, n) {
            Some(right)
        } else {
            None
        }
    }

    /// A test for zero of a difference or an exclusive disjunction compares its operands.
    pub open spec fn zero_test(self, dest: SsaVarId, left: SsaVarId, right: SsaVarId) -> Option<
        (OpView<T>, Seq<char>),
    > {
        match self.tested_against(left, right, 0) {
            Some(v) => match self.def_op(v) {
                Some(Op::Sub { left: x, right: y, .. }) => if x != y {
                    Some(
                        (
                            Op::Ceq { dest, left: x, right: y },
                            "(x - y) == 0 simplified to x == y"@,
                        ),
                    )
                } else {
                    None
                },
                Some(Op::Xor { left: x, right: y, .. }) => if x != y {
                    Some(
                        (
                            Op::Ceq { dest, left: x, right: y },
                            "(x ^ y) == 0 simplified to x == y"@,
                        ),
                    )
                } else {
                    None
                },
                _ => None,
            },
            None => None,
        }
    }

    /// A test for one of a comparison is the comparison.
    pub open spec fn one_test(self, dest: SsaVarId, left: SsaVarId, right: SsaVarId) -> Option<
        (OpView<T>, Seq<char>),
    > {
        match self.tested_against(left, right, 1) {
            Some(v) => if self.is_comparison(v) {
                Some((Op::Copy { dest, src: v }, "(cmp) == 1 simplified to cmp"@))
            } else {
                None
            },
            None => None,
        }
    }

    /// `v` is defined as the result of a comparison.
    pub open spec fn is_comparison(self, v: SsaVarId) -> bool {
        match self.def_op(v) {
            Some(Op::Ceq { .. }) => true,
            Some(Op::Clt { .. }) => true,
            Some(Op::Cgt { .. }) => true,
            _ => false,
        }
    }

    /// The operands of a difference whose sign a signed comparison with zero tests.
    pub open spec fn signed_difference(
        self,
        left: SsaVarId,
        right: SsaVarId,
        unsigned: bool,
    ) -> Option<(SsaVarId, SsaVarId)> {
        if unsigned || !self.is_number(right, 0) {
            None
        } else {
            match self.def_op(left) {
                Some(Op::Sub { left: x, right: y, .. }) => if x != y {
                    Some((x, y))
                } else {
                    None
                },
                _ => None,
            }
        }
    }

    /// Every operand of the phi node is the constant `c`, except that an operand that no
    /// instruction defines may repeat the first one; and some operand is `c`.
    pub open spec fn phi_agrees(self, phi: PhiView, c: ConstValue) -> bool {
        &&& forall|i: int|
            0 <= i < phi.operands.len() ==> self.operand_agrees(phi, #[trigger] phi.operands[i], c)
        &&& exists|i: int|
            0 <= i < phi.operands.len() && self.const_of((#[trigger] phi.operands[i]).value)
                == Some(c)
    }

    /// The operand is the constant `c`, or repeats the first one without a definition.
    pub open spec fn operand_agrees(
        self,
        phi: PhiView,
        operand: PhiOperand,
        c: ConstValue,
    ) -> bool {
        match self.def_op(operand.value) {
            Some(Op::Const { value, .. }) => value == c,
            Some(_) => false,
            None => operand.value == phi.operands[0].value,
        }
    }

    /// The constant that all operands of the phi node agree on.
    pub open spec fn phi_constant(self, phi: PhiView) -> Option<ConstValue> {
        if exists|c: ConstValue| self.phi_agrees(phi, c) {
            Some(choose|c: ConstValue| self.phi_agrees(phi, c))
        } else {
            None
        }
    }

    /// The constants of the first `n` phi nodes by result, later ones over earlier ones.
    pub open spec fn phi_constants_among(
        self,
        before: Map<usize, ConstValue>,
        phis: Seq<PhiView>,
        n: nat,
    ) -> Map<usize, ConstValue>
        decreases n,
    {
        if n == 0 {
            before
        } else {
            let m = self.phi_constants_among(before, phis, (n - 1) as nat);
            match self.phi_constant(phis[n - 1]) {
                Some(c) => m.insert(phis[n - 1].result.0, c),
                None => m,
            }
        }
    }

    /// The constants of the phi nodes of the first `n` blocks by result.
    pub open spec fn phi_constants(self, n: nat) -> Map<usize, ConstValue>
        decreases n,
    {
        if n == 0 {
            Map::empty()
        } else {
            let phis = self.blocks[n - 1].phis;
            self.phi_constants_among(self.phi_constants((n - 1) as nat), phis, phis.len())
        }
    }
}

impl<T: Target> OpaquePredicatePass<T> {
    /// Returns what is known of a branch on `condition`.
    pub fn analyze_branch(condition: SsaVarId, cache: &DefinitionCache<'_, T>) -> (r:
        PredicateResult)
        requires
            cache.wf(),
        ensures
            r == cache.ssa@.branch(condition),
    {
        let mut current: SsaVarId = condition;
        let mut fuel: usize = cache.ssa.var_id_capacity();
        while fuel > 0
            invariant
                cache.wf(),
                cache.ssa@.branch(condition) == cache.ssa@.branch_on(current, fuel as nat),
            decreases fuel,
        {
            let op: &SsaOp<T> = match cache.get_definition(current) {
                Some(op) => op,
                None => return PredicateResult::Unknown,
            };
            let direct: PredicateResult = Self::analyze_predicate_with_cache(op, cache, 0);
            if direct != PredicateResult::Unknown {
                return direct;
            }
            match op {
                Op::Copy { src, .. } => {
                    current = *src;
                    fuel = fuel - 1;
                },
                _ => {
                    return Self::analyze_branch_op(op, cache);
                },
            }
        }
        PredicateResult::Unknown
    }

    /// Returns what is known of the result of an operation by what it computes.
    pub fn analyze_branch_op(op: &SsaOp<T>, cache: &DefinitionCache<'_, T>) -> (r: PredicateResult)
        requires
            cache.wf(),
        ensures
            r == cache.ssa@.branch_op(op@),
    {
        match op {
            Op::Xor { left, right, .. } => if *left == *right {
                PredicateResult::AlwaysFalse
            } else {
                PredicateResult::Unknown
            },
            Op::Sub { left, right, .. } => if *left == *right {
                PredicateResult::AlwaysFalse
            } else {
                PredicateResult::Unknown
            },
            Op::And { left, right, .. } => if Self::is_zero_var(*left, cache) || Self::is_zero_var(
                *right,
                cache,
            ) {
                PredicateResult::AlwaysFalse
            } else {
                PredicateResult::Unknown
            },
            Op::Mul { left, right, .. } => if Self::is_zero_var(*left, cache) || Self::is_zero_var(
                *right,
                cache,
            ) {
                PredicateResult::AlwaysFalse
            } else {
                PredicateResult::Unknown
            },
            Op::Or { left, right, .. } => if Self::is_minus_one_var(*left, cache)
                || Self::is_minus_one_var(*right, cache) {
                PredicateResult::AlwaysTrue
            } else {
                PredicateResult::Unknown
            },
            Op::Const { value, .. } => if value.is_zero() || value.is_null() {
                PredicateResult::AlwaysFalse
            } else if value.as_i64().is_some() || value.as_bool().is_some() {
                PredicateResult::AlwaysTrue
            } else {
                PredicateResult::Unknown
            },
            _ => PredicateResult::Unknown,
        }
    }

    /// Returns the comparison that says the same as `op` with less, and why it does.
    pub fn analyze_comparison_simplification(op: &SsaOp<T>, cache: &DefinitionCache<'_, T>) -> (r:
        Option<ComparisonSimplification<T>>)
        requires
            cache.wf(),
        ensures
            ComparisonSimplification::seen(r) == cache.ssa@.simplification(op@),
    {
        match op {
            Op::Ceq { dest, left, right } => Self::analyze_ceq_simplification(
                *dest,
                *left,
                *right,
                cache,
            ),
            Op::Clt { dest, left, right, unsigned } => {
                match Self::find_signed_difference(*left, *right, *unsigned, cache) {
                    Some((x, y)) => Some(
                        ComparisonSimplification {
                            new_op: Op::Clt { dest: *dest, left: x, right: y, unsigned: *unsigned },
                            reason: "(x - y) < 0 simplified to x < y",
                        },
                    ),
                    None => None,
                }
            },
            Op::Cgt { dest, left, right, unsigned } => {
                match Self::find_signed_difference(*left, *right, *unsigned, cache) {
                    Some((x, y)) => Some(
                        ComparisonSimplification {
                            new_op: Op::Cgt { dest: *dest, left: x, right: y, unsigned: *unsigned },
                            reason: "(x - y) > 0 simplified to x > y",
                        },
                    ),
                    None => None,
                }
            },
            _ => None,
        }
    }

    /// Returns what an equality simplifies to.
    fn analyze_ceq_simplification(
        dest: SsaVarId,
        left: SsaVarId,
        right: SsaVarId,
        cache: &DefinitionCache<'_, T>,
    ) -> (r: Option<ComparisonSimplification<T>>)
        requires
            cache.wf(),
        ensures
            ComparisonSimplification::seen(r) == cache.ssa@.simplification(
                Op::Ceq { dest, left, right },
            ),
    {
        let against_zero: Option<SsaVarId> = if Self::is_zero_var(right, cache) {
            Some(left)
        } else if Self::is_zero_var(left, cache) {
            Some(right)
        } else {
            None
        };
        if let Some(v) = against_zero {
            if let Some(def) = cache.get_definition(v) {
                match def {
                    Op::Sub { left: x, right: y, .. } => {
                        if *x != *y {
                            return Some(
                                ComparisonSimplification {
                                    new_op: Op::Ceq { dest, left: *x, right: *y },
                                    reason: "(x - y) == 0 simplified to x == y",
                                },
                            );
                        }
                    },
                    Op::Xor { left: x, right: y, .. } => {
                        if *x != *y {
                            return Some(
                                ComparisonSimplification {
                                    new_op: Op::Ceq { dest, left: *x, right: *y },
                                    reason: "(x ^ y) == 0 simplified to x == y",
                                },
                            );
                        }
                    },
                    _ => {},
                }
            }
        }
        let against_one: Option<SsaVarId> = if Self::is_one_var(right, cache) {
            Some(left)
        } else if Self::is_one_var(left, cache) {
            Some(right)
        } else {
            None
        };
        if let Some(v) = against_one {
            if let Some(def) = cache.get_definition(v) {
                let comparison: bool = match def {
                    Op::Ceq { .. } => true,
                    Op::Clt { .. } => true,
                    Op::Cgt { .. } => true,
                    _ => false,
                };
                if comparison {
                    return Some(
                        ComparisonSimplification {
                            new_op: Op::Copy { dest, src: v },
                            reason: "(cmp) == 1 simplified to cmp",
                        },
                    );
                }
            }
        }
        None
    }

    /// Returns the operands of a difference whose sign a signed comparison with zero tests.
    fn find_signed_difference(
        left: SsaVarId,
        right: SsaVarId,
        unsigned: bool,
        cache: &DefinitionCache<'_, T>,
    ) -> (r: Option<(SsaVarId, SsaVarId)>)
        requires
            cache.wf(),
        ensures
            r == cache.ssa@.signed_difference(left, right, unsigned),
    {
        if unsigned || !Self::is_zero_var(right, cache) {
            return None;
        }
        match cache.get_definition(left) {
            Some(op) => match op {
                Op::Sub { left: x, right: y, .. } => if *x != *y {
                    Some((*x, *y))
                } else {
                    None
                },
                _ => None,
            },
            None => None,
        }
    }

    /// Returns the constant that all operands of a phi node agree on.
    fn find_phi_constant(phi: &PhiNode, cache: &DefinitionCache<'_, T>) -> (r: Option<ConstValue>)
        requires
            cache.wf(),
        ensures
            r == cache.ssa@.phi_constant(phi@),
    {
        if phi.operands.len() == 0 {
            assert forall|c: ConstValue| !cache.ssa@.phi_agrees(phi@, c) by {}
            return None;
        }
        let first: SsaVarId = phi.operands[0].value;
        let mut found: Option<ConstValue> = None;
        let mut i: usize = 0;
        while i < phi.operands.len()
            invariant
                cache.wf(),
                i <= phi.operands@.len(),
                0 < phi.operands@.len(),
                first == phi@.operands[0].value,
                match found {
                    Some(c) => (forall|j: int|
                        0 <= j < i ==> cache.ssa@.operand_agrees(
                            phi@,
                            #[trigger] phi@.operands[j],
                            c,
                        )) && (exists|j: int|
                        0 <= j < i && cache.ssa@.const_of((#[trigger] phi@.operands[j]).value)
                            == Some(c)),
                    None => forall|j: int|
                        0 <= j < i ==> cache.ssa@.def_op((#[trigger] phi@.operands[j]).value)
                            is None && phi@.operands[j].value == first,
                },
            decreases phi.operands@.len() - i,
        {
            let var: SsaVarId = phi.operands[i].value;
            assert(var == phi@.operands[i as int].value);
            let ghost before = found;
            match cache.get_definition(var) {
                Some(op) => match op {
                    Op::Const { value, .. } => {
                        assert(cache.ssa@.const_of(var) == Some(*value));
                        match found {
                            None => {
                                found = Some(*value);
                            },
                            Some(c) => {
                                if c != *value {
                                    proof {
                                        lemma_phi_disagrees(cache.ssa@, phi@, i as int, c);
                                    }
                                    return None;
                                }
                            },
                        }
                    },
                    _ => {
                        assert forall|c: ConstValue| !cache.ssa@.phi_agrees(phi@, c) by {
                            assert(!cache.ssa@.operand_agrees(phi@, phi@.operands[i as int], c));
                        }
                        return None;
                    },
                },
                None => {
                    if var != first {
                        assert forall|c: ConstValue| !cache.ssa@.phi_agrees(phi@, c) by {
                            assert(!cache.ssa@.operand_agrees(phi@, phi@.operands[i as int], c));
                        }
                        return None;
                    }
                },
            }
            i = i + 1;
            proof {
                if let Some(c) = found {
                    assert(cache.ssa@.operand_agrees(phi@, phi@.operands[i - 1], c));
                    if before is None {
                        assert(cache.ssa@.const_of(phi@.operands[i - 1].value) == Some(c));
                    }
                }
            }
        }
        proof {
            match found {
                Some(c) => {
                    assert(cache.ssa@.phi_agrees(phi@, c));
                    lemma_phi_constant_unique(cache.ssa@, phi@, c);
                },
                None => {
                    assert forall|c: ConstValue| !cache.ssa@.phi_agrees(phi@, c) by {
                        if cache.ssa@.phi_agrees(phi@, c) {
                            let j = choose|j: int|
                                0 <= j < phi@.operands.len() && cache.ssa@.const_of(
                                    (#[trigger] phi@.operands[j]).value,
                                ) == Some(c);
                            assert(cache.ssa@.def_op(phi@.operands[j].value) is None);
                        }
                    }
                },
            }
        }
        found
    }

    /// Returns, by result, the constant of each phi node whose operands all agree on one.
    pub fn analyze_phi_constants(ssa: &SsaFunction<T>) -> (r: BTreeMap<usize, ConstValue>)
        ensures
            r@ == ssa@.phi_constants(ssa@.blocks.len()),
    {
        broadcast use vstd::std_specs::btree::group_btree_axioms;

        let cache: DefinitionCache<'_, T> = DefinitionCache::build(ssa);
        let mut r: BTreeMap<usize, ConstValue> = BTreeMap::new();
        let mut b: usize = 0;
        while b < ssa.blocks.len()
            invariant
                cache.wf(),
                cache.ssa == ssa,
                b <= ssa.blocks@.len(),
                r@ == ssa@.phi_constants(b as nat),
            decreases ssa.blocks@.len() - b,
        {
            let ghost before = r@;
            let ghost phis = ssa@.blocks[b as int].phis;
            let mut p: usize = 0;
            while p < ssa.blocks[b].phis.len()
                invariant
                    cache.wf(),
                    cache.ssa == ssa,
                    b < ssa.blocks@.len(),
                    phis == ssa@.blocks[b as int].phis,
                    p <= phis.len(),
                    r@ == ssa@.phi_constants_among(before, phis, p as nat),
                decreases phis.len() - p,
            {
                let phi: &PhiNode = &ssa.blocks[b].phis[p];
                assert(phi@ == phis[p as int]);
                if let Some(c) = Self::find_phi_constant(phi, &cache) {
                    r.insert(phi.result.0, c);
                }
                p = p + 1;
            }
            b = b + 1;
        }
        r
    }
}

/// A simpler comparison, and why it says the same.
pub struct ComparisonSimplification<T: Target> {
    pub new_op: SsaOp<T>,
    pub reason: &'static str,
}

impl<T: Target> ComparisonSimplification<T> {
    /// The simplification as a mathematical value.
    pub open spec fn seen(s: Option<Self>) -> Option<(OpView<T>, Seq<char>)> {
        match s {
            Some(x) => Some((x.new_op@, x.reason@)),
            None => None,
        }
    }
}

proof fn lemma_phi_disagrees<T: Target>(
    ssa: SsaView<T>,
    phi: PhiView,
    i: int,
    found: ConstValue,
)
    requires
        0 <= i < phi.operands.len(),
        exists|j: int|
            0 <= j < i && ssa.const_of((#[trigger] phi.operands[j]).value) == Some(found),
        ssa.const_of(phi.operands[i].value) matches Some(c) && c != found,
    ensures
        ssa.phi_constant(phi) is None,
{
    let j = choose|j: int|
        0 <= j < i && ssa.const_of((#[trigger] phi.operands[j]).value) == Some(found);
    assert forall|c: ConstValue| !ssa.phi_agrees(phi, c) by {
        if ssa.phi_agrees(phi, c) {
            assert(ssa.operand_agrees(phi, phi.operands[j], c));
            assert(ssa.operand_agrees(phi, phi.operands[i], c));
        }
    }
}

proof fn lemma_phi_constant_unique<T: Target>(ssa: SsaView<T>, phi: PhiView, c: ConstValue)
    requires
        ssa.phi_agrees(phi, c),
    ensures
        ssa.phi_constant(phi) == Some(c),
{
    let d = choose|d: ConstValue| ssa.phi_agrees(phi, d);
    let j = choose|j: int|
        0 <= j < phi.operands.len() && ssa.const_of((#[trigger] phi.operands[j]).value) == Some(c);
    assert(ssa.operand_agrees(phi, phi.operands[j], d));
}

impl<T: Target> SsaView<T> {
    /// The truth value of a branch on `v`, where it is known: by a phi constant, by the
    /// definitions, or by evaluating the blocks in order.
    pub open spec fn branch_truth(self, v: SsaVarId, ptr_size: PointerSize) -> Option<bool> {
        let phis = self.phi_constants(self.blocks.len());
        if phis.contains_key(v.0) {
            Some(is_true_constant(phis[v.0]))
        } else {
            match self.branch(v).truth() {
                Some(truth) => Some(truth),
                None => match evaluator::known(
                    evaluator::after_blocks(
                        evaluator::blank(self.vars.len()),
                        self.blocks,
                        ptr_size,
                        self.blocks.len(),
                    ),
                    v,
                ) {
                    Some(c) => Some(c.number() != Some(0int)),
                    None => None,
                },
            }
        }
    }

    /// The truth value of a branch on `v` at the end of block `b`, where it is known: wherever the
    /// branch stands, or by the branches on every way to it.
    pub open spec fn known_truth(self, v: SsaVarId, ptr_size: PointerSize, b: int) -> Option<bool> {
        match self.branch_truth(v, ptr_size) {
            Some(truth) => Some(truth),
            None => self.known_on_the_way(b as usize, v),
        }
    }

    /// Where the branch that ends block `b` always goes, and on which truth value.
    pub open spec fn decided(self, ptr_size: PointerSize, b: int) -> Option<(usize, bool)> {
        match self.blocks[b].terminator() {
            Some(Op::Branch { condition, true_target, false_target }) => match self.known_truth(
                condition,
                ptr_size,
                b,
            ) {
                Some(truth) => Some(
                    (
                        if truth {
                            true_target
                        } else {
                            false_target
                        },
                        truth,
                    ),
                ),
                None => None,
            },
            _ => None,
        }
    }

    /// Some branch always goes to one of its targets.
    pub open spec fn has_decided(self, ptr_size: PointerSize) -> bool {
        exists|b: int| 0 <= b < self.blocks.len() && #[trigger] self.decided(ptr_size, b) is Some
    }

    /// The block with a branch that always goes to one target made unconditional.
    pub open spec fn decided_block(self, ptr_size: PointerSize, b: int) -> BlockView<T> {
        let block = self.blocks[b];
        match self.decided(ptr_size, b) {
            Some((target, _)) => block.with_op(block.instrs.len() - 1, Op::Jump { target }),
            None => block,
        }
    }

    /// The function with every branch that always goes to one target made unconditional.
    pub open spec fn with_branches_decided(self, ptr_size: PointerSize) -> SsaView<T> {
        SsaView {
            blocks: Seq::new(self.blocks.len(), |b: int| self.decided_block(ptr_size, b)),
            ..self
        }
    }

    /// The events of the branches that always go to one target.
    pub open spec fn branch_events(
        self,
        method: T::MethodRef,
        ptr_size: PointerSize,
    ) -> spec_fn(int) -> Seq<EventView<T>> {
        |b: int|
            match self.decided(ptr_size, b) {
                Some((target, truth)) => seq![
                    EventView::at(
                        EventKind::OpaquePredicateRemoved,
                        method,
                        b,
                        "removed opaque predicate (always "@ + text::bool_name(truth) + ")"@,
                    ),
                    EventView::at(
                        EventKind::BranchSimplified,
                        method,
                        b,
                        "simplified to unconditional branch to "@ + text::decimal(target as nat),
                    ),
                ],
                None => Seq::empty(),
            }
    }

    /// The variable and the truth value that a comparison always gives it.
    pub open spec fn folded(self, op: OpView<T>) -> Option<(SsaVarId, bool)> {
        match (self.predicate(op, 0).truth(), op.result()) {
            (Some(truth), Some(dest)) => Some((dest, truth)),
            _ => None,
        }
    }

    /// The operation in place of `op`: a truth constant, or a simpler comparison, or `op`.
    pub open spec fn rewritten(self, op: OpView<T>) -> OpView<T> {
        match self.folded(op) {
            Some((dest, truth)) => Op::Const {
                dest,
                value: if truth {
                    ConstValue::True
                } else {
                    ConstValue::False
                },
            },
            None => match self.simplification(op) {
                Some((new_op, _)) => new_op,
                None => op,
            },
        }
    }

    /// The constant that replaces a phi node.
    pub open spec fn replaced_phi(self, phi: PhiView) -> Option<ConstValue> {
        let phis = self.phi_constants(self.blocks.len());
        if phis.contains_key(phi.result.0) {
            Some(phis[phi.result.0])
        } else {
            None
        }
    }

    /// The constants that replace the first `n` phi nodes, the last one first.
    pub open spec fn phi_consts(self, phis: Seq<PhiView>, n: nat) -> Seq<OpView<T>>
        decreases n,
    {
        if n == 0 {
            Seq::empty()
        } else {
            let before = self.phi_consts(phis, (n - 1) as nat);
            match self.replaced_phi(phis[n - 1]) {
                Some(value) => seq![Op::Const { dest: phis[n - 1].result, value }] + before,
                None => before,
            }
        }
    }

    /// The phi nodes among the first `n` that no constant replaces.
    pub open spec fn kept_phis(self, phis: Seq<PhiView>, n: nat) -> Seq<PhiView>
        decreases n,
    {
        if n == 0 {
            Seq::empty()
        } else {
            let before = self.kept_phis(phis, (n - 1) as nat);
            match self.replaced_phi(phis[n - 1]) {
                Some(_) => before,
                None => before.push(phis[n - 1]),
            }
        }
    }

    /// The block with its comparisons rewritten and its constant phi nodes replaced.
    pub open spec fn folded_block(self, block: BlockView<T>) -> BlockView<T> {
        BlockView {
            id: block.id,
            phis: self.kept_phis(block.phis, block.phis.len()),
            instrs: self.phi_consts(block.phis, block.phis.len()) + block.instrs.map_values(
                |op: OpView<T>| self.rewritten(op),
            ),
        }
    }

    /// The function with its comparisons rewritten and its constant phi nodes replaced.
    pub open spec fn with_comparisons_folded(self) -> SsaView<T> {
        SsaView {
            blocks: self.blocks.map_values(|block: BlockView<T>| self.folded_block(block)),
            ..self
        }
    }

    /// The event of the instruction at `i` of block `b`, where it becomes a truth constant.
    pub open spec fn fold_event(self, method: T::MethodRef, b: int) -> spec_fn(int) -> Seq<
        EventView<T>,
    > {
        |i: int|
            match self.folded(self.blocks[b].instrs[i]) {
                Some((_, truth)) => seq![
                    EventView::at(
                        EventKind::ConstantFolded,
                        method,
                        i,
                        "opaque predicate → "@ + text::bool_name(truth),
                    ),
                ],
                None => Seq::empty(),
            }
    }

    /// The event of the instruction at `i` of block `b`, where it becomes a simpler comparison.
    pub open spec fn simplify_event(self, method: T::MethodRef, b: int) -> spec_fn(int) -> Seq<
        EventView<T>,
    > {
        |i: int|
            {
                let op = self.blocks[b].instrs[i];
                match (self.folded(op), self.simplification(op)) {
                    (None, Some((_, reason))) => seq![
                        EventView::at(EventKind::ConstantFolded, method, i, reason),
                    ],
                    _ => Seq::empty(),
                }
            }
    }

    /// The event of the phi node at `p` of block `b`, where a constant replaces it.
    pub open spec fn phi_event(self, method: T::MethodRef, b: int) -> spec_fn(int) -> Seq<
        EventView<T>,
    > {
        |p: int|
            match self.replaced_phi(self.blocks[b].phis[p]) {
                Some(c) => seq![
                    EventView::at(
                        EventKind::ConstantFolded,
                        method,
                        b,
                        "phi with constant operands → "@ + text::const_debug(c),
                    ),
                ],
                None => Seq::empty(),
            }
    }

    /// The events of the truth constants, block by block.
    pub open spec fn fold_events(self, method: T::MethodRef) -> spec_fn(int) -> Seq<EventView<T>> {
        |b: int| seqs::flat(self.fold_event(method, b), self.blocks[b].instrs.len())
    }

    /// The events of the simpler comparisons, block by block.
    pub open spec fn simplify_events(self, method: T::MethodRef) -> spec_fn(int) -> Seq<
        EventView<T>,
    > {
        |b: int| seqs::flat(self.simplify_event(method, b), self.blocks[b].instrs.len())
    }

    /// The events of the replaced phi nodes, block by block.
    pub open spec fn phi_events(self, method: T::MethodRef) -> spec_fn(int) -> Seq<EventView<T>> {
        |b: int| seqs::flat(self.phi_event(method, b), self.blocks[b].phis.len())
    }

    /// What the pass makes of the function.
    ///
    /// Branches that always go to one target are made unconditional, and nothing else is done
    /// where there are any; otherwise comparisons are rewritten and constant phi nodes replaced.
    /// A result that is not well-formed is given up. Replacing phi nodes alone does not count as
    /// a change of structure.
    pub open spec fn without_opaque_predicates(
        self,
        method: T::MethodRef,
        ptr_size: PointerSize,
    ) -> Outcome<T> {
        let n = self.blocks.len();
        if self.has_decided(ptr_size) {
            let next = self.with_branches_decided(ptr_size);
            let fine = next.repaired().well_formed();
            Outcome {
                ssa: next.committed(self),
                events: if fine {
                    seqs::flat(self.branch_events(method, ptr_size), n)
                } else {
                    Seq::empty()
                },
                changed: fine,
            }
        } else {
            let folds = seqs::flat(self.fold_events(method), n);
            let simplifications = seqs::flat(self.simplify_events(method), n);
            let phis = seqs::flat(self.phi_events(method), n);
            if (folds + simplifications + phis).len() == 0 {
                self.untouched()
            } else {
                let next = self.with_comparisons_folded();
                let fine = next.repaired().well_formed();
                Outcome {
                    ssa: next.committed(self),
                    events: if fine {
                        folds + simplifications + phis
                    } else {
                        Seq::empty()
                    },
                    changed: fine && (folds + simplifications).len() > 0,
                }
            }
        }
    }
}

/// A constant condition holds where it is `true` or a non-zero number.
pub open spec fn is_true_constant(c: ConstValue) -> bool {
    c.boolean() == Some(true) || (c.signed() matches Some(v) && v != 0)
}

/// Computes [`is_true_constant`].
fn constant_holds(c: ConstValue) -> (r: bool)
    ensures
        r == is_true_constant(c),
{
    let as_bool: bool = match c.as_bool() {
        Some(b) => b,
        None => false,
    };
    let as_number: bool = match c.as_i64() {
        Some(v) => v != 0,
        None => false,
    };
    as_bool || as_number
}

impl<T: Target> OpaquePredicatePass<T> {
    /// Evaluates all blocks in order.
    fn evaluate_all(ssa: &SsaFunction<T>, ptr_size: PointerSize) -> (r: SsaEvaluator)
        ensures
            r.env@ == evaluator::after_blocks(
                evaluator::blank(ssa@.vars.len()),
                ssa@.blocks,
                ptr_size,
                ssa@.blocks.len(),
            ),
    {
        let mut e: SsaEvaluator = SsaEvaluator::new(ssa.var_id_capacity(), ptr_size);
        let ghost start = e.env@;
        let mut b: usize = 0;
        while b < ssa.blocks.len()
            invariant
                b <= ssa.blocks@.len(),
                e.ptr_size == ptr_size,
                e.env@ == evaluator::after_blocks(start, ssa@.blocks, ptr_size, b as nat),
            decreases ssa.blocks@.len() - b,
        {
            e.evaluate_block(&ssa.blocks[b]);
            b = b + 1;
        }
        e
    }

    /// Finds, for each block, where the branch that ends it always goes.
    fn decide_branches(ssa: &SsaFunction<T>, ptr_size: PointerSize) -> (r: Vec<
        Option<(usize, bool)>,
    >)
        ensures
            r@.len() == ssa@.blocks.len(),
            forall|b: int|
                0 <= b < r@.len() ==> #[trigger] r@[b] == ssa@.decided(ptr_size, b),
    {
        broadcast use vstd::std_specs::btree::group_btree_axioms;

        let cache: DefinitionCache<'_, T> = DefinitionCache::build(ssa);
        let phis: BTreeMap<usize, ConstValue> = Self::analyze_phi_constants(ssa);
        let evaluated: SsaEvaluator = Self::evaluate_all(ssa, ptr_size);
        let dominators: Dominators = compute_dominators(ssa);
        let mut r: Vec<Option<(usize, bool)>> = Vec::new();
        let mut b: usize = 0;
        while b < ssa.blocks.len()
            invariant
                cache.wf(),
                cache.ssa == ssa,
                dominators.describes(ssa@),
                phis@ == ssa@.phi_constants(ssa@.blocks.len()),
                evaluated.env@ == evaluator::after_blocks(
                    evaluator::blank(ssa@.vars.len()),
                    ssa@.blocks,
                    ptr_size,
                    ssa@.blocks.len(),
                ),
                b <= ssa.blocks@.len(),
                r@.len() == b,
                forall|j: int| 0 <= j < b ==> #[trigger] r@[j] == ssa@.decided(ptr_size, j),
            decreases ssa.blocks@.len() - b,
        {
            assert(ssa.blocks@[b as int]@ == ssa@.blocks[b as int]);
            let mut decision: Option<(usize, bool)> = None;
            if let Some(Op::Branch { condition, true_target, false_target }) =
                ssa.blocks[b].terminator_op() {
                let truth: Option<bool> = match phis.get(&condition.0) {
                    Some(c) => Some(constant_holds(*c)),
                    None => match Self::analyze_branch(*condition, &cache).as_bool() {
                        Some(truth) => Some(truth),
                        None => match evaluated.get(*condition) {
                            Some(c) => Some(!c.is_zero()),
                            None => None,
                        },
                    },
                };
                assert(truth == ssa@.branch_truth(*condition, ptr_size));
                let truth: Option<bool> = match truth {
                    Some(truth) => Some(truth),
                    None => correlation::find_on_the_way(b, *condition, &cache, &dominators),
                };
                decision = match truth {
                    Some(true) => Some((*true_target, true)),
                    Some(false) => Some((*false_target, false)),
                    None => None,
                };
            }
            r.push(decision);
            b = b + 1;
        }
        r
    }

    /// Makes every branch that always goes to one target unconditional.
    fn apply_branches(
        ssa: &mut SsaFunction<T>,
        decisions: &Vec<Option<(usize, bool)>>,
        method: &T::MethodRef,
        ptr_size: PointerSize,
    ) -> (r: EventLog<T>)
        requires
            decisions@.len() == old(ssa)@.blocks.len(),
            forall|b: int|
                0 <= b < decisions@.len() ==> #[trigger] decisions@[b] == old(ssa)@.decided(
                    ptr_size,
                    b,
                ),
        ensures
            final(ssa)@ == old(ssa)@.with_branches_decided(ptr_size),
            r@ == seqs::flat(
                old(ssa)@.branch_events(*method, ptr_size),
                old(ssa)@.blocks.len(),
            ),
    {
        let ghost start = ssa@;
        let ghost events = start.branch_events(*method, ptr_size);
        let mut log: EventLog<T> = EventLog::new();
        let mut b: usize = 0;
        while b < decisions.len()
            invariant
                start == old(ssa)@,
                b <= decisions@.len(),
                decisions@.len() == start.blocks.len(),
                forall|j: int|
                    0 <= j < decisions@.len() ==> #[trigger] decisions@[j] == start.decided(
                        ptr_size,
                        j,
                    ),
                ssa@.blocks.len() == start.blocks.len(),
                ssa@ == (SsaView { blocks: ssa@.blocks, ..start }),
                forall|j: int|
                    0 <= j < b ==> #[trigger] ssa@.blocks[j] == start.decided_block(ptr_size, j),
                forall|j: int|
                    b <= j < start.blocks.len() ==> #[trigger] ssa@.blocks[j] == start.blocks[j],
                events == start.branch_events(*method, ptr_size),
                log@ == seqs::flat(events, b as nat),
            decreases decisions@.len() - b,
        {
            assert(decisions@[b as int] == start.decided(ptr_size, b as int));
            let ghost before = log@;
            if let Some((target, truth)) = decisions[b] {
                assert(ssa@.blocks[b as int] == start.blocks[b as int]);
                let last: usize = ssa.blocks[b].instrs.len() - 1;
                ssa.set_op(b, last, Op::Jump { target });
                let mut removed: String = String::from_str("removed opaque predicate (always ");
                text::push_bool(&mut removed, truth);
                removed.append(")");
                log.record_at(EventKind::OpaquePredicateRemoved, method, b, removed);
                let mut simplified: String = String::from_str(
                    "simplified to unconditional branch to ",
                );
                text::push_number(&mut simplified, target);
                log.record_at(EventKind::BranchSimplified, method, b, simplified);
            }
            assert(log@ =~= before + events(b as int));
            b = b + 1;
        }
        assert(ssa@.blocks =~= start.with_branches_decided(ptr_size).blocks);
        log
    }

    /// Rewrites the comparisons of one block and replaces its constant phi nodes.
    fn fold_block(
        cache: &DefinitionCache<'_, T>,
        phis: &BTreeMap<usize, ConstValue>,
        b: usize,
        method: &T::MethodRef,
        folds: &mut EventLog<T>,
        simplifications: &mut EventLog<T>,
        replacements: &mut EventLog<T>,
    ) -> (r: SsaBlock<T>)
        requires
            cache.wf(),
            phis@ == cache.ssa@.phi_constants(cache.ssa@.blocks.len()),
            b < cache.ssa@.blocks.len(),
        ensures
            r@ == cache.ssa@.folded_block(cache.ssa@.blocks[b as int]),
            final(folds)@ == old(folds)@ + (cache.ssa@.fold_events(*method))(b as int),
            final(simplifications)@ == old(simplifications)@ + (cache.ssa@.simplify_events(
                *method,
            ))(b as int),
            final(replacements)@ == old(replacements)@ + (cache.ssa@.phi_events(*method))(b as int),
    {
        broadcast use vstd::std_specs::btree::group_btree_axioms;

        let ghost s = cache.ssa@;
        let ghost view = s.blocks[b as int];
        let block: &SsaBlock<T> = &cache.ssa.blocks[b];
        assert(block@ == view);
        let mut kept: Vec<PhiNode> = Vec::new();
        let mut instrs: Vec<SsaInstruction<T>> = Vec::new();
        let ghost phi_event = s.phi_event(*method, b as int);
        assert(old(replacements)@ + seqs::flat(phi_event, 0) =~= old(replacements)@);
        let mut p: usize = block.phis.len();
        while p > 0
            invariant
                cache.wf(),
                s == cache.ssa@,
                phis@ == s.phi_constants(s.blocks.len()),
                block@ == view,
                p <= view.phis.len(),
                instrs@.map_values(|i: SsaInstruction<T>| i@) + s.phi_consts(view.phis, p as nat)
                    =~= s.phi_consts(view.phis, view.phis.len()),
            decreases p,
        {
            p = p - 1;
            let result: SsaVarId = block.phis[p].result;
            assert(view.phis[p as int] == block.phis@[p as int]@);
            if let Some(c) = phis.get(&result.0) {
                let op: SsaOp<T> = Op::Const { dest: result, value: *c };
                let ghost before = instrs@.map_values(|i: SsaInstruction<T>| i@);
                instrs.push(SsaInstruction::synthetic(op));
                assert(instrs@.map_values(|i: SsaInstruction<T>| i@) =~= before.push(op@));
            }
        }
        let mut p: usize = 0;
        while p < block.phis.len()
            invariant
                cache.wf(),
                s == cache.ssa@,
                phis@ == s.phi_constants(s.blocks.len()),
                b < s.blocks.len(),
                view == s.blocks[b as int],
                block@ == view,
                p <= view.phis.len(),
                kept@.map_values(|p: PhiNode| p@) =~= s.kept_phis(view.phis, p as nat),
                phi_event == s.phi_event(*method, b as int),
                replacements@ == old(replacements)@ + seqs::flat(phi_event, p as nat),
            decreases view.phis.len() - p,
        {
            let phi: &PhiNode = &block.phis[p];
            assert(view.phis[p as int] == phi@);
            let ghost before = replacements@;
            match phis.get(&phi.result.0) {
                Some(c) => {
                    let mut message: String = String::from_str("phi with constant operands → ");
                    text::push_const_debug(&mut message, *c);
                    replacements.record_at(EventKind::ConstantFolded, method, b, message);
                },
                None => {
                    let ghost sofar = kept@.map_values(|p: PhiNode| p@);
                    kept.push(phi.duplicate());
                    assert(kept@.map_values(|p: PhiNode| p@) =~= sofar.push(phi@));
                },
            }
            assert(replacements@ =~= before + phi_event(p as int));
            assert(old(replacements)@ + seqs::flat(phi_event, p as nat) + phi_event(p as int)
                =~= old(replacements)@ + seqs::flat(phi_event, (p + 1) as nat));
            p = p + 1;
        }
        let ghost consts = s.phi_consts(view.phis, view.phis.len());
        let ghost fold_event = s.fold_event(*method, b as int);
        let ghost simplify_event = s.simplify_event(*method, b as int);
        assert(old(folds)@ + seqs::flat(fold_event, 0) =~= old(folds)@);
        assert(old(simplifications)@ + seqs::flat(simplify_event, 0) =~= old(simplifications)@);
        let ghost target = view.instrs.map_values(|op: OpView<T>| s.rewritten(op));
        assert(instrs@.map_values(|i: SsaInstruction<T>| i@) =~= consts + target.take(0));
        let mut i: usize = 0;
        while i < block.instrs.len()
            invariant
                cache.wf(),
                s == cache.ssa@,
                b < s.blocks.len(),
                view == s.blocks[b as int],
                block@ == view,
                i <= view.instrs.len(),
                target == view.instrs.map_values(|op: OpView<T>| s.rewritten(op)),
                instrs@.map_values(|i: SsaInstruction<T>| i@) =~= consts + target.take(i as int),
                fold_event == s.fold_event(*method, b as int),
                simplify_event == s.simplify_event(*method, b as int),
                folds@ == old(folds)@ + seqs::flat(fold_event, i as nat),
                simplifications@ == old(simplifications)@ + seqs::flat(simplify_event, i as nat),
            decreases view.instrs.len() - i,
        {
            let op: &SsaOp<T> = &block.instrs[i].op;
            assert(view.instrs[i as int] == op@);
            let ghost folds_before = folds@;
            let ghost simplifications_before = simplifications@;
            let ghost sofar = instrs@.map_values(|i: SsaInstruction<T>| i@);
            let truth: Option<bool> = Self::analyze_predicate_with_cache(op, cache, 0).as_bool();
            let new_op: SsaOp<T> = match (truth, op.dest()) {
                (Some(truth), Some(dest)) => {
                    let mut message: String = String::from_str("opaque predicate → ");
                    text::push_bool(&mut message, truth);
                    folds.record_at(EventKind::ConstantFolded, method, i, message);
                    let value: ConstValue = if truth {
                        ConstValue::True
                    } else {
                        ConstValue::False
                    };
                    Op::Const { dest, value }
                },
                _ => match Self::analyze_comparison_simplification(op, cache) {
                    Some(simpler) => {
                        let message: String = String::from_str(simpler.reason);
                        simplifications.record_at(EventKind::ConstantFolded, method, i, message);
                        simpler.new_op
                    },
                    None => op.duplicate(),
                },
            };
            assert(new_op@ == target[i as int]);
            instrs.push(SsaInstruction::synthetic(new_op));
            assert(instrs@.map_values(|i: SsaInstruction<T>| i@) =~= sofar.push(new_op@));
            assert(folds@ =~= folds_before + fold_event(i as int));
            assert(simplifications@ =~= simplifications_before + simplify_event(i as int));
            assert(old(folds)@ + seqs::flat(fold_event, i as nat) + fold_event(i as int)
                =~= old(folds)@ + seqs::flat(fold_event, (i + 1) as nat));
            assert(old(simplifications)@ + seqs::flat(simplify_event, i as nat) + simplify_event(
                i as int,
            ) =~= old(simplifications)@ + seqs::flat(simplify_event, (i + 1) as nat));
            i = i + 1;
        }
        let r = SsaBlock { id: block.id, phis: kept, instrs };
        assert(r@.instrs =~= s.folded_block(view).instrs);
        assert(r@.phis =~= s.folded_block(view).phis);
        r
    }

    /// Removes the opaque predicates of a function.
    ///
    /// Returns whether a branch or a comparison changed.
    #[verifier::spinoff_prover]
    #[verifier::rlimit(60)]
    pub fn run(
        &self,
        ssa: &mut SsaFunction<T>,
        method: &T::MethodRef,
        events: &mut EventLog<T>,
        ptr_size: PointerSize,
    ) -> (r: bool)
        ensures
            ({
                let outcome = old(ssa)@.without_opaque_predicates(*method, ptr_size);
                &&& final(ssa)@ == outcome.ssa
                &&& final(events)@ == old(events)@ + outcome.events
                &&& r == outcome.changed
            }),
    {
        let ghost s = ssa@;
        let n: usize = ssa.block_count();
        let decisions: Vec<Option<(usize, bool)>> = Self::decide_branches(ssa, ptr_size);
        let mut decided: bool = false;
        let mut b: usize = 0;
        while b < decisions.len()
            invariant
                b <= decisions@.len(),
                decisions@.len() == s.blocks.len(),
                forall|j: int|
                    0 <= j < decisions@.len() ==> #[trigger] decisions@[j] == s.decided(
                        ptr_size,
                        j,
                    ),
                decided ==> s.has_decided(ptr_size),
                !decided ==> forall|j: int| 0 <= j < b ==> #[trigger] decisions@[j] is None,
            decreases decisions@.len() - b,
        {
            if decisions[b].is_some() {
                assert(s.decided(ptr_size, b as int) is Some);
                decided = true;
            }
            b = b + 1;
        }
        if decided {
            let before: SsaFunction<T> = ssa.duplicate();
            let log: EventLog<T> = Self::apply_branches(ssa, &decisions, method, ptr_size);
            if ssa.commit(before) {
                events.append_all(log);
                return true;
            }
            assert(events@ =~= old(events)@ + Seq::empty());
            return false;
        }
        assert(!s.has_decided(ptr_size)) by {
            assert forall|j: int| 0 <= j < s.blocks.len() implies #[trigger] s.decided(ptr_size, j)
                is None by {
                assert(decisions@[j] is None);
            }
        }
        let mut folds: EventLog<T> = EventLog::new();
        let mut simplifications: EventLog<T> = EventLog::new();
        let mut replacements: EventLog<T> = EventLog::new();
        let mut blocks: Vec<SsaBlock<T>> = Vec::new();
        let phis: BTreeMap<usize, ConstValue> = Self::analyze_phi_constants(ssa);
        let cache: DefinitionCache<'_, T> = DefinitionCache::build(ssa);
        let mut b: usize = 0;
        while b < n
            invariant
                cache.wf(),
                s == cache.ssa@,
                n == s.blocks.len(),
                phis@ == s.phi_constants(s.blocks.len()),
                b <= n,
                blocks@.len() == b,
                forall|j: int|
                    0 <= j < b ==> (#[trigger] blocks@[j])@ == s.folded_block(s.blocks[j]),
                folds@ == seqs::flat(s.fold_events(*method), b as nat),
                simplifications@ == seqs::flat(s.simplify_events(*method), b as nat),
                replacements@ == seqs::flat(s.phi_events(*method), b as nat),
            decreases n - b,
        {
            let block: SsaBlock<T> = Self::fold_block(
                &cache,
                &phis,
                b,
                method,
                &mut folds,
                &mut simplifications,
                &mut replacements,
            );
            blocks.push(block);
            b = b + 1;
        }
        let structural: bool = !folds.is_empty() || !simplifications.is_empty();
        if !structural && replacements.is_empty() {
            assert(events@ =~= old(events)@ + Seq::empty());
            return false;
        }
        let before: SsaFunction<T> = ssa.duplicate();
        ssa.blocks = blocks;
        assert(ssa@.blocks =~= s.with_comparisons_folded().blocks);
        assert(ssa@ == s.with_comparisons_folded());
        if ssa.commit(before) {
            events.append_all(folds);
            events.append_all(simplifications);
            events.append_all(replacements);
            assert(events@ =~= old(events)@ + s.without_opaque_predicates(
                *method,
                ptr_size,
            ).events);
            structural
        } else {
            assert(events@ =~= old(events)@ + Seq::empty());
            false
        }
    }
}

/// Removes the opaque predicates of a function.
///
/// Returns whether a branch or a comparison changed; replacing constant phi nodes alone does not
/// count.
pub fn run<T: Target>(
    ssa: &mut SsaFunction<T>,
    method: &T::MethodRef,
    events: &mut EventLog<T>,
    ptr_size: PointerSize,
) -> (r: bool)
    ensures
        ({
            let outcome = old(ssa)@.without_opaque_predicates(*method, ptr_size);
            &&& final(ssa)@ == outcome.ssa
            &&& final(events)@ == old(events)@ + outcome.events
            &&& r == outcome.changed
        }),
{
    OpaquePredicatePass::<T>::new().run(ssa, method, events, ptr_size)
}

impl<T: Target> SsaView<T> {
    /// What is known of `left == right` is what is known of the comparison that defines `left`.
    pub open spec fn asks_left(self, left: SsaVarId, right: SsaVarId) -> bool {
        &&& !self.is_zero_identity(left, right)
        &&& self.signed_const(left) is None || self.signed_const(right) is None
        &&& !((self.is_non_null(left) && self.is_null(right)) || (self.is_non_null(right)
            && self.is_null(left)))
        &&& self.is_number(right, 1) || self.is_number(right, 0)
    }
}

proof fn lemma_register(n: int)
    ensures
        meaning::register(n) as int % 2 == n % 2,
        0 <= n < pointer::modulus(64) ==> meaning::register(n) == n,
        i64::MIN <= n <= i64::MAX ==> meaning::signed(meaning::register(n)) == n,
{
    let m = pointer::modulus(64);
    assert(2 * (m / 2) == m);
    vstd::arithmetic::div_mod::lemma_mod_mod(n, 2, m / 2);
}

pub proof fn lemma_number<T: Target>(
    ssa: SsaView<T>,
    env: spec_fn(SsaVarId) -> u64,
    args: spec_fn(usize) -> u64,
    v: SsaVarId,
)
    requires
        ssa.admits(env, args),
    ensures
        forall|n: int| #[trigger] ssa.is_number(v, n) ==> env(v) == meaning::register(n),
        ssa.is_null(v) ==> env(v) == 0,
        ssa.is_non_null(v) ==> env(v) != 0,
        ssa.signed_const(v) matches Some(n) ==> env(v) == meaning::register(n as int)
            && meaning::signed(env(v)) == n,
        ssa.unsigned_const(v) matches Some(n) ==> env(v) == n,
        ssa.range_of(v) matches Some(ValueRange::Interval { min, max }) ==> min <= meaning::signed(
            env(v),
        ) <= max,
{
    assert(ssa.allows(env, args, v));
    if let Some(c) = ssa.const_of(v) {
        if let Some(n) = c.number() {
            lemma_register(n);
        }
    }
}

proof fn lemma_even_product(x: int, y: int)
    requires
        y % 2 == (x + 1) % 2,
    ensures
        (x * y) % 2 == 0,
{
    if x % 2 == 0 {
        let h = x / 2;
        assert(x == 2 * h);
        assert(x * y == 2 * (h * y)) by (nonlinear_arith)
            requires
                x == 2 * h,
        ;
    } else {
        let h = y / 2;
        assert(y == 2 * h);
        assert(x * y == 2 * (x * h)) by (nonlinear_arith)
            requires
                y == 2 * h,
        ;
    }
}

proof fn lemma_square_parity(x: int)
    ensures
        (x * x) % 2 == x % 2,
{
    lemma_even_product(x, x + 1);
    assert(x * (x + 1) == x * x + x) by (nonlinear_arith);
}

proof fn lemma_even<T: Target>(
    ssa: SsaView<T>,
    env: spec_fn(SsaVarId) -> u64,
    args: spec_fn(usize) -> u64,
    v: SsaVarId,
)
    requires
        ssa.admits(env, args),
        ssa.is_even_by_construction(v),
    ensures
        env(v) % 2 == 0,
{
    assert(ssa.allows(env, args, v));
    match ssa.def_op(v) {
        Some(Op::Mul { left, right, .. }) => {
            lemma_neighbours(ssa, env, args, left, right);
            lemma_even_product(env(left) as int, env(right) as int);
            lemma_register(env(left) * env(right));
        },
        Some(Op::Sub { left, right, .. }) => {
            lemma_square(ssa, env, args, left, right);
            lemma_register(env(left) - env(right));
        },
        Some(Op::Add { left, right, .. }) => {
            lemma_square(ssa, env, args, left, right);
            lemma_register(env(left) + env(right));
        },
        _ => {},
    }
}

proof fn lemma_neighbours<T: Target>(
    ssa: SsaView<T>,
    env: spec_fn(SsaVarId) -> u64,
    args: spec_fn(usize) -> u64,
    a: SsaVarId,
    b: SsaVarId,
)
    requires
        ssa.admits(env, args),
        ssa.are_consecutive(a, b),
    ensures
        env(b) as int % 2 == (env(a) + 1) % 2,
{
    assert(ssa.allows(env, args, a));
    assert(ssa.allows(env, args, b));
    lemma_register(1);
    lemma_register(-1);
    if ssa.is_successor(a, b) || ssa.is_offset_successor(a, b) || ssa.is_predecessor(a, b) {
        match ssa.def_op(b) {
            Some(Op::Add { left, right, .. }) => {
                lemma_number(ssa, env, args, left);
                lemma_number(ssa, env, args, right);
                lemma_register(env(left) + env(right));
            },
            Some(Op::Sub { left, right, .. }) => {
                lemma_number(ssa, env, args, right);
                lemma_register(env(left) - env(right));
            },
            _ => {},
        }
    } else {
        match ssa.def_op(a) {
            Some(Op::Add { left, right, .. }) => {
                lemma_number(ssa, env, args, left);
                lemma_number(ssa, env, args, right);
                lemma_register(env(left) + env(right));
            },
            Some(Op::Sub { left, right, .. }) => {
                lemma_number(ssa, env, args, right);
                lemma_register(env(left) - env(right));
            },
            _ => {},
        }
    }
}

proof fn lemma_square<T: Target>(
    ssa: SsaView<T>,
    env: spec_fn(SsaVarId) -> u64,
    args: spec_fn(usize) -> u64,
    a: SsaVarId,
    b: SsaVarId,
)
    requires
        ssa.admits(env, args),
        ssa.is_square_of(a, b) || ssa.is_square_of(b, a),
    ensures
        env(a) as int % 2 == env(b) as int % 2,
{
    assert(ssa.allows(env, args, a));
    assert(ssa.allows(env, args, b));
    lemma_square_parity(env(a) as int);
    lemma_square_parity(env(b) as int);
    lemma_register(env(a) * env(a));
    lemma_register(env(b) * env(b));
}

proof fn lemma_zero<T: Target>(
    ssa: SsaView<T>,
    env: spec_fn(SsaVarId) -> u64,
    args: spec_fn(usize) -> u64,
    v: SsaVarId,
)
    requires
        ssa.admits(env, args),
        ssa.is_zero_by_construction(v) || ssa.is_even_remainder(v),
    ensures
        env(v) == 0,
{
    assert(ssa.allows(env, args, v));
    lemma_register(0);
    match ssa.def_op(v) {
        Some(Op::Xor { left, .. }) => {
            let x = env(left);
            assert(x ^ x == 0) by (bit_vector);
        },
        Some(Op::Mul { left, right, .. }) => {
            lemma_number(ssa, env, args, left);
            lemma_number(ssa, env, args, right);
            let x = env(left);
            let y = env(right);
            assert(x * y == 0) by (nonlinear_arith)
                requires
                    x == 0 || y == 0,
            ;
        },
        Some(Op::And { left, right, .. }) => {
            lemma_number(ssa, env, args, left);
            lemma_number(ssa, env, args, right);
            let x = env(left);
            let y = env(right);
            assert(0u64 & y == 0 && x & 0u64 == 0) by (bit_vector);
        },
        Some(Op::Rem { left, right, unsigned, .. }) => {
            lemma_number(ssa, env, args, right);
            lemma_register(1);
            lemma_register(2);
            let x = env(left);
            if ssa.is_number(right, 1) {
                assert(env(right) == 1);
                assert(x % env(right) == 0);
                assert(meaning::signed(1) == 1);
                assert(meaning::magnitude(1) == 1);
                assert(meaning::magnitude(meaning::signed(x)) % meaning::magnitude(1) == 0);
                assert(meaning::remainder(meaning::signed(x), 1) == 0);
            } else {
                lemma_even(ssa, env, args, left);
                assert(env(right) == 2);
                assert(x % env(right) == x % 2);
                assert(meaning::signed(2) == 2);
                assert(meaning::signed(x) % 2 == 0);
                assert(meaning::magnitude(2) == 2);
                assert(meaning::magnitude(meaning::signed(x)) % 2 == 0);
                assert(meaning::magnitude(meaning::signed(x)) % meaning::magnitude(2) == 0);
                assert(meaning::remainder(meaning::signed(x), 2) == 0);
            }
        },
        _ => {},
    }
}

/// What is known of a comparison holds for all values that the variables can have: an operation that
/// is known to be true computes one, and an operation that is known to be false computes zero.
pub proof fn known_predicates_hold<T: Target>(
    ssa: SsaView<T>,
    op: OpView<T>,
    depth: nat,
    env: spec_fn(SsaVarId) -> u64,
    args: spec_fn(usize) -> u64,
)
    requires
        ssa.admits(env, args),
        ssa.predicate(op, depth).truth() is Some,
    ensures
        meaning::result(op, env, args) == Some(
            meaning::truth(ssa.predicate(op, depth).truth().unwrap()),
        ),
    decreases MAX_PREDICATE_DEPTH + 1 - depth,
{
    match op {
        Op::Ceq { left, right, .. } => {
            if left != right {
                lemma_number(ssa, env, args, left);
                lemma_number(ssa, env, args, right);
                lemma_register(0);
                lemma_register(1);
                if ssa.is_zero_identity(left, right) {
                    if ssa.is_zero_by_construction(left) && ssa.is_number(right, 0) {
                        lemma_zero(ssa, env, args, left);
                    } else if ssa.is_number(left, 0) && (ssa.is_zero_by_construction(right)
                        || ssa.is_even_remainder(right)) {
                        lemma_zero(ssa, env, args, right);
                    } else {
                        lemma_zero(ssa, env, args, left);
                    }
                } else if ssa.asks_left(left, right) {
                    if depth < MAX_PREDICATE_DEPTH {
                        let inner = ssa.def_op(left).unwrap();
                        assert(ssa.allows(env, args, left));
                        known_predicates_hold(ssa, inner, depth + 1, env, args);
                    }
                }
            }
        },
        Op::Clt { left, right, unsigned, .. } => {
            lemma_number(ssa, env, args, left);
            lemma_number(ssa, env, args, right);
        },
        Op::Cgt { left, right, unsigned, .. } => {
            lemma_number(ssa, env, args, left);
            lemma_number(ssa, env, args, right);
        },
        _ => {},
    }
}

/// The difference of the operands of a subtraction overflows.
pub open spec fn overflows<T: Target>(op: OpView<T>, env: spec_fn(SsaVarId) -> u64) -> bool {
    match op {
        Op::Sub { left, right, .. } => {
            let d = meaning::signed(env(left)) - meaning::signed(env(right));
            !(i64::MIN <= d <= i64::MAX)
        },
        _ => false,
    }
}

/// A simpler comparison computes the same as the one that it replaces, for all values that the
/// variables can have.
///
/// An ordered comparison of a difference with zero is left out where the difference overflows: its
/// sign is then not that of the comparison.
pub proof fn simpler_comparisons_compute_the_same<T: Target>(
    ssa: SsaView<T>,
    op: OpView<T>,
    env: spec_fn(SsaVarId) -> u64,
    args: spec_fn(usize) -> u64,
)
    requires
        ssa.admits(env, args),
        ssa.simplification(op) is Some,
        op matches Op::Clt { left, .. } ==> !overflows(ssa.def_op(left).unwrap(), env),
        op matches Op::Cgt { left, .. } ==> !overflows(ssa.def_op(left).unwrap(), env),
    ensures
        meaning::result(ssa.simplification(op).unwrap().0, env, args) == meaning::result(
            op,
            env,
            args,
        ),
{
    lemma_register(0);
    lemma_register(1);
    match op {
        Op::Ceq { dest, left, right } => {
            lemma_number(ssa, env, args, left);
            lemma_number(ssa, env, args, right);
            if ssa.zero_test(dest, left, right) is Some {
                let v = ssa.tested_against(left, right, 0).unwrap();
                assert(ssa.allows(env, args, v));
                match ssa.def_op(v) {
                    Some(Op::Sub { left: x, right: y, .. }) => {
                        lemma_register(env(x) - env(y));
                    },
                    Some(Op::Xor { left: x, right: y, .. }) => {
                        let a = env(x);
                        let b = env(y);
                        assert(a ^ b == 0 <==> a == b) by (bit_vector);
                    },
                    _ => {},
                }
            } else {
                let v = ssa.tested_against(left, right, 1).unwrap();
                assert(ssa.allows(env, args, v));
            }
        },
        Op::Clt { left, right, .. } => {
            lemma_number(ssa, env, args, right);
            assert(ssa.allows(env, args, left));
        },
        Op::Cgt { left, right, .. } => {
            lemma_number(ssa, env, args, right);
            assert(ssa.allows(env, args, left));
        },
        _ => {},
    }
}

} // verus!
