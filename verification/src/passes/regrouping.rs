//! Operations with constants that are regrouped compute the same.
use crate::analysis::constants;
use crate::analysis::knowledge;
use crate::analysis::meaning;
use crate::ir::function::SsaView;
use crate::ir::ops::{Op, OpView};
use crate::ir::value::{ArithKind, ConstValue};
use crate::ir::variable::SsaVarId;
use crate::passes::predicates;
use crate::passes::reassociate::{Progress, ReassociationCandidate};
use crate::pointer;
use crate::pointer::PointerSize;
use crate::target::Target;
use vstd::arithmetic::power2::pow2;
use vstd::prelude::*;

verus! {

/// The constants of an operation that is applied twice stay within what its registers hold: sums and
/// products within their type, amounts of shifts within a register.
pub open spec fn constants_are_tame<T: Target>(
    op: OpView<T>,
    c1: ConstValue,
    c2: ConstValue,
    ptr_size: PointerSize,
) -> bool {
    match (c1.number(), c2.number()) {
        (Some(x), Some(y)) => match op {
            Op::Add { .. } => constants::holds_number(c1, ptr_size, x + y),
            Op::Sub { .. } => constants::holds_number(c1, ptr_size, x + y),
            Op::Mul { .. } => constants::holds_number(c1, ptr_size, x * y),
            Op::Shl { .. } => 0 <= x && 0 <= y && x + y < 64 && constants::holds_number(
                c1,
                ptr_size,
                x + y,
            ),
            Op::Shr { .. } => 0 <= x && 0 <= y && x + y < 64 && constants::holds_number(
                c1,
                ptr_size,
                x + y,
            ),
            _ => constants::holds_number(c1, ptr_size, x) && constants::holds_number(
                c2,
                ptr_size,
                y,
            ),
        },
        _ => false,
    }
}

/// The registers with one of them changed.
pub open spec fn with_register(
    env: spec_fn(SsaVarId) -> u64,
    v: SsaVarId,
    x: u64,
) -> spec_fn(SsaVarId) -> u64 {
    |w: SsaVarId|
        if w == v {
            x
        } else {
            env(w)
        }
}

proof fn lemma_shl_once_more(x: u64, a: u64)
    requires
        a < 63,
    ensures
        (x << a) << 1u64 == x << ((a + 1) as u64),
        (x >> a) >> 1u64 == x >> ((a + 1) as u64),
{
    let s: u64 = (a + 1) as u64;
    assert((x << a) << 1u64 == x << s && (x >> a) >> 1u64 == x >> s) by (bit_vector)
        requires
            s == a + 1,
            a < 63,
    ;
}

proof fn lemma_shifted_twice(x: u64, a: u64, b: u64)
    requires
        a + b < 64,
    ensures
        (x << a) << b == x << ((a + b) as u64),
        (x >> a) >> b == x >> ((a + b) as u64),
    decreases b,
{
    if b == 0 {
        let p: u64 = x << a;
        let q: u64 = x >> a;
        assert(p << 0u64 == p && q >> 0u64 == q) by (bit_vector);
    } else {
        let d: u64 = (b - 1) as u64;
        lemma_shifted_twice(x, a, d);
        lemma_shl_once_more(x, (a + d) as u64);
        lemma_shl_once_more(x << a, d);
        lemma_shl_once_more(x >> a, d);
    }
}

proof fn lemma_negative_div(x: int, d: int)
    requires
        d > 0,
    ensures
        x / d == -1 - (-1 - x) / d,
{
    let y = -1 - x;
    vstd::arithmetic::div_mod::lemma_fundamental_div_mod(y, d);
    vstd::arithmetic::div_mod::lemma_mod_bound(y, d);
    let q = y / d;
    let r = y % d;
    let s = d - 1 - r;
    assert(x == d * (-1 - q) + s) by (nonlinear_arith)
        requires
            y == -1 - x,
            y == d * q + r,
            s == d - 1 - r,
    ;
    vstd::arithmetic::div_mod::lemma_fundamental_div_mod_converse(x, d, -1 - q, s);
}

proof fn lemma_div_twice(x: int, c: int, d: int)
    requires
        c > 0,
        d > 0,
    ensures
        (x / c) / d == x / (c * d),
{
    assert(c * d > 0) by (nonlinear_arith)
        requires
            c > 0,
            d > 0,
    ;
    if x >= 0 {
        vstd::arithmetic::div_mod::lemma_div_denominator(x, c, d);
    } else {
        let y = -1 - x;
        vstd::arithmetic::div_mod::lemma_div_denominator(y, c, d);
        lemma_negative_div(x, c);
        lemma_negative_div(x, c * d);
        lemma_negative_div(x / c, d);
        assert(-1 - x / c == y / c);
    }
}

proof fn lemma_signed_shift(x: u64, a: nat, b: nat)
    requires
        a + b < 64,
    ensures
        ({
            let first = meaning::register(meaning::signed(x) / pow2(a) as int);
            meaning::register(meaning::signed(first) / pow2(b) as int) == meaning::register(
                meaning::signed(x) / pow2(a + b) as int,
            )
        }),
{
    let s = meaning::signed(x);
    vstd::arithmetic::power2::lemma_pow2_pos(a);
    vstd::arithmetic::power2::lemma_pow2_pos(b);
    vstd::arithmetic::power2::lemma_pow2_adds(a, b);
    let (p, q) = (pow2(a) as int, pow2(b) as int);
    lemma_div_twice(s, p, q);
    let t = s / p;
    assert(i64::MIN <= t <= i64::MAX) by {
        if s >= 0 {
            vstd::arithmetic::div_mod::lemma_div_is_ordered_by_denominator(s, 1, p);
            vstd::arithmetic::div_mod::lemma_div_pos_is_pos(s, p);
        } else {
            lemma_negative_div(s, p);
            vstd::arithmetic::div_mod::lemma_div_is_ordered_by_denominator(-1 - s, 1, p);
            vstd::arithmetic::div_mod::lemma_div_pos_is_pos(-1 - s, p);
        }
    }
    knowledge::lemma_signed_register(t);
}

proof fn lemma_ring_twice(a: u64, x: int, y: int)
    ensures
        meaning::register(meaning::register(a + meaning::register(x)) + meaning::register(y))
            == meaning::register(a + meaning::register(x + y)),
        meaning::register(meaning::register(a - meaning::register(x)) - meaning::register(y))
            == meaning::register(a - meaning::register(x + y)),
        meaning::register(meaning::register(a * meaning::register(x)) * meaning::register(y))
            == meaning::register(a * meaning::register(x * y)),
{
    let m = pointer::modulus(64);
    vstd::arithmetic::div_mod::lemma_small_mod(a as nat, m as nat);
    assert(meaning::register(a as int) == a);
    knowledge::lemma_register_ring(a as int, x);
    knowledge::lemma_register_ring(a as int, x + y);
    knowledge::lemma_register_ring(a as int, x * y);
    knowledge::lemma_register_ring(a + x, y);
    knowledge::lemma_register_ring(a - x, y);
    knowledge::lemma_register_ring(a * x, y);
    assert((a + x) + y == a + (x + y));
    assert((a - x) - y == a - (x + y));
    assert((a * x) * y == a * (x * y)) by (nonlinear_arith);
}

proof fn lemma_bits_regroup(a: u64, b: u64, c: u64)
    ensures
        (a & b) & c == a & (b & c),
        (a | b) | c == a | (b | c),
        (a ^ b) ^ c == a ^ (b ^ c),
        a & b == b & a,
        a | b == b | a,
        a ^ b == b ^ a,
{
    assert((a & b) & c == a & (b & c) && (a | b) | c == a | (b | c) && (a ^ b) ^ c == a ^ (b ^ c)
        && a & b == b & a && a | b == b | a && a ^ b == b ^ a) by (bit_vector);
}

#[verifier::spinoff_prover]
#[verifier::rlimit(60)]
proof fn lemma_regrouped_sum<T: Target>(
    ssa: SsaView<T>,
    op: OpView<T>,
    b: usize,
    i: usize,
    c: ReassociationCandidate,
    combined: ConstValue,
    ptr_size: PointerSize,
    env: spec_fn(SsaVarId) -> u64,
    args: spec_fn(usize) -> u64,
)
    requires
        ssa.admits(env, args),
        ssa.reassociation(op, b, i) == Some(c),
        ConstValue::combined(
            c.op_kind.combination(),
            c.const1_value,
            c.const2_value,
            ptr_size,
        ) == Some(combined),
        constants_are_tame(op, c.const1_value, c.const2_value, ptr_size),
        c.base_var != c.const1_var,
        op is Add,
    ensures
        combined.number() is Some,
        c.outer == (b, i),
        op.result() == Some(c.dest),
        meaning::result(op, env, args) is Some,
        meaning::result(
            c.op_kind.operation::<T>(c.inner_dest, c.base_var, c.const1_var),
            with_register(env, c.const1_var, meaning::register(combined.number().unwrap())),
            args,
        ) == meaning::result(op, env, args),
{
    let x = c.const1_value.number().unwrap();
    let y = c.const2_value.number().unwrap();
    predicates::lemma_number(ssa, env, args, c.const1_var);
    assert(ssa.is_number(c.const1_var, x));
    let a = env(c.base_var);
    match op {
        Op::Add { left, right, .. } => {
            predicates::lemma_number(ssa, env, args, right);
            assert(ssa.is_number(right, y));
            assert(ssa.allows(env, args, left));
            lemma_ring_twice(a, x, y);
            constants::constants_combine_exactly(
                ArithKind::Add,
                c.const1_value,
                c.const2_value,
                ptr_size,
                x,
                y,
            );
        },
        _ => {},
    }
}

#[verifier::spinoff_prover]
#[verifier::rlimit(60)]
proof fn lemma_regrouped_difference<T: Target>(
    ssa: SsaView<T>,
    op: OpView<T>,
    b: usize,
    i: usize,
    c: ReassociationCandidate,
    combined: ConstValue,
    ptr_size: PointerSize,
    env: spec_fn(SsaVarId) -> u64,
    args: spec_fn(usize) -> u64,
)
    requires
        ssa.admits(env, args),
        ssa.reassociation(op, b, i) == Some(c),
        ConstValue::combined(
            c.op_kind.combination(),
            c.const1_value,
            c.const2_value,
            ptr_size,
        ) == Some(combined),
        constants_are_tame(op, c.const1_value, c.const2_value, ptr_size),
        c.base_var != c.const1_var,
        op is Sub,
    ensures
        combined.number() is Some,
        c.outer == (b, i),
        op.result() == Some(c.dest),
        meaning::result(op, env, args) is Some,
        meaning::result(
            c.op_kind.operation::<T>(c.inner_dest, c.base_var, c.const1_var),
            with_register(env, c.const1_var, meaning::register(combined.number().unwrap())),
            args,
        ) == meaning::result(op, env, args),
{
    let x = c.const1_value.number().unwrap();
    let y = c.const2_value.number().unwrap();
    predicates::lemma_number(ssa, env, args, c.const1_var);
    assert(ssa.is_number(c.const1_var, x));
    let a = env(c.base_var);
    match op {
        Op::Sub { left, right, .. } => {
            predicates::lemma_number(ssa, env, args, right);
            assert(ssa.is_number(right, y));
            assert(ssa.allows(env, args, left));
            lemma_ring_twice(a, x, y);
            constants::constants_combine_exactly(
                ArithKind::Add,
                c.const1_value,
                c.const2_value,
                ptr_size,
                x,
                y,
            );
        },
        _ => {},
    }
}

#[verifier::spinoff_prover]
#[verifier::rlimit(60)]
proof fn lemma_regrouped_product<T: Target>(
    ssa: SsaView<T>,
    op: OpView<T>,
    b: usize,
    i: usize,
    c: ReassociationCandidate,
    combined: ConstValue,
    ptr_size: PointerSize,
    env: spec_fn(SsaVarId) -> u64,
    args: spec_fn(usize) -> u64,
)
    requires
        ssa.admits(env, args),
        ssa.reassociation(op, b, i) == Some(c),
        ConstValue::combined(
            c.op_kind.combination(),
            c.const1_value,
            c.const2_value,
            ptr_size,
        ) == Some(combined),
        constants_are_tame(op, c.const1_value, c.const2_value, ptr_size),
        c.base_var != c.const1_var,
        op is Mul,
    ensures
        combined.number() is Some,
        c.outer == (b, i),
        op.result() == Some(c.dest),
        meaning::result(op, env, args) is Some,
        meaning::result(
            c.op_kind.operation::<T>(c.inner_dest, c.base_var, c.const1_var),
            with_register(env, c.const1_var, meaning::register(combined.number().unwrap())),
            args,
        ) == meaning::result(op, env, args),
{
    let x = c.const1_value.number().unwrap();
    let y = c.const2_value.number().unwrap();
    predicates::lemma_number(ssa, env, args, c.const1_var);
    assert(ssa.is_number(c.const1_var, x));
    let a = env(c.base_var);
    match op {
        Op::Mul { left, right, .. } => {
            predicates::lemma_number(ssa, env, args, right);
            assert(ssa.is_number(right, y));
            assert(ssa.allows(env, args, left));
            lemma_ring_twice(a, x, y);
            assert(a * meaning::register(x) == meaning::register(x) * a) by (nonlinear_arith);
            constants::constants_combine_exactly(
                ArithKind::Mul,
                c.const1_value,
                c.const2_value,
                ptr_size,
                x,
                y,
            );
        },
        _ => {},
    }
}

#[verifier::spinoff_prover]
#[verifier::rlimit(60)]
proof fn lemma_regrouped_and<T: Target>(
    ssa: SsaView<T>,
    op: OpView<T>,
    b: usize,
    i: usize,
    c: ReassociationCandidate,
    combined: ConstValue,
    ptr_size: PointerSize,
    env: spec_fn(SsaVarId) -> u64,
    args: spec_fn(usize) -> u64,
)
    requires
        ssa.admits(env, args),
        ssa.reassociation(op, b, i) == Some(c),
        ConstValue::combined(
            c.op_kind.combination(),
            c.const1_value,
            c.const2_value,
            ptr_size,
        ) == Some(combined),
        constants_are_tame(op, c.const1_value, c.const2_value, ptr_size),
        c.base_var != c.const1_var,
        op is And,
    ensures
        combined.number() is Some,
        c.outer == (b, i),
        op.result() == Some(c.dest),
        meaning::result(op, env, args) is Some,
        meaning::result(
            c.op_kind.operation::<T>(c.inner_dest, c.base_var, c.const1_var),
            with_register(env, c.const1_var, meaning::register(combined.number().unwrap())),
            args,
        ) == meaning::result(op, env, args),
{
    let x = c.const1_value.number().unwrap();
    let y = c.const2_value.number().unwrap();
    predicates::lemma_number(ssa, env, args, c.const1_var);
    assert(ssa.is_number(c.const1_var, x));
    let a = env(c.base_var);
    match op {
        Op::And { left, right, .. } => {
            predicates::lemma_number(ssa, env, args, right);
            assert(ssa.is_number(right, y));
            assert(ssa.allows(env, args, left));
            lemma_bits_regroup(a, meaning::register(x), meaning::register(y));
            constants::constants_combine_bit_by_bit(
                ArithKind::And,
                c.const1_value,
                c.const2_value,
                ptr_size,
                x,
                y,
            );
        },
        _ => {},
    }
}

#[verifier::spinoff_prover]
#[verifier::rlimit(60)]
proof fn lemma_regrouped_or<T: Target>(
    ssa: SsaView<T>,
    op: OpView<T>,
    b: usize,
    i: usize,
    c: ReassociationCandidate,
    combined: ConstValue,
    ptr_size: PointerSize,
    env: spec_fn(SsaVarId) -> u64,
    args: spec_fn(usize) -> u64,
)
    requires
        ssa.admits(env, args),
        ssa.reassociation(op, b, i) == Some(c),
        ConstValue::combined(
            c.op_kind.combination(),
            c.const1_value,
            c.const2_value,
            ptr_size,
        ) == Some(combined),
        constants_are_tame(op, c.const1_value, c.const2_value, ptr_size),
        c.base_var != c.const1_var,
        op is Or,
    ensures
        combined.number() is Some,
        c.outer == (b, i),
        op.result() == Some(c.dest),
        meaning::result(op, env, args) is Some,
        meaning::result(
            c.op_kind.operation::<T>(c.inner_dest, c.base_var, c.const1_var),
            with_register(env, c.const1_var, meaning::register(combined.number().unwrap())),
            args,
        ) == meaning::result(op, env, args),
{
    let x = c.const1_value.number().unwrap();
    let y = c.const2_value.number().unwrap();
    predicates::lemma_number(ssa, env, args, c.const1_var);
    assert(ssa.is_number(c.const1_var, x));
    let a = env(c.base_var);
    match op {
        Op::Or { left, right, .. } => {
            predicates::lemma_number(ssa, env, args, right);
            assert(ssa.is_number(right, y));
            assert(ssa.allows(env, args, left));
            lemma_bits_regroup(a, meaning::register(x), meaning::register(y));
            constants::constants_combine_bit_by_bit(
                ArithKind::Or,
                c.const1_value,
                c.const2_value,
                ptr_size,
                x,
                y,
            );
        },
        _ => {},
    }
}

#[verifier::spinoff_prover]
#[verifier::rlimit(60)]
proof fn lemma_regrouped_xor<T: Target>(
    ssa: SsaView<T>,
    op: OpView<T>,
    b: usize,
    i: usize,
    c: ReassociationCandidate,
    combined: ConstValue,
    ptr_size: PointerSize,
    env: spec_fn(SsaVarId) -> u64,
    args: spec_fn(usize) -> u64,
)
    requires
        ssa.admits(env, args),
        ssa.reassociation(op, b, i) == Some(c),
        ConstValue::combined(
            c.op_kind.combination(),
            c.const1_value,
            c.const2_value,
            ptr_size,
        ) == Some(combined),
        constants_are_tame(op, c.const1_value, c.const2_value, ptr_size),
        c.base_var != c.const1_var,
        op is Xor,
    ensures
        combined.number() is Some,
        c.outer == (b, i),
        op.result() == Some(c.dest),
        meaning::result(op, env, args) is Some,
        meaning::result(
            c.op_kind.operation::<T>(c.inner_dest, c.base_var, c.const1_var),
            with_register(env, c.const1_var, meaning::register(combined.number().unwrap())),
            args,
        ) == meaning::result(op, env, args),
{
    let x = c.const1_value.number().unwrap();
    let y = c.const2_value.number().unwrap();
    predicates::lemma_number(ssa, env, args, c.const1_var);
    assert(ssa.is_number(c.const1_var, x));
    let a = env(c.base_var);
    match op {
        Op::Xor { left, right, .. } => {
            predicates::lemma_number(ssa, env, args, right);
            assert(ssa.is_number(right, y));
            assert(ssa.allows(env, args, left));
            lemma_bits_regroup(a, meaning::register(x), meaning::register(y));
            constants::constants_combine_bit_by_bit(
                ArithKind::Xor,
                c.const1_value,
                c.const2_value,
                ptr_size,
                x,
                y,
            );
        },
        _ => {},
    }
}

#[verifier::spinoff_prover]
#[verifier::rlimit(60)]
proof fn lemma_regrouped_left_shift<T: Target>(
    ssa: SsaView<T>,
    op: OpView<T>,
    b: usize,
    i: usize,
    c: ReassociationCandidate,
    combined: ConstValue,
    ptr_size: PointerSize,
    env: spec_fn(SsaVarId) -> u64,
    args: spec_fn(usize) -> u64,
)
    requires
        ssa.admits(env, args),
        ssa.reassociation(op, b, i) == Some(c),
        ConstValue::combined(
            c.op_kind.combination(),
            c.const1_value,
            c.const2_value,
            ptr_size,
        ) == Some(combined),
        constants_are_tame(op, c.const1_value, c.const2_value, ptr_size),
        c.base_var != c.const1_var,
        op is Shl,
    ensures
        combined.number() is Some,
        c.outer == (b, i),
        op.result() == Some(c.dest),
        meaning::result(op, env, args) is Some,
        meaning::result(
            c.op_kind.operation::<T>(c.inner_dest, c.base_var, c.const1_var),
            with_register(env, c.const1_var, meaning::register(combined.number().unwrap())),
            args,
        ) == meaning::result(op, env, args),
{
    let x = c.const1_value.number().unwrap();
    let y = c.const2_value.number().unwrap();
    predicates::lemma_number(ssa, env, args, c.const1_var);
    assert(ssa.is_number(c.const1_var, x));
    let a = env(c.base_var);
    match op {
        Op::Shl { value: left, amount: right, .. } => {
            predicates::lemma_number(ssa, env, args, right);
            assert(ssa.is_number(right, y));
            assert(ssa.allows(env, args, left));
            constants::constants_combine_exactly(
                ArithKind::Add,
                c.const1_value,
                c.const2_value,
                ptr_size,
                x,
                y,
            );
            let m = pointer::modulus(64);
            vstd::arithmetic::div_mod::lemma_small_mod(x as nat, m as nat);
            vstd::arithmetic::div_mod::lemma_small_mod(y as nat, m as nat);
            vstd::arithmetic::div_mod::lemma_small_mod((x + y) as nat, m as nat);
            assert(meaning::register(x) == x && meaning::register(y) == y && meaning::register(
                x + y,
            ) == x + y);
            lemma_shifted_twice(a, x as u64, y as u64);
        },
        _ => {},
    }
}

#[verifier::spinoff_prover]
#[verifier::rlimit(60)]
proof fn lemma_regrouped_right_shift<T: Target>(
    ssa: SsaView<T>,
    op: OpView<T>,
    b: usize,
    i: usize,
    c: ReassociationCandidate,
    combined: ConstValue,
    ptr_size: PointerSize,
    env: spec_fn(SsaVarId) -> u64,
    args: spec_fn(usize) -> u64,
)
    requires
        ssa.admits(env, args),
        ssa.reassociation(op, b, i) == Some(c),
        ConstValue::combined(
            c.op_kind.combination(),
            c.const1_value,
            c.const2_value,
            ptr_size,
        ) == Some(combined),
        constants_are_tame(op, c.const1_value, c.const2_value, ptr_size),
        c.base_var != c.const1_var,
        op is Shr,
    ensures
        combined.number() is Some,
        c.outer == (b, i),
        op.result() == Some(c.dest),
        meaning::result(op, env, args) is Some,
        meaning::result(
            c.op_kind.operation::<T>(c.inner_dest, c.base_var, c.const1_var),
            with_register(env, c.const1_var, meaning::register(combined.number().unwrap())),
            args,
        ) == meaning::result(op, env, args),
{
    let x = c.const1_value.number().unwrap();
    let y = c.const2_value.number().unwrap();
    predicates::lemma_number(ssa, env, args, c.const1_var);
    assert(ssa.is_number(c.const1_var, x));
    let a = env(c.base_var);
    match op {
        Op::Shr { value: left, amount: right, .. } => {
            predicates::lemma_number(ssa, env, args, right);
            assert(ssa.is_number(right, y));
            assert(ssa.allows(env, args, left));
            constants::constants_combine_exactly(
                ArithKind::Add,
                c.const1_value,
                c.const2_value,
                ptr_size,
                x,
                y,
            );
            let m = pointer::modulus(64);
            vstd::arithmetic::div_mod::lemma_small_mod(x as nat, m as nat);
            vstd::arithmetic::div_mod::lemma_small_mod(y as nat, m as nat);
            vstd::arithmetic::div_mod::lemma_small_mod((x + y) as nat, m as nat);
            assert(meaning::register(x) == x && meaning::register(y) == y && meaning::register(
                x + y,
            ) == x + y);
            lemma_shifted_twice(a, x as u64, y as u64);
            lemma_signed_shift(a, x as nat, y as nat);
        },
        _ => {},
    }
}

/// Where an operation with a constant follows another, the one operation with the combined constant
/// that takes their place computes what the two computed, for all values that the variables can
/// have.
pub proof fn regrouped_operations_compute_the_same<T: Target>(
    ssa: SsaView<T>,
    op: OpView<T>,
    b: usize,
    i: usize,
    c: ReassociationCandidate,
    combined: ConstValue,
    ptr_size: PointerSize,
    env: spec_fn(SsaVarId) -> u64,
    args: spec_fn(usize) -> u64,
)
    requires
        ssa.admits(env, args),
        ssa.reassociation(op, b, i) == Some(c),
        ConstValue::combined(
            c.op_kind.combination(),
            c.const1_value,
            c.const2_value,
            ptr_size,
        ) == Some(combined),
        constants_are_tame(op, c.const1_value, c.const2_value, ptr_size),
        c.base_var != c.const1_var,
    ensures
        combined.number() is Some,
        c.outer == (b, i),
        op.result() == Some(c.dest),
        meaning::result(op, env, args) is Some,
        meaning::result(
            c.op_kind.operation::<T>(c.inner_dest, c.base_var, c.const1_var),
            with_register(env, c.const1_var, meaning::register(combined.number().unwrap())),
            args,
        ) == meaning::result(op, env, args),
{
    match op {
        Op::Add { .. } => lemma_regrouped_sum(ssa, op, b, i, c, combined, ptr_size, env, args),
        Op::Sub { .. } => lemma_regrouped_difference(ssa, op, b, i, c, combined, ptr_size, env, args),
        Op::Mul { .. } => lemma_regrouped_product(ssa, op, b, i, c, combined, ptr_size, env, args),
        Op::And { .. } => lemma_regrouped_and(ssa, op, b, i, c, combined, ptr_size, env, args),
        Op::Or { .. } => lemma_regrouped_or(ssa, op, b, i, c, combined, ptr_size, env, args),
        Op::Xor { .. } => lemma_regrouped_xor(ssa, op, b, i, c, combined, ptr_size, env, args),
        Op::Shl { .. } => lemma_regrouped_left_shift(ssa, op, b, i, c, combined, ptr_size, env, args),
        Op::Shr { .. } => lemma_regrouped_right_shift(ssa, op, b, i, c, combined, ptr_size, env, args),
        _ => {},
    }
}

/// What a rewriting leaves in the function computes the result that the outer operation had: the new
/// constant, then the new inner operation, then what stands in place of the outer one.
pub proof fn rewriting_keeps_the_result<T: Target>(
    progress: Progress<T>,
    c: ReassociationCandidate,
    combined: ConstValue,
    at: int,
    method: T::MethodRef,
    ptr_size: PointerSize,
    env: spec_fn(SsaVarId) -> u64,
    args: spec_fn(usize) -> u64,
)
    requires
        progress.ssa.admits(env, args),
        progress.ssa.has_instr(c.outer.0 as int, c.outer.1 as int),
        progress.ssa.has_instr(c.inner.0 as int, c.inner.1 as int),
        progress.ssa.has_instr(c.inner.0 as int, at),
        progress.ssa.reassociation(
            progress.ssa.blocks[c.outer.0 as int].instrs[c.outer.1 as int],
            c.outer.0,
            c.outer.1,
        ) == Some(c),
        progress.applicable(c, ptr_size) == Some((combined, at)),
        constants_are_tame(
            progress.ssa.blocks[c.outer.0 as int].instrs[c.outer.1 as int],
            c.const1_value,
            c.const2_value,
            ptr_size,
        ),
        c.base_var != c.const1_var,
        c.inner != c.outer,
        at != c.inner.1,
        !(c.inner.0 == c.outer.0 && at == c.outer.1),
    ensures
        ({
            let old_op = progress.ssa.blocks[c.outer.0 as int].instrs[c.outer.1 as int];
            let after = progress.step(c, method, ptr_size).ssa;
            let constant = after.blocks[c.inner.0 as int].instrs[at];
            let inner = after.blocks[c.inner.0 as int].instrs[c.inner.1 as int];
            let outer = after.blocks[c.outer.0 as int].instrs[c.outer.1 as int];
            &&& constant.result() == Some(c.const1_var)
            &&& inner.result() == Some(c.inner_dest)
            &&& outer.result() == old_op.result()
            &&& meaning::result(constant, env, args) is Some
            &&& {
                let env1 = with_register(
                    env,
                    c.const1_var,
                    meaning::result(constant, env, args).unwrap(),
                );
                &&& meaning::result(inner, env1, args) is Some
                &&& meaning::result(
                    outer,
                    with_register(
                        env1,
                        c.inner_dest,
                        meaning::result(inner, env1, args).unwrap(),
                    ),
                    args,
                ) == meaning::result(old_op, env, args)
            }
        }),
{
    let old_op = progress.ssa.blocks[c.outer.0 as int].instrs[c.outer.1 as int];
    regrouped_operations_compute_the_same(
        progress.ssa,
        old_op,
        c.outer.0,
        c.outer.1,
        c,
        combined,
        ptr_size,
        env,
        args,
    );
    let after = progress.step(c, method, ptr_size).ssa;
    assert(after.blocks[c.inner.0 as int].instrs[at] == Op::<
        T,
        Seq<usize>,
        Seq<SsaVarId>,
    >::Const { dest: c.const1_var, value: combined });
    assert(after.blocks[c.inner.0 as int].instrs[c.inner.1 as int] == c.op_kind.operation::<T>(
        c.inner_dest,
        c.base_var,
        c.const1_var,
    ));
}

} // verus!
