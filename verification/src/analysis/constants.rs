//! Constants combine as the numbers they stand for do.
use crate::analysis::meaning;
use crate::analysis::steps;
use crate::ir::value::{ArithKind, ConstValue};
use crate::pointer;
use crate::pointer::PointerSize;
use vstd::prelude::*;

verus! {

/// The type of the constant holds the number `n`.
pub open spec fn holds_number(c: ConstValue, ptr_size: PointerSize, n: int) -> bool {
    match c {
        ConstValue::I8(_) => -0x80 <= n < 0x80,
        ConstValue::I16(_) => -0x8000 <= n < 0x8000,
        ConstValue::I32(_) => -0x8000_0000 <= n < 0x8000_0000,
        ConstValue::I64(_) => -0x8000_0000_0000_0000 <= n < 0x8000_0000_0000_0000,
        ConstValue::U8(_) => 0 <= n < 0x100,
        ConstValue::U16(_) => 0 <= n < 0x1_0000,
        ConstValue::U32(_) => 0 <= n < 0x1_0000_0000,
        ConstValue::U64(_) => 0 <= n < 0x1_0000_0000_0000_0000,
        ConstValue::NativeInt(_) => {
            let half = pointer::modulus(ptr_size.width_in_64()) / 2;
            -half <= n < half
        },
        ConstValue::NativeUInt(_) => 0 <= n < pointer::modulus(ptr_size.width_in_64()),
        _ => false,
    }
}

proof fn lemma_wrap_small(n: int, m: int)
    requires
        m == 0x100 || m == 0x1_0000 || m == 0x1_0000_0000 || m == 0x1_0000_0000_0000_0000,
    ensures
        -(m / 2) <= n < m / 2 ==> pointer::wrap_signed(n, m) == n,
        0 <= n < m ==> pointer::wrap_unsigned(n, m) == n,
{
    if 0 <= n < m {
        vstd::arithmetic::div_mod::lemma_small_mod(n as nat, m as nat);
    } else if -(m / 2) <= n < 0 {
        vstd::arithmetic::div_mod::lemma_mod_add_multiples_vanish(n, m);
        vstd::arithmetic::div_mod::lemma_small_mod((m + n) as nat, m as nat);
        assert((m + n) % m == n % m);
    }
}

/// The exact result of an operation on two numbers.
pub open spec fn exact(kind: ArithKind, x: int, y: int) -> int {
    match kind {
        ArithKind::Add => x + y,
        ArithKind::Sub => x - y,
        ArithKind::Mul => x * y,
        _ => 0,
    }
}

/// Two constants add, subtract and multiply as their numbers do, where their type holds the result.
pub proof fn constants_combine_exactly(
    kind: ArithKind,
    a: ConstValue,
    b: ConstValue,
    ptr_size: PointerSize,
    x: int,
    y: int,
)
    requires
        a.number() == Some(x),
        b.number() == Some(y),
        ConstValue::combined(kind, a, b, ptr_size) is Some,
        kind is Add || kind is Sub || kind is Mul,
        holds_number(a, ptr_size, exact(kind, x, y)),
    ensures
        ConstValue::combined(kind, a, b, ptr_size).unwrap().number() == Some(exact(kind, x, y)),
{
    let e = exact(kind, x, y);
    lemma_wrap_small(e, 0x1_0000_0000_0000_0000);
    lemma_wrap_small(e, 0x1_0000_0000);
    lemma_wrap_small(e, 0x1_0000);
    lemma_wrap_small(e, 0x100);
    match kind {
        ArithKind::Add => {
            assert(e == x + y);
        },
        ArithKind::Sub => {
            assert(e == x - y);
        },
        _ => {
            assert(e == x * y);
        },
    }
}

proof fn lemma_signed_bits_stay(a: i64, b: i64)
    ensures
        -0x80 <= a < 0x80 && -0x80 <= b < 0x80 ==> -0x80 <= a & b < 0x80 && -0x80 <= a | b < 0x80
            && -0x80 <= a ^ b < 0x80,
        -0x8000 <= a < 0x8000 && -0x8000 <= b < 0x8000 ==> -0x8000 <= a & b < 0x8000 && -0x8000 <= a
            | b < 0x8000 && -0x8000 <= a ^ b < 0x8000,
        -0x8000_0000 <= a < 0x8000_0000 && -0x8000_0000 <= b < 0x8000_0000 ==> -0x8000_0000 <= a & b
            < 0x8000_0000 && -0x8000_0000 <= a | b < 0x8000_0000 && -0x8000_0000 <= a ^ b
            < 0x8000_0000,
{
    assert(-0x80i64 <= a && a < 0x80i64 && -0x80i64 <= b && b < 0x80i64 ==> -0x80i64 <= (a & b) && (a
        & b) < 0x80i64 && -0x80i64 <= (a | b) && (a | b) < 0x80i64 && -0x80i64 <= (a ^ b) && (a ^ b)
        < 0x80i64) by (bit_vector);
    assert(-0x8000i64 <= a && a < 0x8000i64 && -0x8000i64 <= b && b < 0x8000i64 ==> -0x8000i64 <= (a
        & b) && (a & b) < 0x8000i64 && -0x8000i64 <= (a | b) && (a | b) < 0x8000i64 && -0x8000i64
        <= (a ^ b) && (a ^ b) < 0x8000i64) by (bit_vector);
    assert(-0x8000_0000i64 <= a && a < 0x8000_0000i64 && -0x8000_0000i64 <= b && b < 0x8000_0000i64
        ==> -0x8000_0000i64 <= (a & b) && (a & b) < 0x8000_0000i64 && -0x8000_0000i64 <= (a | b) && (
    a | b) < 0x8000_0000i64 && -0x8000_0000i64 <= (a ^ b) && (a ^ b) < 0x8000_0000i64)
        by (bit_vector);
}

proof fn lemma_unsigned_bits_stay(a: u64, b: u64)
    ensures
        a < 0x100 && b < 0x100 ==> a & b < 0x100 && a | b < 0x100 && a ^ b < 0x100,
        a < 0x1_0000 && b < 0x1_0000 ==> a & b < 0x1_0000 && a | b < 0x1_0000 && a ^ b < 0x1_0000,
        a < 0x1_0000_0000 && b < 0x1_0000_0000 ==> a & b < 0x1_0000_0000 && a | b < 0x1_0000_0000
            && a ^ b < 0x1_0000_0000,
{
    assert(a < 0x100 && b < 0x100 ==> (a & b) < 0x100 && (a | b) < 0x100 && (a ^ b) < 0x100)
        by (bit_vector);
    assert(a < 0x1_0000 && b < 0x1_0000 ==> (a & b) < 0x1_0000 && (a | b) < 0x1_0000 && (a ^ b)
        < 0x1_0000) by (bit_vector);
    assert(a < 0x1_0000_0000 && b < 0x1_0000_0000 ==> (a & b) < 0x1_0000_0000 && (a | b)
        < 0x1_0000_0000 && (a ^ b) < 0x1_0000_0000) by (bit_vector);
}

/// The bits of two constants combine as those of the registers that hold them.
pub proof fn constants_combine_bit_by_bit(
    kind: ArithKind,
    a: ConstValue,
    b: ConstValue,
    ptr_size: PointerSize,
    x: int,
    y: int,
)
    requires
        a.number() == Some(x),
        b.number() == Some(y),
        ConstValue::combined(kind, a, b, ptr_size) is Some,
        kind is And || kind is Or || kind is Xor,
        holds_number(a, ptr_size, x),
        holds_number(b, ptr_size, y),
    ensures
        ConstValue::combined(kind, a, b, ptr_size).unwrap().number() is Some,
        meaning::register(ConstValue::combined(kind, a, b, ptr_size).unwrap().number().unwrap())
            == match kind {
            ArithKind::And => meaning::register(x) & meaning::register(y),
            ArithKind::Or => meaning::register(x) | meaning::register(y),
            _ => meaning::register(x) ^ meaning::register(y),
        },
{
    let c = ConstValue::combined(kind, a, b, ptr_size).unwrap();
    match (a, b) {
        (ConstValue::U8(_), _)
        | (ConstValue::U16(_), _)
        | (ConstValue::U32(_), _)
        | (ConstValue::U64(_), _)
        | (ConstValue::NativeUInt(_), _) => {
            let (p, q) = (x as u64, y as u64);
            lemma_unsigned_bits_stay(p, q);
            let r = kind.on_u64(p, q);
            lemma_wrap_small(r as int, 0x1_0000_0000_0000_0000);
            lemma_wrap_small(r as int, 0x1_0000_0000);
            lemma_wrap_small(r as int, 0x1_0000);
            lemma_wrap_small(r as int, 0x100);
            lemma_wrap_small(x, 0x1_0000_0000_0000_0000);
            lemma_wrap_small(y, 0x1_0000_0000_0000_0000);
            assert(c.number() == Some(r as int));
        },
        _ => {
            let (p, q) = (x as i64, y as i64);
            lemma_signed_bits_stay(p, q);
            let r = kind.on_i64(p, q);
            lemma_wrap_small(r as int, 0x1_0000_0000_0000_0000);
            lemma_wrap_small(r as int, 0x1_0000_0000);
            lemma_wrap_small(r as int, 0x1_0000);
            lemma_wrap_small(r as int, 0x100);
            steps::lemma_bitwise_registers(p, q);
            assert(c.number() == Some(r as int));
        },
    }
}

/// How many numbers the type of the constant holds.
pub open spec fn states(c: ConstValue, ptr_size: PointerSize) -> int {
    match c {
        ConstValue::I8(_) | ConstValue::U8(_) => 0x100,
        ConstValue::I16(_) | ConstValue::U16(_) => 0x1_0000,
        ConstValue::I32(_) | ConstValue::U32(_) => 0x1_0000_0000,
        ConstValue::I64(_) | ConstValue::U64(_) => 0x1_0000_0000_0000_0000,
        _ => pointer::modulus(ptr_size.width_in_64()),
    }
}

/// Two constants are integers of the same type.
pub open spec fn are_of_one_type(a: ConstValue, b: ConstValue) -> bool {
    ||| a is I8 && b is I8
    ||| a is I16 && b is I16
    ||| a is I32 && b is I32
    ||| a is I64 && b is I64
    ||| a is U8 && b is U8
    ||| a is U16 && b is U16
    ||| a is U32 && b is U32
    ||| a is U64 && b is U64
    ||| a is NativeInt && b is NativeInt
    ||| a is NativeUInt && b is NativeUInt
}

proof fn lemma_wraps_by_multiples(v: int, m: int) -> (ks: (int, int))
    requires
        m > 0,
    ensures
        v - pointer::wrap_signed(v, m) == ks.0 * m,
        v - pointer::wrap_unsigned(v, m) == ks.1 * m,
{
    vstd::arithmetic::div_mod::lemma_fundamental_div_mod(v, m);
    let k = v / m;
    assert(m * k == k * m) by (nonlinear_arith);
    if v % m >= m / 2 {
        assert((k + 1) * m == k * m + m) by (nonlinear_arith);
        (k + 1, k)
    } else {
        (k, k)
    }
}

proof fn lemma_wrapped_twice(e: int, m: int, q: int)
    requires
        m > 0,
        m * q == 0x1_0000_0000_0000_0000,
    ensures
        (e - pointer::wrap_signed(pointer::wrap_signed(e, 0x1_0000_0000_0000_0000), m)) % m == 0,
        (e - pointer::wrap_unsigned(pointer::wrap_unsigned(e, 0x1_0000_0000_0000_0000), m)) % m
            == 0,
{
    let big: int = 0x1_0000_0000_0000_0000;
    let (s, u) = lemma_wraps_by_multiples(e, big);
    let ws = pointer::wrap_signed(e, big);
    let wu = pointer::wrap_unsigned(e, big);
    let (s2, _u2) = lemma_wraps_by_multiples(ws, m);
    let (_s3, u3) = lemma_wraps_by_multiples(wu, m);
    assert(s * big + s2 * m == (s * q + s2) * m) by (nonlinear_arith)
        requires
            m * q == big,
    ;
    assert(u * big + u3 * m == (u * q + u3) * m) by (nonlinear_arith)
        requires
            m * q == big,
    ;
    vstd::arithmetic::div_mod::lemma_mod_multiples_basic(s * q + s2, m);
    vstd::arithmetic::div_mod::lemma_mod_multiples_basic(u * q + u3, m);
}

/// Two constants combine exactly where they are integers of one type. What comes of it is of that
/// type, and sums, differences and products wrap around within it.
pub proof fn constants_wrap_within_their_type(
    kind: ArithKind,
    a: ConstValue,
    b: ConstValue,
    ptr_size: PointerSize,
    x: int,
    y: int,
)
    requires
        a.number() == Some(x),
        b.number() == Some(y),
    ensures
        ConstValue::combined(kind, a, b, ptr_size) is Some <==> are_of_one_type(a, b),
        ConstValue::combined(kind, a, b, ptr_size) matches Some(c) ==> {
            &&& are_of_one_type(c, a)
            &&& c.number() is Some
            &&& kind is Add || kind is Sub || kind is Mul ==> (exact(kind, x, y)
                - c.number().unwrap()) % states(a, ptr_size) == 0
        },
{
    if are_of_one_type(a, b) && (kind is Add || kind is Sub || kind is Mul) {
        let e = exact(kind, x, y);
        let m = states(a, ptr_size);
        let big: int = 0x1_0000_0000_0000_0000;
        assert(m == 0x100 || m == 0x1_0000 || m == 0x1_0000_0000 || m == big);
        let q: int = if m == 0x100 {
            0x100_0000_0000_0000
        } else if m == 0x1_0000 {
            0x1_0000_0000_0000
        } else if m == 0x1_0000_0000 {
            0x1_0000_0000
        } else {
            1
        };
        assert(m * q == big);
        lemma_wrapped_twice(e, m, q);
        let (s, u) = lemma_wraps_by_multiples(e, big);
        vstd::arithmetic::div_mod::lemma_mod_multiples_basic(s, big);
        vstd::arithmetic::div_mod::lemma_mod_multiples_basic(u, big);
    }
}

} // verus!
