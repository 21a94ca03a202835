//! Pointer width of an analysed machine, and the masking of native-sized values.
use vstd::prelude::*;

verus! {

/// Number of values representable in `bits` bits, for the widths a pointer can have.
pub open spec fn modulus(bits: u32) -> int {
    if bits == 8 {
        0x100
    } else if bits == 16 {
        0x1_0000
    } else if bits == 32 {
        0x1_0000_0000
    } else if bits == 64 {
        0x1_0000_0000_0000_0000
    } else {
        0x1_0000_0000_0000_0000int * 0x1_0000_0000_0000_0000int
    }
}

/// The value congruent to `v` modulo `m` that a two's complement register of `m` states holds.
pub open spec fn wrap_signed(v: int, m: int) -> int {
    if v % m >= m / 2 {
        v % m - m
    } else {
        v % m
    }
}

/// The value congruent to `v` modulo `m` that an unsigned register of `m` states holds.
pub open spec fn wrap_unsigned(v: int, m: int) -> int {
    v % m
}

/// Target pointer size for native integer types.
#[derive(Debug, Clone, Copy, PartialEq, Eq, Hash, Structural)]
pub enum PointerSize {
    /// 8-bit target architecture with 1-byte pointers.
    Bit8,
    /// 16-bit target architecture with 2-byte pointers.
    Bit16,
    /// 32-bit target architecture with 4-byte pointers.
    Bit32,
    /// 64-bit target architecture with 8-byte pointers.
    Bit64,
    /// 128-bit target architecture with 16-byte pointers.
    Bit128,
}

impl PointerSize {
    /// Width in bits.
    pub open spec fn width(self) -> u32 {
        match self {
            PointerSize::Bit8 => 8,
            PointerSize::Bit16 => 16,
            PointerSize::Bit32 => 32,
            PointerSize::Bit64 => 64,
            PointerSize::Bit128 => 128,
        }
    }

    /// Width in bits of the part of a 64-bit carrier that masking keeps.
    pub open spec fn width_in_64(self) -> u32 {
        if self.width() > 64 {
            64
        } else {
            self.width()
        }
    }

    /// Creates a [`PointerSize`] from a "is 64-bit" boolean.
    #[must_use]
    pub fn from_is_64bit(is_64bit: bool) -> (r: Self)
        ensures
            r == (if is_64bit {
                PointerSize::Bit64
            } else {
                PointerSize::Bit32
            }),
    {
        if is_64bit {
            PointerSize::Bit64
        } else {
            PointerSize::Bit32
        }
    }

    /// Returns the pointer size in bytes.
    #[must_use]
    pub fn bytes(self) -> (r: usize)
        ensures
            8 * r == self.width(),
    {
        match self {
            PointerSize::Bit8 => 1,
            PointerSize::Bit16 => 2,
            PointerSize::Bit32 => 4,
            PointerSize::Bit64 => 8,
            PointerSize::Bit128 => 16,
        }
    }

    /// Returns the pointer size in bits.
    #[must_use]
    pub fn bits(self) -> (r: u32)
        ensures
            r == self.width(),
    {
        match self {
            PointerSize::Bit8 => 8,
            PointerSize::Bit16 => 16,
            PointerSize::Bit32 => 32,
            PointerSize::Bit64 => 64,
            PointerSize::Bit128 => 128,
        }
    }

    /// Truncates a signed value to the target width, then sign-extends it back.
    ///
    /// A 128-bit target keeps the value as it is: the carrier cannot hold more.
    #[must_use]
    pub fn mask_signed(self, value: i64) -> (r: i64)
        ensures
            r == wrap_signed(value as int, modulus(self.width_in_64())),
    {
        match self {
            PointerSize::Bit8 => {
                let r: i64 = #[verifier::truncate]
                (value as i8) as i64;
                assert(r == (if value % 0x100 >= 0x80 {
                    value % 0x100 - 0x100
                } else {
                    value % 0x100 - 0
                })) by (bit_vector)
                    requires
                        r == (value as i8) as i64,
                ;
                r
            },
            PointerSize::Bit16 => {
                let r: i64 = #[verifier::truncate]
                (value as i16) as i64;
                assert(r == (if value % 0x1_0000 >= 0x8000 {
                    value % 0x1_0000 - 0x1_0000
                } else {
                    value % 0x1_0000 - 0
                })) by (bit_vector)
                    requires
                        r == (value as i16) as i64,
                ;
                r
            },
            PointerSize::Bit32 => {
                let r: i64 = #[verifier::truncate]
                (value as i32) as i64;
                assert(r == (if value % 0x1_0000_0000 >= 0x8000_0000 {
                    value % 0x1_0000_0000 - 0x1_0000_0000
                } else {
                    value % 0x1_0000_0000 - 0
                })) by (bit_vector)
                    requires
                        r == (value as i32) as i64,
                ;
                r
            },
            PointerSize::Bit64 => value,
            PointerSize::Bit128 => value,
        }
    }

    /// Truncates an unsigned value to the target width, then zero-extends it back.
    #[must_use]
    pub fn mask_unsigned(self, value: u64) -> (r: u64)
        ensures
            r == wrap_unsigned(value as int, modulus(self.width_in_64())),
    {
        match self {
            PointerSize::Bit8 => value % 0x100,
            PointerSize::Bit16 => value % 0x1_0000,
            PointerSize::Bit32 => value % 0x1_0000_0000,
            PointerSize::Bit64 => value,
            PointerSize::Bit128 => value,
        }
    }

    /// Truncates a signed 128-bit value to the target width, then sign-extends it back.
    #[must_use]
    pub fn mask_signed_128(self, value: i128) -> (r: i128)
        ensures
            r == wrap_signed(value as int, modulus(self.width())),
    {
        proof {
            lemma_wrap(value as int, modulus(self.width()));
        }
        match self {
            PointerSize::Bit8 => wrap_i128(value, 0x100),
            PointerSize::Bit16 => wrap_i128(value, 0x1_0000),
            PointerSize::Bit32 => wrap_i128(value, 0x1_0000_0000),
            PointerSize::Bit64 => wrap_i128(value, 0x1_0000_0000_0000_0000),
            PointerSize::Bit128 => value,
        }
    }

    /// Truncates an unsigned 128-bit value to the target width, then zero-extends it back.
    #[must_use]
    pub fn mask_unsigned_128(self, value: u128) -> (r: u128)
        ensures
            r == wrap_unsigned(value as int, modulus(self.width())),
    {
        proof {
            lemma_wrap(value as int, modulus(self.width()));
        }
        match self {
            PointerSize::Bit8 => value % 0x100,
            PointerSize::Bit16 => value % 0x1_0000,
            PointerSize::Bit32 => value % 0x1_0000_0000,
            PointerSize::Bit64 => value % 0x1_0000_0000_0000_0000,
            PointerSize::Bit128 => value,
        }
    }
}

/// Reduces `value` to the signed representative modulo `m`.
fn wrap_i128(value: i128, m: i128) -> (r: i128)
    requires
        0 < m <= 0x1_0000_0000_0000_0000,
        m % 2 == 0,
    ensures
        r == wrap_signed(value as int, m as int),
{
    let rest: i128 = value.checked_rem_euclid(m).unwrap();
    if rest >= m / 2 {
        rest - m
    } else {
        rest
    }
}

/// The facts about masking that hold for every even modulus.
proof fn lemma_wrap(v: int, m: int)
    requires
        m >= 2,
        m % 2 == 0,
    ensures
        -(m / 2) <= wrap_signed(v, m) < m / 2,
        0 <= wrap_unsigned(v, m) < m,
        (wrap_signed(v, m) - v) % m == 0,
        (wrap_unsigned(v, m) - v) % m == 0,
        -(m / 2) <= v < m / 2 ==> wrap_signed(v, m) == v,
        0 <= v < m ==> wrap_unsigned(v, m) == v,
{
    vstd::arithmetic::div_mod::lemma_mod_bound(v, m);
    vstd::arithmetic::div_mod::lemma_fundamental_div_mod(v, m);
    let q = v / m;
    assert(v % m - v == (-q) * m) by (nonlinear_arith)
        requires
            v == m * q + v % m,
    ;
    assert(v % m - m - v == (-q - 1) * m) by (nonlinear_arith)
        requires
            v == m * q + v % m,
    ;
    vstd::arithmetic::div_mod::lemma_mod_multiples_basic(-q, m);
    vstd::arithmetic::div_mod::lemma_mod_multiples_basic(-q - 1, m);
    if 0 <= v < m {
        vstd::arithmetic::div_mod::lemma_small_mod(v as nat, m as nat);
    }
    if -m <= v < 0 {
        vstd::arithmetic::div_mod::lemma_mod_add_multiples_vanish(v, m);
        vstd::arithmetic::div_mod::lemma_small_mod((v + m) as nat, m as nat);
    }
}

/// Masking a masked value changes nothing.
pub proof fn mask_idempotent(size: PointerSize, v: int)
    ensures
        wrap_signed(wrap_signed(v, modulus(size.width())), modulus(size.width())) == wrap_signed(
            v,
            modulus(size.width()),
        ),
        wrap_unsigned(wrap_unsigned(v, modulus(size.width())), modulus(size.width()))
            == wrap_unsigned(v, modulus(size.width())),
{
    let m = modulus(size.width());
    lemma_wrap(v, m);
    lemma_wrap(wrap_signed(v, m), m);
    lemma_wrap(wrap_unsigned(v, m), m);
}

/// A masked value lies in the range of its register, and is congruent to what was masked.
pub proof fn mask_in_range(size: PointerSize, v: int)
    ensures
        -(modulus(size.width()) / 2) <= wrap_signed(v, modulus(size.width())) < modulus(
            size.width(),
        ) / 2,
        0 <= wrap_unsigned(v, modulus(size.width())) < modulus(size.width()),
        (wrap_signed(v, modulus(size.width())) - v) % modulus(size.width()) == 0,
        (wrap_unsigned(v, modulus(size.width())) - v) % modulus(size.width()) == 0,
{
    lemma_wrap(v, modulus(size.width()));
}

/// A value that already fits its register is not changed by masking.
pub proof fn mask_fixes_representable(size: PointerSize, v: int)
    ensures
        -(modulus(size.width()) / 2) <= v < modulus(size.width()) / 2 ==> wrap_signed(
            v,
            modulus(size.width()),
        ) == v,
        0 <= v < modulus(size.width()) ==> wrap_unsigned(v, modulus(size.width())) == v,
{
    lemma_wrap(v, modulus(size.width()));
}

} // verus!
