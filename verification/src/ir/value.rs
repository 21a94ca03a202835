//! Constant values.
use crate::pointer;
use crate::pointer::PointerSize;
use vstd::prelude::*;

verus! {

/// A constant of the analysed program.
#[derive(Debug, Clone, Copy, PartialEq, Eq, Hash, Structural)]
pub enum ConstValue {
    /// 8-bit signed integer.
    I8(i8),
    /// 16-bit signed integer.
    I16(i16),
    /// 32-bit signed integer.
    I32(i32),
    /// 64-bit signed integer.
    I64(i64),
    /// 8-bit unsigned integer.
    U8(u8),
    /// 16-bit unsigned integer.
    U16(u16),
    /// 32-bit unsigned integer.
    U32(u32),
    /// 64-bit unsigned integer.
    U64(u64),
    /// Signed integer of the target's pointer width.
    NativeInt(i64),
    /// Unsigned integer of the target's pointer width.
    NativeUInt(u64),
    /// The null reference.
    Null,
    /// The boolean `true`.
    True,
    /// The boolean `false`.
    False,
}

/// A binary operation on integers that constants are combined by.
#[derive(Debug, Clone, Copy, PartialEq, Eq, Structural)]
pub enum ArithKind {
    /// Addition, wrapping.
    Add,
    /// Subtraction, wrapping.
    Sub,
    /// Multiplication, wrapping.
    Mul,
    /// Bitwise conjunction.
    And,
    /// Bitwise disjunction.
    Or,
    /// Bitwise exclusive disjunction.
    Xor,
}

impl ArithKind {
    /// The operation on 64-bit two's complement registers.
    pub open spec fn on_i64(self, a: i64, b: i64) -> i64 {
        match self {
            ArithKind::Add => pointer::wrap_signed(a + b, pointer::modulus(64)) as i64,
            ArithKind::Sub => pointer::wrap_signed(a - b, pointer::modulus(64)) as i64,
            ArithKind::Mul => pointer::wrap_signed(a * b, pointer::modulus(64)) as i64,
            ArithKind::And => a & b,
            ArithKind::Or => a | b,
            ArithKind::Xor => a ^ b,
        }
    }

    /// The operation on 64-bit unsigned registers.
    pub open spec fn on_u64(self, a: u64, b: u64) -> u64 {
        match self {
            ArithKind::Add => pointer::wrap_unsigned(a + b, pointer::modulus(64)) as u64,
            ArithKind::Sub => pointer::wrap_unsigned(a - b, pointer::modulus(64)) as u64,
            ArithKind::Mul => pointer::wrap_unsigned(a * b, pointer::modulus(64)) as u64,
            ArithKind::And => a & b,
            ArithKind::Or => a | b,
            ArithKind::Xor => a ^ b,
        }
    }

    /// Computes [`ArithKind::on_i64`].
    pub fn apply_i64(self, a: i64, b: i64) -> (r: i64)
        ensures
            r == self.on_i64(a, b),
    {
        match self {
            ArithKind::Add => a.wrapping_add(b),
            ArithKind::Sub => a.wrapping_sub(b),
            ArithKind::Mul => a.wrapping_mul(b),
            ArithKind::And => a & b,
            ArithKind::Or => a | b,
            ArithKind::Xor => a ^ b,
        }
    }

    /// Computes [`ArithKind::on_u64`].
    pub fn apply_u64(self, a: u64, b: u64) -> (r: u64)
        ensures
            r == self.on_u64(a, b),
    {
        match self {
            ArithKind::Add => a.wrapping_add(b),
            ArithKind::Sub => a.wrapping_sub(b),
            ArithKind::Mul => a.wrapping_mul(b),
            ArithKind::And => a & b,
            ArithKind::Or => a | b,
            ArithKind::Xor => a ^ b,
        }
    }
}

impl ConstValue {
    /// The integer that the constant stands for, a boolean counting as one or zero.
    pub open spec fn number(self) -> Option<int> {
        match self {
            ConstValue::I8(v) => Some(v as int),
            ConstValue::I16(v) => Some(v as int),
            ConstValue::I32(v) => Some(v as int),
            ConstValue::I64(v) => Some(v as int),
            ConstValue::U8(v) => Some(v as int),
            ConstValue::U16(v) => Some(v as int),
            ConstValue::U32(v) => Some(v as int),
            ConstValue::U64(v) => Some(v as int),
            ConstValue::NativeInt(v) => Some(v as int),
            ConstValue::NativeUInt(v) => Some(v as int),
            ConstValue::Null => None,
            ConstValue::True => Some(1),
            ConstValue::False => Some(0),
        }
    }

    /// The integer as a signed 64-bit value, where it fits.
    pub open spec fn signed(self) -> Option<i64> {
        match self.number() {
            Some(v) => if i64::MIN <= v <= i64::MAX {
                Some(v as i64)
            } else {
                None
            },
            None => None,
        }
    }

    /// The integer as it reads in an unsigned 64-bit register.
    pub open spec fn unsigned(self) -> Option<u64> {
        match self.number() {
            Some(v) => Some(pointer::wrap_unsigned(v, pointer::modulus(64)) as u64),
            None => None,
        }
    }

    /// Returns the value as a signed 64-bit integer, if it is one.
    #[must_use]
    pub fn as_i64(&self) -> (r: Option<i64>)
        ensures
            r == self.signed(),
    {
        match *self {
            ConstValue::I8(v) => Some(v as i64),
            ConstValue::I16(v) => Some(v as i64),
            ConstValue::I32(v) => Some(v as i64),
            ConstValue::I64(v) => Some(v),
            ConstValue::U8(v) => Some(v as i64),
            ConstValue::U16(v) => Some(v as i64),
            ConstValue::U32(v) => Some(v as i64),
            ConstValue::U64(v) => if v <= i64::MAX as u64 {
                Some(v as i64)
            } else {
                None
            },
            ConstValue::NativeInt(v) => Some(v),
            ConstValue::NativeUInt(v) => if v <= i64::MAX as u64 {
                Some(v as i64)
            } else {
                None
            },
            ConstValue::Null => None,
            ConstValue::True => Some(1),
            ConstValue::False => Some(0),
        }
    }

    /// Returns the value as it reads in an unsigned 64-bit register, if it is an integer.
    #[must_use]
    pub fn as_u64(&self) -> (r: Option<u64>)
        ensures
            r == self.unsigned(),
    {
        match *self {
            ConstValue::U64(v) => Some(v),
            ConstValue::NativeUInt(v) => Some(v),
            _ => match self.as_i64() {
                Some(v) => if v >= 0 {
                    Some(v as u64)
                } else {
                    Some((v as i128 + 0x1_0000_0000_0000_0000) as u64)
                },
                None => None,
            },
        }
    }

    /// The boolean that the constant is, if it is one.
    pub open spec fn boolean(self) -> Option<bool> {
        match self {
            ConstValue::True => Some(true),
            ConstValue::False => Some(false),
            _ => None,
        }
    }

    /// Returns the value as a boolean, if it is one.
    #[must_use]
    pub fn as_bool(&self) -> (r: Option<bool>)
        ensures
            r == self.boolean(),
    {
        match self {
            ConstValue::True => Some(true),
            ConstValue::False => Some(false),
            _ => None,
        }
    }

    /// Returns `true` for an integer zero and for `false`.
    #[must_use]
    pub fn is_zero(&self) -> (r: bool)
        ensures
            r == (self.number() == Some(0int)),
    {
        match self.as_i64() {
            Some(v) => v == 0,
            None => false,
        }
    }

    /// Returns `true` for an integer one and for `true`.
    #[must_use]
    pub fn is_one(&self) -> (r: bool)
        ensures
            r == (self.number() == Some(1int)),
    {
        match self.as_i64() {
            Some(v) => v == 1,
            None => false,
        }
    }

    /// Returns `true` for an integer minus one.
    #[must_use]
    pub fn is_minus_one(&self) -> (r: bool)
        ensures
            r == (self.number() == Some(-1int)),
    {
        match self.as_i64() {
            Some(v) => v == -1,
            None => false,
        }
    }

    /// Returns `true` for the null reference.
    #[must_use]
    pub fn is_null(&self) -> (r: bool)
        ensures
            r == (self == ConstValue::Null),
    {
        matches!(self, ConstValue::Null)
    }

    /// The combination of two integer constants of one type, reduced to that type's width.
    ///
    /// Constants of two types, and constants that are no integers, do not combine.
    pub open spec fn combined(
        kind: ArithKind,
        a: ConstValue,
        b: ConstValue,
        ptr_size: PointerSize,
    ) -> Option<ConstValue> {
        match (a, b) {
            (ConstValue::I8(x), ConstValue::I8(y)) => Some(
                ConstValue::I8(
                    pointer::wrap_signed(
                        kind.on_i64(x as i64, y as i64) as int,
                        pointer::modulus(8),
                    ) as i8,
                ),
            ),
            (ConstValue::I16(x), ConstValue::I16(y)) => Some(
                ConstValue::I16(
                    pointer::wrap_signed(
                        kind.on_i64(x as i64, y as i64) as int,
                        pointer::modulus(16),
                    ) as i16,
                ),
            ),
            (ConstValue::I32(x), ConstValue::I32(y)) => Some(
                ConstValue::I32(
                    pointer::wrap_signed(
                        kind.on_i64(x as i64, y as i64) as int,
                        pointer::modulus(32),
                    ) as i32,
                ),
            ),
            (ConstValue::U8(x), ConstValue::U8(y)) => Some(
                ConstValue::U8(
                    pointer::wrap_unsigned(
                        kind.on_u64(x as u64, y as u64) as int,
                        pointer::modulus(8),
                    ) as u8,
                ),
            ),
            (ConstValue::U16(x), ConstValue::U16(y)) => Some(
                ConstValue::U16(
                    pointer::wrap_unsigned(
                        kind.on_u64(x as u64, y as u64) as int,
                        pointer::modulus(16),
                    ) as u16,
                ),
            ),
            (ConstValue::U32(x), ConstValue::U32(y)) => Some(
                ConstValue::U32(
                    pointer::wrap_unsigned(
                        kind.on_u64(x as u64, y as u64) as int,
                        pointer::modulus(32),
                    ) as u32,
                ),
            ),
            (ConstValue::I64(x), ConstValue::I64(y)) => Some(ConstValue::I64(kind.on_i64(x, y))),
            (ConstValue::U64(x), ConstValue::U64(y)) => Some(ConstValue::U64(kind.on_u64(x, y))),
            (ConstValue::NativeInt(x), ConstValue::NativeInt(y)) => Some(
                ConstValue::NativeInt(
                    pointer::wrap_signed(
                        kind.on_i64(x, y) as int,
                        pointer::modulus(ptr_size.width_in_64()),
                    ) as i64,
                ),
            ),
            (ConstValue::NativeUInt(x), ConstValue::NativeUInt(y)) => Some(
                ConstValue::NativeUInt(
                    pointer::wrap_unsigned(
                        kind.on_u64(x, y) as int,
                        pointer::modulus(ptr_size.width_in_64()),
                    ) as u64,
                ),
            ),
            _ => None,
        }
    }

    /// Combines two integer constants of one type.
    #[must_use]
    pub fn combine(&self, other: &ConstValue, kind: ArithKind, ptr_size: PointerSize) -> (r: Option<
        ConstValue,
    >)
        ensures
            r == ConstValue::combined(kind, *self, *other, ptr_size),
    {
        match (*self, *other) {
            (ConstValue::I8(x), ConstValue::I8(y)) => {
                let wide: i64 = PointerSize::Bit8.mask_signed(kind.apply_i64(x as i64, y as i64));
                Some(ConstValue::I8(wide as i8))
            },
            (ConstValue::I16(x), ConstValue::I16(y)) => {
                let wide: i64 = PointerSize::Bit16.mask_signed(kind.apply_i64(x as i64, y as i64));
                Some(ConstValue::I16(wide as i16))
            },
            (ConstValue::I32(x), ConstValue::I32(y)) => {
                let wide: i64 = PointerSize::Bit32.mask_signed(kind.apply_i64(x as i64, y as i64));
                Some(ConstValue::I32(wide as i32))
            },
            (ConstValue::U8(x), ConstValue::U8(y)) => {
                let wide: u64 = PointerSize::Bit8.mask_unsigned(kind.apply_u64(x as u64, y as u64));
                Some(ConstValue::U8(wide as u8))
            },
            (ConstValue::U16(x), ConstValue::U16(y)) => {
                let wide: u64 = PointerSize::Bit16.mask_unsigned(kind.apply_u64(x as u64, y as u64));
                Some(ConstValue::U16(wide as u16))
            },
            (ConstValue::U32(x), ConstValue::U32(y)) => {
                let wide: u64 = PointerSize::Bit32.mask_unsigned(kind.apply_u64(x as u64, y as u64));
                Some(ConstValue::U32(wide as u32))
            },
            (ConstValue::I64(x), ConstValue::I64(y)) => Some(ConstValue::I64(kind.apply_i64(x, y))),
            (ConstValue::U64(x), ConstValue::U64(y)) => Some(ConstValue::U64(kind.apply_u64(x, y))),
            (ConstValue::NativeInt(x), ConstValue::NativeInt(y)) => Some(
                ConstValue::NativeInt(ptr_size.mask_signed(kind.apply_i64(x, y))),
            ),
            (ConstValue::NativeUInt(x), ConstValue::NativeUInt(y)) => Some(
                ConstValue::NativeUInt(ptr_size.mask_unsigned(kind.apply_u64(x, y))),
            ),
            _ => None,
        }
    }

    /// Adds two integer constants of one type.
    #[must_use]
    pub fn add(&self, other: &ConstValue, ptr_size: PointerSize) -> (r: Option<ConstValue>)
        ensures
            r == ConstValue::combined(ArithKind::Add, *self, *other, ptr_size),
    {
        self.combine(other, ArithKind::Add, ptr_size)
    }

    /// Subtracts two integer constants of one type.
    #[must_use]
    pub fn sub(&self, other: &ConstValue, ptr_size: PointerSize) -> (r: Option<ConstValue>)
        ensures
            r == ConstValue::combined(ArithKind::Sub, *self, *other, ptr_size),
    {
        self.combine(other, ArithKind::Sub, ptr_size)
    }

    /// Multiplies two integer constants of one type.
    #[must_use]
    pub fn mul(&self, other: &ConstValue, ptr_size: PointerSize) -> (r: Option<ConstValue>)
        ensures
            r == ConstValue::combined(ArithKind::Mul, *self, *other, ptr_size),
    {
        self.combine(other, ArithKind::Mul, ptr_size)
    }

    /// Intersects the bits of two integer constants of one type.
    #[must_use]
    pub fn bitwise_and(&self, other: &ConstValue, ptr_size: PointerSize) -> (r: Option<ConstValue>)
        ensures
            r == ConstValue::combined(ArithKind::And, *self, *other, ptr_size),
    {
        self.combine(other, ArithKind::And, ptr_size)
    }

    /// Unites the bits of two integer constants of one type.
    #[must_use]
    pub fn bitwise_or(&self, other: &ConstValue, ptr_size: PointerSize) -> (r: Option<ConstValue>)
        ensures
            r == ConstValue::combined(ArithKind::Or, *self, *other, ptr_size),
    {
        self.combine(other, ArithKind::Or, ptr_size)
    }

    /// Takes the exclusive disjunction of two integer constants of one type.
    #[must_use]
    pub fn bitwise_xor(&self, other: &ConstValue, ptr_size: PointerSize) -> (r: Option<ConstValue>)
        ensures
            r == ConstValue::combined(ArithKind::Xor, *self, *other, ptr_size),
    {
        self.combine(other, ArithKind::Xor, ptr_size)
    }
}

} // verus!
