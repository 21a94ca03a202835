//! Byte order of a machine.
use crate::pointer::PointerSize;
use crate::target::bytes;
use crate::target::bytes::{join_bytes, reversed, split_bytes, swap_bytes};
use vstd::prelude::*;

verus! {

/// Byte order of a target architecture.
#[derive(Debug, Clone, Copy, PartialEq, Eq, Hash, Structural)]
pub enum Endianness {
    /// Least significant byte stored first.
    Little,
    /// Most significant byte stored first.
    Big,
}

/// Calls [`u16::to_ne_bytes`]: the bytes of a number in the order of the machine this runs on,
/// which is one of the two orders. Which of them is a property of the machine.
#[verifier::external_body]
fn native_bytes_u16(value: u16) -> (r: [u8; 2])
    ensures
        r@ == bytes::le_bytes(value as nat, 2) || r@ == bytes::le_bytes(value as nat, 2).reverse(),
{
    value.to_ne_bytes()
}

/// Returns the byte order in which `probe` holds the number one.
#[must_use]
pub fn order_of(probe: [u8; 2]) -> (r: Endianness)
    requires
        probe@ == bytes::le_bytes(1, 2) || probe@ == bytes::le_bytes(1, 2).reverse(),
    ensures
        probe@ == r.layout(1, 2),
{
    proof {
        reveal_with_fuel(bytes::le_bytes, 3);
    }
    if probe[0] == 1 {
        Endianness::Little
    } else {
        Endianness::Big
    }
}

/// Byte order of the machine this runs on: the one in which it stores the number one.
fn host_endianness() -> (r: Endianness)
    ensures
        exists|probe: [u8; 2]| #[trigger]
            call_ensures(native_bytes_u16, (1u16,), probe) && probe@ == r.layout(1, 2),
{
    let probe: [u8; 2] = native_bytes_u16(1);
    order_of(probe)
}

impl Endianness {
    /// The `n` bytes of `v` in this order.
    pub open spec fn layout(self, v: nat, n: nat) -> Seq<u8> {
        match self {
            Endianness::Little => bytes::le_bytes(v, n),
            Endianness::Big => bytes::le_bytes(v, n).reverse(),
        }
    }

    /// The number that `b` stands for in this order.
    pub open spec fn number(self, b: Seq<u8>) -> nat {
        match self {
            Endianness::Little => bytes::le_value(b),
            Endianness::Big => bytes::le_value(b.reverse()),
        }
    }

    /// What a machine of order `host` makes of an `n`-byte number stored in this order.
    pub open spec fn converted(self, host: Endianness, v: nat, n: nat) -> nat {
        if self == host {
            v
        } else {
            bytes::swapped(v, n)
        }
    }

    /// The number read from the first `n` bytes of `b`, and zero where there are fewer.
    pub open spec fn read(self, b: Seq<u8>, n: nat) -> nat {
        if b.len() >= n {
            self.number(b.take(n as int))
        } else {
            0
        }
    }

    /// Returns `true` if this is little-endian.
    #[must_use]
    pub fn is_little(self) -> (r: bool)
        ensures
            r == (self == Endianness::Little),
    {
        matches!(self, Endianness::Little)
    }

    /// Returns `true` if this is big-endian.
    #[must_use]
    pub fn is_big(self) -> (r: bool)
        ensures
            r == (self == Endianness::Big),
    {
        matches!(self, Endianness::Big)
    }

    /// Converts the `n` low bytes of `value` between this order and that of `host`.
    ///
    /// The same exchange of bytes serves both directions.
    pub fn convert_on(self, host: Endianness, value: u128, n: usize) -> (r: u128)
        requires
            n <= 16,
            value < bytes::pow256(n as nat),
        ensures
            r == self.converted(host, value as nat, n as nat),
            r < bytes::pow256(n as nat),
    {
        if self == host {
            value
        } else {
            swap_bytes(value, n)
        }
    }

    /// Converts a `u16` from this byte order to the byte order of the running machine.
    #[must_use]
    pub fn to_native_u16(self, value: u16) -> (r: u16)
        ensures
            exists|host: Endianness| r == #[trigger] self.converted(host, value as nat, 2),
    {
        proof {
            bytes::lemma_pow256_values();
        }
        self.convert_on(host_endianness(), value as u128, 2) as u16
    }

    /// Converts a `u32` from this byte order to the byte order of the running machine.
    #[must_use]
    pub fn to_native_u32(self, value: u32) -> (r: u32)
        ensures
            exists|host: Endianness| r == #[trigger] self.converted(host, value as nat, 4),
    {
        proof {
            bytes::lemma_pow256_values();
        }
        self.convert_on(host_endianness(), value as u128, 4) as u32
    }

    /// Converts a `u64` from this byte order to the byte order of the running machine.
    #[must_use]
    pub fn to_native_u64(self, value: u64) -> (r: u64)
        ensures
            exists|host: Endianness| r == #[trigger] self.converted(host, value as nat, 8),
    {
        proof {
            bytes::lemma_pow256_values();
        }
        self.convert_on(host_endianness(), value as u128, 8) as u64
    }

    /// Converts a `u128` from this byte order to the byte order of the running machine.
    #[must_use]
    pub fn to_native_u128(self, value: u128) -> (r: u128)
        ensures
            exists|host: Endianness| r == #[trigger] self.converted(host, value as nat, 16),
    {
        proof {
            bytes::lemma_pow256_values();
        }
        self.convert_on(host_endianness(), value, 16)
    }

    /// Converts a `u16` from the byte order of the running machine to this byte order.
    #[must_use]
    pub fn from_native_u16(self, value: u16) -> (r: u16)
        ensures
            exists|host: Endianness| r == #[trigger] self.converted(host, value as nat, 2),
    {
        self.to_native_u16(value)
    }

    /// Converts a `u32` from the byte order of the running machine to this byte order.
    #[must_use]
    pub fn from_native_u32(self, value: u32) -> (r: u32)
        ensures
            exists|host: Endianness| r == #[trigger] self.converted(host, value as nat, 4),
    {
        self.to_native_u32(value)
    }

    /// Converts a `u64` from the byte order of the running machine to this byte order.
    #[must_use]
    pub fn from_native_u64(self, value: u64) -> (r: u64)
        ensures
            exists|host: Endianness| r == #[trigger] self.converted(host, value as nat, 8),
    {
        self.to_native_u64(value)
    }

    /// Converts a `u128` from the byte order of the running machine to this byte order.
    #[must_use]
    pub fn from_native_u128(self, value: u128) -> (r: u128)
        ensures
            exists|host: Endianness| r == #[trigger] self.converted(host, value as nat, 16),
    {
        self.to_native_u128(value)
    }

    /// The `n` low bytes of `value` in this order.
    fn bytes_of(self, value: u128, n: usize) -> (r: Vec<u8>)
        ensures
            r@ == self.layout(value as nat, n as nat),
            r@.len() == n,
    {
        proof {
            bytes::lemma_le_bytes_len(value as nat, n as nat);
        }
        let low: Vec<u8> = split_bytes(value, n);
        match self {
            Endianness::Little => low,
            Endianness::Big => reversed(low.as_slice()),
        }
    }

    /// Returns the bytes of a `u16` in this byte order.
    #[must_use]
    pub fn bytes_of_u16(self, value: u16) -> (r: [u8; 2])
        ensures
            r@ == self.layout(value as nat, 2),
    {
        let b: Vec<u8> = self.bytes_of(value as u128, 2);
        let r: [u8; 2] = [b[0], b[1]];
        assert(r@ =~= b@);
        r
    }

    /// Returns the bytes of a `u32` in this byte order.
    #[must_use]
    pub fn bytes_of_u32(self, value: u32) -> (r: [u8; 4])
        ensures
            r@ == self.layout(value as nat, 4),
    {
        let b: Vec<u8> = self.bytes_of(value as u128, 4);
        let r: [u8; 4] = [b[0], b[1], b[2], b[3]];
        assert(r@ =~= b@);
        r
    }

    /// Returns the bytes of a `u64` in this byte order.
    #[must_use]
    pub fn bytes_of_u64(self, value: u64) -> (r: [u8; 8])
        ensures
            r@ == self.layout(value as nat, 8),
    {
        let b: Vec<u8> = self.bytes_of(value as u128, 8);
        let r: [u8; 8] = [b[0], b[1], b[2], b[3], b[4], b[5], b[6], b[7]];
        assert(r@ =~= b@);
        r
    }

    /// Returns the bytes of a `u128` in this byte order.
    #[must_use]
    pub fn bytes_of_u128(self, value: u128) -> (r: [u8; 16])
        ensures
            r@ == self.layout(value as nat, 16),
    {
        let b: Vec<u8> = self.bytes_of(value, 16);
        let r: [u8; 16] = [
            b[0],
            b[1],
            b[2],
            b[3],
            b[4],
            b[5],
            b[6],
            b[7],
            b[8],
            b[9],
            b[10],
            b[11],
            b[12],
            b[13],
            b[14],
            b[15],
        ];
        assert(r@ =~= b@);
        r
    }

    /// Reads a number from the first `n` bytes in this order; a shorter slice reads as zero.
    fn read_bytes(self, bytes: &[u8], n: usize) -> (r: u128)
        requires
            n <= 16,
        ensures
            r == self.read(bytes@, n as nat),
            r < bytes::pow256(n as nat),
    {
        proof {
            if bytes@.len() >= n {
                bytes::lemma_le_value_bound(bytes@.take(n as int));
                bytes::lemma_le_value_bound(bytes@.take(n as int).reverse());
            }
            bytes::lemma_le_value_bound(Seq::new(n as nat, |i: int| 0u8));
        }
        if bytes.len() < n {
            return 0;
        }
        let first: &[u8] = vstd::slice::slice_subrange(bytes, 0, n);
        assert(first@ =~= bytes@.take(n as int));
        match self {
            Endianness::Little => join_bytes(first),
            Endianness::Big => {
                let low: Vec<u8> = reversed(first);
                join_bytes(low.as_slice())
            },
        }
    }

    /// Reads a `u16` from the first two bytes in this byte order.
    #[must_use]
    pub fn read_u16(self, bytes: &[u8]) -> (r: u16)
        requires
            bytes@.len() >= 2,
        ensures
            r == self.number(bytes@.take(2)),
    {
        proof {
            bytes::lemma_pow256_values();
        }
        self.read_bytes(bytes, 2) as u16
    }

    /// Reads a `u32` from the first four bytes in this byte order.
    #[must_use]
    pub fn read_u32(self, bytes: &[u8]) -> (r: u32)
        requires
            bytes@.len() >= 4,
        ensures
            r == self.number(bytes@.take(4)),
    {
        proof {
            bytes::lemma_pow256_values();
        }
        self.read_bytes(bytes, 4) as u32
    }

    /// Reads a `u64` from the first eight bytes in this byte order.
    #[must_use]
    pub fn read_u64(self, bytes: &[u8]) -> (r: u64)
        requires
            bytes@.len() >= 8,
        ensures
            r == self.number(bytes@.take(8)),
    {
        proof {
            bytes::lemma_pow256_values();
        }
        self.read_bytes(bytes, 8) as u64
    }

    /// Reads a `u128` from the first sixteen bytes in this byte order.
    #[must_use]
    pub fn read_u128(self, bytes: &[u8]) -> (r: u128)
        requires
            bytes@.len() >= 16,
        ensures
            r == self.number(bytes@.take(16)),
    {
        self.read_bytes(bytes, 16)
    }

    /// Returns the bytes of a value masked to the pointer width, in this byte order.
    #[must_use]
    pub fn bytes_of_ptr_sized(self, value: u64, ptr_size: PointerSize) -> (r: Vec<u8>)
        ensures
            r@ == self.layout(value as nat, (ptr_size.width() / 8) as nat),
    {
        self.bytes_of(value as u128, ptr_size.bytes())
    }

    /// Reads a pointer-sized unsigned value, cut to its low 64 bits.
    ///
    /// The pointer is read from the first bytes, as many as it has; a slice with fewer reads as
    /// zero.
    #[must_use]
    pub fn read_ptr_sized(self, bytes: &[u8], ptr_size: PointerSize) -> (r: u64)
        ensures
            r == (match ptr_size {
                PointerSize::Bit8 => if bytes@.len() > 0 {
                    bytes@[0] as nat
                } else {
                    0
                },
                _ => self.read(bytes@, (ptr_size.width() / 8) as nat) % bytes::pow256(8),
            }),
    {
        proof {
            bytes::lemma_pow256_values();
        }
        match ptr_size {
            PointerSize::Bit8 => if bytes.len() > 0 {
                bytes[0] as u64
            } else {
                0
            },
            _ => {
                let wide: u128 = self.read_bytes(bytes, ptr_size.bytes());
                (wide % 0x1_0000_0000_0000_0000) as u64
            },
        }
    }
}

/// Laying out a number and reading the bytes back gives the number, in either byte order.
pub proof fn read_inverts_layout(order: Endianness, v: nat, n: nat)
    requires
        v < bytes::pow256(n),
    ensures
        order.layout(v, n).len() == n,
        order.read(order.layout(v, n), n) == v,
{
    bytes::lemma_le_bytes_len(v, n);
    bytes::lemma_value_of_bytes(v, n);
    assert(bytes::le_bytes(v, n).reverse().reverse() =~= bytes::le_bytes(v, n));
    assert(order.layout(v, n).take(n as int) =~= order.layout(v, n));
}

/// Reading bytes and laying the number out again gives the bytes, in either byte order.
pub proof fn layout_inverts_read(order: Endianness, b: Seq<u8>)
    ensures
        order.layout(order.number(b), b.len()) =~= b,
{
    bytes::lemma_bytes_of_value(b);
    bytes::lemma_bytes_of_value(b.reverse());
    assert(b.reverse().reverse() =~= b);
}

/// On one machine, converting to the machine's order and back gives the number.
pub proof fn conversion_round_trip(order: Endianness, host: Endianness, v: nat, n: nat)
    requires
        v < bytes::pow256(n),
    ensures
        order.converted(host, order.converted(host, v, n), n) == v,
        order.converted(host, v, n) < bytes::pow256(n),
{
    bytes::lemma_swapped_twice(v, n);
}

/// The two byte orders are mirror images of each other.
pub proof fn big_is_reversed_little(v: nat, n: nat)
    ensures
        Endianness::Big.layout(v, n) == Endianness::Little.layout(v, n).reverse(),
{
}

/// On one machine, what the two orders make of a number are each other's bytes reversed.
pub proof fn orders_convert_to_swapped(host: Endianness, v: nat, n: nat)
    requires
        v < bytes::pow256(n),
    ensures
        Endianness::Big.converted(host, v, n) == bytes::swapped(
            Endianness::Little.converted(host, v, n),
            n,
        ),
        Endianness::Little.converted(host, v, n) == bytes::swapped(
            Endianness::Big.converted(host, v, n),
            n,
        ),
{
    bytes::lemma_swapped_twice(v, n);
}

} // verus!
