//! Byte layout of unsigned integers.
use vstd::prelude::*;

verus! {

/// `256` to the power `n`.
pub open spec fn pow256(n: nat) -> nat
    decreases n,
{
    if n == 0 {
        1
    } else {
        256 * pow256((n - 1) as nat)
    }
}

/// The `n` low bytes of `v`, least significant first.
pub open spec fn le_bytes(v: nat, n: nat) -> Seq<u8>
    decreases n,
{
    if n == 0 {
        Seq::empty()
    } else {
        seq![(v % 256) as u8] + le_bytes(v / 256, (n - 1) as nat)
    }
}

/// The number whose bytes are `b`, least significant first.
pub open spec fn le_value(b: Seq<u8>) -> nat
    decreases b.len(),
{
    if b.len() == 0 {
        0
    } else {
        b[0] as nat + 256 * le_value(b.drop_first())
    }
}

/// The number obtained from the `n` low bytes of `v` read in reverse.
pub open spec fn swapped(v: nat, n: nat) -> nat {
    le_value(le_bytes(v, n).reverse())
}

pub proof fn lemma_le_bytes_len(v: nat, n: nat)
    ensures
        le_bytes(v, n).len() == n,
    decreases n,
{
    if n > 0 {
        lemma_le_bytes_len(v / 256, (n - 1) as nat);
    }
}

pub proof fn lemma_le_value_bound(b: Seq<u8>)
    ensures
        le_value(b) < pow256(b.len()),
    decreases b.len(),
{
    if b.len() > 0 {
        lemma_le_value_bound(b.drop_first());
    }
}

/// Reading back the bytes of a number gives the number modulo the range of its width.
pub proof fn lemma_value_of_bytes(v: nat, n: nat)
    ensures
        v < pow256(n) ==> le_value(le_bytes(v, n)) == v,
    decreases n,
{
    if n > 0 {
        let rest = le_bytes(v / 256, (n - 1) as nat);
        lemma_value_of_bytes(v / 256, (n - 1) as nat);
        assert(le_bytes(v, n).drop_first() =~= rest);
        assert(le_bytes(v, n)[0] == (v % 256) as u8);
    }
}

/// The bytes of the number that a byte sequence stands for are that sequence.
pub proof fn lemma_bytes_of_value(b: Seq<u8>)
    ensures
        le_bytes(le_value(b), b.len()) =~= b,
    decreases b.len(),
{
    if b.len() > 0 {
        let rest = b.drop_first();
        lemma_bytes_of_value(rest);
        let v = le_value(b);
        assert(v % 256 == b[0] as nat);
        assert(v / 256 == le_value(rest));
        assert(le_bytes(v, b.len()) =~= seq![b[0]] + rest);
    }
}

/// Swapping the bytes of a number twice gives the number back.
pub proof fn lemma_swapped_twice(v: nat, n: nat)
    requires
        v < pow256(n),
    ensures
        swapped(swapped(v, n), n) == v,
        swapped(v, n) < pow256(n),
{
    lemma_le_bytes_len(v, n);
    let b = le_bytes(v, n).reverse();
    lemma_bytes_of_value(b);
    lemma_le_value_bound(b);
    assert(b.reverse() =~= le_bytes(v, n));
    lemma_value_of_bytes(v, n);
}

/// Concrete ranges of the supported widths.
pub proof fn lemma_pow256_values()
    ensures
        pow256(1) == 0x100,
        pow256(2) == 0x1_0000,
        pow256(4) == 0x1_0000_0000,
        pow256(8) == 0x1_0000_0000_0000_0000,
        pow256(16) == 0x1_0000_0000_0000_0000nat * 0x1_0000_0000_0000_0000nat,
{
    reveal_with_fuel(pow256, 17);
}

proof fn lemma_pow256_monotonic(m: nat, n: nat)
    requires
        m <= n,
    ensures
        0 < pow256(m) <= pow256(n),
    decreases n,
{
    if m < n {
        lemma_pow256_monotonic(m, (n - 1) as nat);
    } else if n > 0 {
        lemma_pow256_monotonic((m - 1) as nat, (n - 1) as nat);
    }
}

/// Splits off the `n` low bytes of `value`, least significant first.
pub fn split_bytes(value: u128, n: usize) -> (r: Vec<u8>)
    ensures
        r@ == le_bytes(value as nat, n as nat),
{
    let mut r: Vec<u8> = Vec::new();
    let mut rest: u128 = value;
    let mut i: usize = 0;
    while i < n
        invariant
            i <= n,
            r@ + le_bytes(rest as nat, (n - i) as nat) =~= le_bytes(value as nat, n as nat),
        decreases n - i,
    {
        proof {
            assert(le_bytes(rest as nat, (n - i) as nat) == seq![(rest % 256) as u8] + le_bytes(
                rest as nat / 256,
                (n - i - 1) as nat,
            ));
        }
        r.push((rest % 256) as u8);
        rest = rest / 256;
        i = i + 1;
    }
    r
}

/// Reads the number whose bytes are `bytes`, least significant first.
pub fn join_bytes(bytes: &[u8]) -> (r: u128)
    requires
        bytes@.len() <= 16,
    ensures
        r == le_value(bytes@),
{
    let n: usize = bytes.len();
    let mut i: usize = n;
    let mut acc: u128 = 0;
    while i > 0
        invariant
            n == bytes@.len(),
            n <= 16,
            i <= n,
            acc == le_value(bytes@.subrange(i as int, n as int)),
        decreases i,
    {
        i = i - 1;
        proof {
            let s = bytes@.subrange(i as int, n as int);
            assert(s.drop_first() =~= bytes@.subrange(i + 1, n as int));
            lemma_le_value_bound(s);
            lemma_pow256_monotonic(s.len(), 16);
            lemma_pow256_values();
        }
        acc = acc * 256 + bytes[i] as u128;
    }
    assert(bytes@.subrange(0, n as int) =~= bytes@);
    acc
}

/// Reverses a byte sequence.
pub fn reversed(bytes: &[u8]) -> (r: Vec<u8>)
    ensures
        r@ == bytes@.reverse(),
{
    let mut r: Vec<u8> = Vec::new();
    let n: usize = bytes.len();
    let mut i: usize = 0;
    while i < n
        invariant
            n == bytes@.len(),
            i <= n,
            r@ == bytes@.reverse().subrange(0, i as int),
        decreases n - i,
    {
        r.push(bytes[n - 1 - i]);
        i = i + 1;
    }
    assert(bytes@.reverse().subrange(0, n as int) =~= bytes@.reverse());
    r
}

/// Swaps the `n` low bytes of `value`.
pub fn swap_bytes(value: u128, n: usize) -> (r: u128)
    requires
        n <= 16,
    ensures
        r == swapped(value as nat, n as nat),
        r < pow256(n as nat),
{
    let low: Vec<u8> = split_bytes(value, n);
    let high: Vec<u8> = reversed(low.as_slice());
    proof {
        lemma_le_bytes_len(value as nat, n as nat);
        lemma_le_value_bound(high@);
    }
    join_bytes(high.as_slice())
}

} // verus!
