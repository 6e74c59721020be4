//! In what order a signal's bits are read out of a message's data.
use vstd::prelude::*;
use vstd::arithmetic::power2::{lemma2_to64, lemma_pow2_adds, lemma_pow2_unfold, pow2};

use crate::signal::{big_endian_value, data_bit, little_endian_value, raw_bits, ByteOrder};

verus! {

/// A Motorola read with a running value `acc` is that value shifted past the
/// bits read, plus what the bits alone are worth.
proof fn lemma_big_endian_acc(data: Seq<u8>, p: int, n: nat, acc: nat)
    ensures
        big_endian_value(data, p, n, acc) == acc * pow2(n) + big_endian_value(data, p, n, 0),
    decreases n,
{
    if n == 0 {
        lemma2_to64();
    } else {
        let b = data_bit(data, p);
        let q = crate::signal::motorola_next(p);
        lemma_big_endian_acc(data, q, (n - 1) as nat, 2 * acc + b);
        lemma_big_endian_acc(data, q, (n - 1) as nat, b);
        lemma_pow2_unfold(n);
        let m = pow2((n - 1) as nat);
        assert((2 * acc + b) * m == acc * (2 * m) + b * m) by (nonlinear_arith);
        assert(big_endian_value(data, p, n, acc) == big_endian_value(
            data,
            q,
            (n - 1) as nat,
            2 * acc + b,
        ));
        assert(big_endian_value(data, p, n, 0) == big_endian_value(data, q, (n - 1) as nat, 2 * 0
            + b));
        assert(2 * 0 + b == b);
    }
}

/// Motorola order, one bit at a time: the first bit read is the most
/// significant; within a byte the read goes from a bit to the next lower
/// bit, and after bit 0 of byte `k` it goes on with bit 7 of byte `k + 1`.
pub proof fn lemma_big_endian_next_bit(data: Seq<u8>, k: int, b: int, n: nat)
    requires
        0 <= k,
        0 <= b < 8,
    ensures
        b > 0 ==> raw_bits(ByteOrder::BigEndian, data, 8 * k + b, n + 1) == data_bit(
            data,
            8 * k + b,
        ) * pow2(n) + raw_bits(ByteOrder::BigEndian, data, 8 * k + b - 1, n),
        b == 0 ==> raw_bits(ByteOrder::BigEndian, data, 8 * k, n + 1) == data_bit(data, 8 * k)
            * pow2(n) + raw_bits(ByteOrder::BigEndian, data, 8 * (k + 1) + 7, n),
{
    let p = 8 * k + b;
    assert(p % 8 == b);
    let q = crate::signal::motorola_next(p);
    if b == 0 {
        assert(q == 8 * (k + 1) + 7);
    } else {
        assert(q == p - 1);
    }
    lemma_big_endian_acc(data, q, n, data_bit(data, p));
}

/// The unsigned big-endian integer of the `m` bytes of `data` from byte `k`
/// (a byte past the data counts as 0): the first byte is the most
/// significant.
pub open spec fn big_endian_bytes(data: Seq<u8>, k: int, m: nat) -> nat
    decreases m,
{
    if m == 0 {
        0
    } else {
        (if 0 <= k < data.len() {
            data[k] as nat
        } else {
            0
        }) * pow2((8 * (m - 1)) as nat) + big_endian_bytes(data, k + 1, (m - 1) as nat)
    }
}

/// The eight bits of a byte, most significant first, make the byte.
proof fn lemma_byte_bits(x: u8)
    ensures
        x as nat == ((x >> 7u8) & 1u8) as nat * 128 + ((x >> 6u8) & 1u8) as nat * 64 + ((x >> 5u8)
            & 1u8) as nat * 32 + ((x >> 4u8) & 1u8) as nat * 16 + ((x >> 3u8) & 1u8) as nat * 8
            + ((x >> 2u8) & 1u8) as nat * 4 + ((x >> 1u8) & 1u8) as nat * 2 + ((x >> 0u8) & 1u8)
            as nat,
{
    assert(x == ((x >> 7u8) & 1u8) * 128 + ((x >> 6u8) & 1u8) * 64 + ((x >> 5u8) & 1u8) * 32 + ((x
        >> 4u8) & 1u8) * 16 + ((x >> 3u8) & 1u8) * 8 + ((x >> 2u8) & 1u8) * 4 + ((x >> 1u8) & 1u8)
        * 2 + ((x >> 0u8) & 1u8)) by (bit_vector);
}

/// A Motorola read of a whole byte, from its bit 7, is the byte.
proof fn lemma_big_endian_byte(data: Seq<u8>, k: int)
    requires
        0 <= k,
    ensures
        raw_bits(ByteOrder::BigEndian, data, 8 * k + 7, 8) == (if k < data.len() {
            data[k] as nat
        } else {
            0
        }),
{
    lemma2_to64();
    assert forall|i: int| 0 <= i <= 7 implies (#[trigger] (8 * k + i)) / 8 == k && (8 * k + i) % 8
        == i by {
    }
    reveal_with_fuel(big_endian_value, 9);
    assert(8 * k + 7 - 7 == 8 * k);
    assert((8 * k) % 8 == 0);
    if k < data.len() {
        let x = data[k];
        lemma_byte_bits(x);
        assert(data_bit(data, 8 * k + 7) == ((x >> 7u8) & 1u8) as nat);
        assert(data_bit(data, 8 * k + 6) == ((x >> 6u8) & 1u8) as nat);
        assert(data_bit(data, 8 * k + 5) == ((x >> 5u8) & 1u8) as nat);
        assert(data_bit(data, 8 * k + 4) == ((x >> 4u8) & 1u8) as nat);
        assert(data_bit(data, 8 * k + 3) == ((x >> 3u8) & 1u8) as nat);
        assert(data_bit(data, 8 * k + 2) == ((x >> 2u8) & 1u8) as nat);
        assert(data_bit(data, 8 * k + 1) == ((x >> 1u8) & 1u8) as nat);
        assert(data_bit(data, 8 * k) == ((x >> 0u8) & 1u8) as nat);
    }
}


/// Where a Motorola read stands after `n` bits from bit `p`.
spec fn motorola_walk(p: int, n: nat) -> int
    decreases n,
{
    if n == 0 {
        p
    } else {
        motorola_walk(crate::signal::motorola_next(p), (n - 1) as nat)
    }
}

/// Reading `n1 + n2` bits is reading `n1` bits, then `n2` more from where
/// the first read stopped.
proof fn lemma_big_endian_split(data: Seq<u8>, p: int, n1: nat, n2: nat, acc: nat)
    ensures
        big_endian_value(data, p, n1 + n2, acc) == big_endian_value(
            data,
            motorola_walk(p, n1),
            n2,
            big_endian_value(data, p, n1, acc),
        ),
    decreases n1,
{
    if n1 > 0 {
        let q = crate::signal::motorola_next(p);
        lemma_big_endian_split(data, q, (n1 - 1) as nat, n2, 2 * acc + data_bit(data, p));
        assert((n1 + n2 - 1) as nat == ((n1 - 1) as nat + n2) as nat);
    }
}

/// Eight bits from bit 7 of byte `k` end at bit 7 of byte `k + 1`.
proof fn lemma_walk_byte(k: int)
    requires
        0 <= k,
    ensures
        motorola_walk(8 * k + 7, 8) == 8 * (k + 1) + 7,
{
    reveal_with_fuel(motorola_walk, 9);
    assert forall|i: int| 1 <= i <= 7 implies (#[trigger] (8 * k + i)) % 8 == i by {
    }
    assert((8 * k) % 8 == 0);
}

/// A Motorola read of whole bytes, from bit 7 of byte `k`, is the big-endian
/// integer of those bytes.
pub proof fn lemma_big_endian_whole_bytes(data: Seq<u8>, k: int, m: nat)
    requires
        0 <= k,
    ensures
        raw_bits(ByteOrder::BigEndian, data, 8 * k + 7, 8 * m) == big_endian_bytes(data, k, m),
    decreases m,
{
    if m > 0 {
        let rest = (8 * (m - 1)) as nat;
        lemma_big_endian_whole_bytes(data, k + 1, (m - 1) as nat);
        lemma_big_endian_split(data, 8 * k + 7, 8, rest, 0);
        assert((8 * m) as nat == (8 + rest) as nat);
        lemma_walk_byte(k);
        lemma_big_endian_byte(data, k);
        let first = big_endian_value(data, 8 * k + 7, 8, 0);
        lemma_big_endian_acc(data, 8 * (k + 1) + 7, rest, first);
        assert(8 * (k + 1) + 7 == 8 * k + 15);
    }
}


/// The unsigned little-endian integer of the `m` bytes of `data` from byte
/// `k` (a byte past the data counts as 0): the first byte is the least
/// significant.
pub open spec fn little_endian_bytes(data: Seq<u8>, k: int, m: nat) -> nat
    decreases m,
{
    if m == 0 {
        0
    } else {
        (if 0 <= k < data.len() {
            data[k] as nat
        } else {
            0
        }) + 256 * little_endian_bytes(data, k + 1, (m - 1) as nat)
    }
}

/// An Intel read of bits `a..c` is the read of `a..b` plus the read of
/// `b..c` shifted past the first part.
proof fn lemma_little_endian_split(data: Seq<u8>, a: int, b: int, c: int)
    requires
        a <= b <= c,
    ensures
        little_endian_value(data, a, c) == little_endian_value(data, a, b) + pow2((b - a) as nat)
            * little_endian_value(data, b, c),
    decreases b - a,
{
    if a == b {
        lemma2_to64();
        assert(little_endian_value(data, a, b) == 0);
        assert(pow2((b - a) as nat) == 1);
    } else {
        lemma_little_endian_split(data, a + 1, b, c);
        lemma_pow2_unfold((b - a) as nat);
        let m = pow2((b - a - 1) as nat);
        let x = little_endian_value(data, a + 1, b);
        let y = little_endian_value(data, b, c);
        let d = data_bit(data, a);
        assert(2 * (x + m * y) == 2 * x + (2 * m) * y) by (nonlinear_arith);
        assert(((b - a) as nat - 1) as nat == (b - a - 1) as nat);
        assert(pow2((b - a) as nat) == 2 * m);
        assert(little_endian_value(data, a, c) == d + 2 * little_endian_value(data, a + 1, c));
        assert(little_endian_value(data, a, b) == d + 2 * x);
        assert(little_endian_value(data, a + 1, c) == x + m * y);
        assert(pow2((b - a) as nat) * y == (2 * m) * y);
        assert(d + 2 * x + (2 * m) * y == d + 2 * (x + m * y));
    }
}

/// An Intel read of a whole byte, from its bit 0, is the byte.
proof fn lemma_little_endian_byte(data: Seq<u8>, k: int)
    requires
        0 <= k,
    ensures
        little_endian_value(data, 8 * k, 8 * k + 8) == (if k < data.len() {
            data[k] as nat
        } else {
            0
        }),
{
    assert forall|i: int| 0 <= i <= 7 implies (#[trigger] (8 * k + i)) / 8 == k && (8 * k + i) % 8
        == i by {
    }
    reveal_with_fuel(little_endian_value, 9);
    assert((8 * k) % 8 == 0 && (8 * k) / 8 == k);
    if k < data.len() {
        let x = data[k];
        lemma_byte_bits(x);
        assert(data_bit(data, 8 * k + 7) == ((x >> 7u8) & 1u8) as nat);
        assert(data_bit(data, 8 * k + 6) == ((x >> 6u8) & 1u8) as nat);
        assert(data_bit(data, 8 * k + 5) == ((x >> 5u8) & 1u8) as nat);
        assert(data_bit(data, 8 * k + 4) == ((x >> 4u8) & 1u8) as nat);
        assert(data_bit(data, 8 * k + 3) == ((x >> 3u8) & 1u8) as nat);
        assert(data_bit(data, 8 * k + 2) == ((x >> 2u8) & 1u8) as nat);
        assert(data_bit(data, 8 * k + 1) == ((x >> 1u8) & 1u8) as nat);
        assert(data_bit(data, 8 * k) == ((x >> 0u8) & 1u8) as nat);
    }
}

/// An Intel read of whole bytes, from bit 0 of byte `k`, is the
/// little-endian integer of those bytes: bit `8k + i` is worth `2^i`, and
/// the read goes from byte `k` on to byte `k + 1`.
pub proof fn lemma_little_endian_whole_bytes(data: Seq<u8>, k: int, m: nat)
    requires
        0 <= k,
    ensures
        raw_bits(ByteOrder::LittleEndian, data, 8 * k, 8 * m) == little_endian_bytes(data, k, m),
    decreases m,
{
    if m > 0 {
        lemma_little_endian_whole_bytes(data, k + 1, (m - 1) as nat);
        lemma_little_endian_split(data, 8 * k, 8 * k + 8, 8 * k + 8 * m);
        lemma_little_endian_byte(data, k);
        lemma2_to64();
        assert(8 * (k + 1) == 8 * k + 8);
        assert(8 * ((m - 1) as nat) == 8 * m - 8);
        assert(8 * k + 8 + 8 * ((m - 1) as nat) == 8 * k + 8 * m);
    }
}

} // verus!
