//! Bytes read as numbers, numbers written as bytes, and both modulo the order of a field.

use vstd::prelude::*;
use vstd::arithmetic::div_mod::{
    lemma_add_mod_noop,
    lemma_fundamental_div_mod,
    lemma_mod_bound,
    lemma_mul_mod_noop_right,
    lemma_small_mod,
};
use vstd::arithmetic::power::{lemma_pow0, lemma_pow_increases, pow};
use vstd::arithmetic::power2::{lemma2_to64, lemma_pow2_unfold, pow2};

verus! {

/// The number that `bytes` spell, least significant byte first.
pub open spec fn le_value(bytes: Seq<u8>) -> nat
    decreases bytes.len(),
{
    if bytes.len() == 0 {
        0
    } else {
        bytes[0] as nat + 256 * le_value(bytes.drop_first())
    }
}

/// The number that `bytes` spell, most significant byte first.
pub open spec fn be_value(bytes: Seq<u8>) -> nat
    decreases bytes.len(),
{
    if bytes.len() == 0 {
        0
    } else {
        256 * be_value(bytes.drop_last()) + bytes.last() as nat
    }
}

/// The `count` least significant bytes of `value`, least significant byte first.
pub open spec fn le_bytes(value: nat, count: nat) -> Seq<u8>
    decreases count,
{
    if count == 0 {
        Seq::empty()
    } else {
        seq![(value % 256) as u8] + le_bytes(value / 256, (count - 1) as nat)
    }
}

/// The number of binary digits of `value`.
pub open spec fn bit_length(value: nat) -> nat
    decreases value,
{
    if value == 0 {
        0
    } else {
        1 + bit_length(value / 2)
    }
}

/// The decimal digits of `value`, as ASCII bytes, most significant digit first.
pub open spec fn decimal(value: nat) -> Seq<u8>
    decreases value,
{
    let digit = (48 + value % 10) as u8;
    if value < 10 {
        seq![digit]
    } else {
        decimal(value / 10).push(digit)
    }
}

/// `le_bytes` writes exactly as many bytes as it is asked for.
pub proof fn lemma_le_bytes_len(value: nat, count: nat)
    ensures
        le_bytes(value, count).len() == count,
    decreases count,
{
    if count > 0 {
        lemma_le_bytes_len(value / 256, (count - 1) as nat);
    }
}

/// Reading back `count` bytes of a number below `256^count` gives the number.
pub proof fn lemma_le_round_trip(value: nat, count: nat)
    requires
        value < pow(256, count),
    ensures
        le_value(le_bytes(value, count)) == value,
    decreases count,
{
    if count == 0 {
        lemma_pow0(256);
    } else {
        let rest = (count - 1) as nat;
        let bytes = le_bytes(value, count);
        reveal(pow);
        assert(pow(256, count) == 256 * pow(256, rest));
        lemma_fundamental_div_mod(value as int, 256);
        assert(value / 256 < pow(256, rest));
        lemma_le_round_trip(value / 256, rest);
        assert(bytes.drop_first() =~= le_bytes(value / 256, rest));
    }
}

/// Writing the number that some bytes spell gives those bytes back.
pub proof fn lemma_le_spells(bytes: Seq<u8>)
    ensures
        le_bytes(le_value(bytes), bytes.len()) == bytes,
    decreases bytes.len(),
{
    if bytes.len() > 0 {
        let tail = bytes.drop_first();
        lemma_le_spells(tail);
        assert(le_value(bytes) % 256 == bytes[0] && le_value(bytes) / 256 == le_value(tail));
        assert(seq![bytes[0]] + tail =~= bytes);
    }
}

/// A number that `count` bytes spell is below `256^count`.
pub proof fn lemma_le_value_bound(bytes: Seq<u8>)
    ensures
        le_value(bytes) < pow(256, bytes.len()),
    decreases bytes.len(),
{
    reveal(pow);
    if bytes.len() > 0 {
        lemma_le_value_bound(bytes.drop_first());
    }
}

/// A big-endian number of `count` bytes is below `256^count`.
proof fn lemma_be_value_bound(bytes: Seq<u8>)
    ensures
        be_value(bytes) < pow(256, bytes.len()),
    decreases bytes.len(),
{
    reveal(pow);
    if bytes.len() > 0 {
        lemma_be_value_bound(bytes.drop_last());
    }
}

/// Shifting a residue by one byte agrees with shifting the number itself.
proof fn lemma_shift_residue(value: nat, byte: nat, modulus: nat)
    requires
        modulus > 0,
    ensures
        (256 * (value % modulus) + byte) % modulus == (256 * value + byte) % modulus,
{
    let m = modulus as int;
    lemma_mul_mod_noop_right(256, value as int, m);
    lemma_add_mod_noop(256 * (value % modulus) as int, byte as int, m);
    lemma_add_mod_noop(256 * value as int, byte as int, m);
}

/// Takes one more byte into a residue.
fn shift_residue(residue: u64, byte: u8, modulus: u64) -> (shifted: u64)
    requires
        residue < modulus,
    ensures
        shifted == (256 * residue + byte) % modulus as int,
        shifted < modulus,
{
    let wide: u128 = residue as u128 * 256 + byte as u128;
    proof {
        lemma_mod_bound(wide as int, modulus as int);
    }
    (wide % modulus as u128) as u64
}

/// Reads `bytes` as a little-endian number and reduces it modulo `modulus`.
pub fn from_le_bytes_mod_order(bytes: &[u8], modulus: u64) -> (residue: u64)
    requires
        modulus > 0,
    ensures
        residue == le_value(bytes@) % modulus as nat,
        residue < modulus,
{
    let mut residue: u64 = 0;
    let mut i: usize = bytes.len();
    proof {
        lemma_small_mod(0, modulus as nat);
        assert(bytes@.skip(i as int) =~= Seq::<u8>::empty());
    }
    while i > 0
        invariant
            modulus > 0,
            i <= bytes@.len(),
            residue < modulus,
            residue == le_value(bytes@.skip(i as int)) % modulus as nat,
        decreases i,
    {
        let ghost tail = bytes@.skip(i as int);
        i -= 1;
        proof {
            assert(bytes@.skip(i as int).drop_first() =~= tail);
            lemma_shift_residue(le_value(tail), bytes@[i as int] as nat, modulus as nat);
        }
        residue = shift_residue(residue, bytes[i], modulus);
    }
    assert(bytes@.skip(0) =~= bytes@);
    residue
}

/// Reads `bytes` as a big-endian number and reduces it modulo `modulus`.
pub fn from_be_bytes_mod_order(bytes: &[u8], modulus: u64) -> (residue: u64)
    requires
        modulus > 0,
    ensures
        residue == be_value(bytes@) % modulus as nat,
        residue < modulus,
{
    let mut residue: u64 = 0;
    let mut i: usize = 0;
    proof {
        lemma_small_mod(0, modulus as nat);
        assert(bytes@.take(0) =~= Seq::<u8>::empty());
    }
    while i < bytes.len()
        invariant
            modulus > 0,
            i <= bytes@.len(),
            residue < modulus,
            residue == be_value(bytes@.take(i as int)) % modulus as nat,
        decreases bytes@.len() - i,
    {
        let ghost head = bytes@.take(i as int);
        proof {
            assert(bytes@.take(i + 1).drop_last() =~= head);
            lemma_shift_residue(be_value(head), bytes@[i as int] as nat, modulus as nat);
        }
        residue = shift_residue(residue, bytes[i], modulus);
        i += 1;
    }
    assert(bytes@.take(i as int) =~= bytes@);
    residue
}

/// The big-endian number that eight bytes spell.
pub fn u64_from_be_bytes(bytes: &[u8; 8]) -> (value: u64)
    ensures
        value == be_value(bytes@),
{
    let mut value: u64 = 0;
    let mut i: usize = 0;
    assert(bytes@.take(0) =~= Seq::<u8>::empty());
    while i < 8
        invariant
            i <= 8,
            value == be_value(bytes@.take(i as int)),
        decreases 8 - i,
    {
        let ghost head = bytes@.take(i as int);
        proof {
            assert(bytes@.take(i + 1).drop_last() =~= head);
            lemma_be_value_bound(bytes@.take(i + 1));
            lemma_pow_256();
            lemma_pow_increases(256, (i + 1) as nat, 8);
        }
        value = 256 * value + bytes[i] as u64;
        i += 1;
    }
    assert(bytes@.take(8) =~= bytes@);
    value
}

/// The powers of 256 that machine words come to.
pub proof fn lemma_pow_256()
    ensures
        pow(256, 4) == 0x1_0000_0000,
        pow(256, 8) == 0x1_0000_0000_0000_0000,
{
    reveal_with_fuel(pow, 9);
    assert(pow(256, 4) == 0x1_0000_0000) by {
        assert(pow(256, 1) == 256);
        assert(pow(256, 2) == 0x1_0000);
        assert(pow(256, 3) == 0x100_0000);
    }
    assert(pow(256, 5) == 0x100_0000_0000);
    assert(pow(256, 6) == 0x1_0000_0000_0000);
    assert(pow(256, 7) == 0x100_0000_0000_0000);
}

/// The little-endian number that four bytes spell.
pub fn u32_from_le_bytes(bytes: &[u8]) -> (value: u32)
    requires
        bytes@.len() == 4,
    ensures
        value == le_value(bytes@),
{
    let mut value: u32 = 0;
    let mut i: usize = 4;
    assert(bytes@.skip(4) =~= Seq::<u8>::empty());
    while i > 0
        invariant
            i <= 4,
            bytes@.len() == 4,
            value == le_value(bytes@.skip(i as int)),
        decreases i,
    {
        let ghost tail = bytes@.skip(i as int);
        i -= 1;
        proof {
            assert(bytes@.skip(i as int).drop_first() =~= tail);
            lemma_le_value_bound(bytes@.skip(i as int));
            lemma_pow_256();
            lemma_pow_increases(256, (4 - i) as nat, 4);
        }
        value = bytes[i] as u32 + 256 * value;
    }
    assert(bytes@.skip(0) =~= bytes@);
    value
}

/// Appends the `count` least significant bytes of `value`, least significant byte first.
pub fn push_le_bytes(output: &mut Vec<u8>, value: u64, count: usize)
    ensures
        final(output)@ == old(output)@ + le_bytes(value as nat, count as nat),
{
    let mut rest: u64 = value;
    let mut left: usize = count;
    while left > 0
        invariant
            left <= count,
            output@ + le_bytes(rest as nat, left as nat) == old(output)@ + le_bytes(
                value as nat,
                count as nat,
            ),
        decreases left,
    {
        let ghost before = output@;
        let byte: u8 = (rest % 256) as u8;
        output.push(byte);
        proof {
            let tail = le_bytes(rest as nat / 256, (left - 1) as nat);
            assert(before + (seq![byte] + tail) =~= before.push(byte) + tail);
        }
        rest = rest / 256;
        left -= 1;
    }
    assert(output@ + Seq::<u8>::empty() =~= output@);
}

/// Appends the decimal digits of `value`.
pub fn push_decimal(output: &mut Vec<u8>, value: usize)
    ensures
        final(output)@ == old(output)@ + decimal(value as nat),
    decreases value,
{
    let ghost before = output@;
    if value >= 10 {
        push_decimal(output, value / 10);
    }
    let digit: u8 = 48 + (value % 10) as u8;
    output.push(digit);
    assert(output@ =~= before + decimal(value as nat));
}

/// The number of binary digits of `value`.
pub fn bit_length_u64(value: u64) -> (bits: u32)
    ensures
        bits == bit_length(value as nat),
        bits <= 64,
{
    let mut rest: u64 = value;
    let mut bits: u32 = 0;
    proof {
        lemma2_to64();
        lemma_bit_length_bound(value as nat, 64);
    }
    while rest > 0
        invariant
            bits + bit_length(rest as nat) == bit_length(value as nat),
            bit_length(value as nat) <= 64,
        decreases rest,
    {
        rest = rest / 2;
        bits += 1;
    }
    bits
}

/// A number below `2^bits` has at most `bits` binary digits.
proof fn lemma_bit_length_bound(value: nat, bits: nat)
    requires
        value < pow2(bits),
    ensures
        bit_length(value) <= bits,
    decreases bits,
{
    if bits == 0 {
        lemma2_to64();
    } else {
        lemma_pow2_unfold(bits);
        if value > 0 {
            lemma_bit_length_bound(value / 2, (bits - 1) as nat);
        }
    }
}

/// The bytes that an element of a field of `modulus_bits` bits takes on the wire.
pub open spec fn spec_bytes_modp(modulus_bits: nat) -> nat {
    (modulus_bits + 7) / 8
}

/// The bytes that give an almost uniform element of a field of `modulus_bits` bits: 128 bits more
/// than the order has, rounded down to whole bytes.
pub open spec fn spec_bytes_uniform_modp(modulus_bits: nat) -> nat {
    (modulus_bits + 128) / 8
}

/// See [`spec_bytes_modp`].
pub fn bytes_modp(modulus_bits: u32) -> (count: usize)
    ensures
        count == spec_bytes_modp(modulus_bits as nat),
{
    ((modulus_bits as u64 + 7) / 8) as usize
}

/// See [`spec_bytes_uniform_modp`].
pub fn bytes_uniform_modp(modulus_bits: u32) -> (count: usize)
    ensures
        count == spec_bytes_uniform_modp(modulus_bits as nat),
{
    ((modulus_bits as u64 + 128) / 8) as usize
}

} // verus!
