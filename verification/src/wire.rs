//! The wire format, stated over natural numbers and byte sequences.
//!
//! A varint is a run of bytes with the high bit set, closed by one byte with
//! the high bit clear. The low seven bits of byte `i` weigh `128^i`.

use vstd::prelude::*;
use vstd::arithmetic::power2::{pow2, lemma2_to64, lemma_pow2_adds, lemma_pow2_pos};

verus! {

/// Number of bytes in the encoding of `v`: one for every started group of
/// seven bits, and one for zero.
pub open spec fn encoded_len(v: nat) -> nat
    decreases v,
{
    if v < 128 {
        1
    } else {
        1 + encoded_len(v / 128)
    }
}

/// The encoding of `v`: its groups of seven bits from the least significant
/// up, each but the last with the high bit set.
pub open spec fn encoding(v: nat) -> Seq<u8>
    decreases v,
{
    if v < 128 {
        seq![v as u8]
    } else {
        seq![(128 + v % 128) as u8] + encoding(v / 128)
    }
}

/// Number of bytes at the head of `s` that have the high bit set. Where it is
/// below `s.len()` it is the index of the byte that closes the first varint
/// of `s`.
pub open spec fn continuation_run(s: Seq<u8>) -> nat
    decreases s.len(),
{
    if s.len() > 0 && s[0] >= 0x80 {
        1 + continuation_run(s.skip(1))
    } else {
        0
    }
}

/// The number carried by the first varint of `s`: the sum of the low seven
/// bits of byte `i` times `128^i`, up to the closing byte.
pub open spec fn decoded_value(s: Seq<u8>) -> nat
    decreases s.len(),
{
    if s.len() == 0 {
        0
    } else if s[0] < 0x80 {
        s[0] as nat
    } else {
        (s[0] - 0x80) as nat + 128 * decoded_value(s.skip(1))
    }
}

/// The last byte index at which a value of `bits` bits still has bits to
/// contribute: `ceil(bits / 7) - 1`.
pub open spec fn max_byte_index(bits: nat) -> int {
    (bits + 6) / 7 - 1
}

/// Number of payload bits that a value of `bits` bits has left at
/// `max_byte_index(bits)`.
pub open spec fn final_bits(bits: nat) -> int {
    bits - 7 * max_byte_index(bits)
}

/// Whether the first varint of `s` passes the overflow check for a target of
/// `bits` bits: its closing byte stands at an index below the last one, or
/// at the last one with no more bits set than the target has left there.
pub open spec fn fits(s: Seq<u8>, bits: nat) -> bool {
    let i = continuation_run(s) as int;
    i < max_byte_index(bits) || (i == max_byte_index(bits) && s[i] < pow2(
        final_bits(bits) as nat,
    ))
}

/// Every 64-bit value takes between one and ten bytes.
pub proof fn lemma_encoded_len_bounds(v: nat)
    requires
        v <= u64::MAX,
    ensures
        1 <= encoded_len(v) <= 10,
{
    reveal_with_fuel(encoded_len, 11);
}

/// The encoding of `v` has `encoded_len(v)` bytes.
pub proof fn lemma_encoding_len(v: nat)
    ensures
        encoding(v).len() == encoded_len(v),
    decreases v,
{
    if v >= 128 {
        lemma_encoding_len(v / 128);
    }
}

/// For widths from 1 to 64 the last index is at most 9 and between one and
/// seven bits are left there.
pub proof fn lemma_boundary_range(bits: nat)
    requires
        1 <= bits <= 64,
    ensures
        0 <= max_byte_index(bits) <= 9,
        1 <= final_bits(bits) <= 7,
        7 * max_byte_index(bits) + final_bits(bits) == bits,
{
}

/// A varint that passes the overflow check carries a value that the target
/// can hold.
pub proof fn lemma_fits_bound(s: Seq<u8>, bits: nat)
    requires
        bits >= 1,
        continuation_run(s) < s.len(),
        fits(s, bits),
    ensures
        decoded_value(s) < pow2(bits),
    decreases s.len(),
{
    let n = continuation_run(s);
    if s[0] < 0x80 {
        // One byte: at most seven bits, or the bits left at index 0.
        lemma2_to64();
        if max_byte_index(bits) > 0 {
            lemma_pow2_adds(7, (bits - 7) as nat);
            lemma_pow2_pos((bits - 7) as nat);
            assert(128 <= pow2(bits)) by (nonlinear_arith)
                requires
                    pow2(bits) == 128 * pow2((bits - 7) as nat),
                    pow2((bits - 7) as nat) > 0,
            ;
        }
    } else {
        let rest = s.skip(1);
        assert(bits > 7);
        let inner = (bits - 7) as nat;
        assert(max_byte_index(inner) == max_byte_index(bits) - 1);
        assert(final_bits(inner) == final_bits(bits));
        assert(rest[continuation_run(rest) as int] == s[n as int]);
        lemma_fits_bound(rest, inner);
        lemma_pow2_adds(7, inner);
        lemma2_to64();
        assert(decoded_value(s) < pow2(bits)) by (nonlinear_arith)
            requires
                decoded_value(s) == (s[0] - 0x80) + 128 * decoded_value(rest),
                s[0] - 0x80 < 128,
                decoded_value(rest) < pow2(inner),
                pow2(bits) == 128 * pow2(inner),
        ;
    }
}

} // verus!
