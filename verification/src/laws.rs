//! What holds of the format, and so of the encoder and the decoder, whose
//! contracts are stated over the same functions.

use vstd::prelude::*;
use vstd::arithmetic::div_mod::lemma_div_denominator;
use vstd::arithmetic::power2::{
    pow2, lemma2_to64, lemma_pow2_adds, lemma_pow2_pos, lemma_pow2_strictly_increases,
};
use crate::uint::Varint;
use crate::wire::{
    continuation_run, decoded_value, encoded_len, encoding, final_bits, fits, lemma_encoding_len,
    max_byte_index,
};

verus! {

/// The length in closed form: `encoded_len(v)` is the least number of
/// seven-bit groups, and at least one, that hold `v`.
pub proof fn lemma_encoded_len_least(v: nat)
    ensures
        v < pow2(7 * encoded_len(v)),
        encoded_len(v) > 1 ==> v >= pow2((7 * (encoded_len(v) - 1)) as nat),
    decreases v,
{
    lemma2_to64();
    if v >= 128 {
        let inner = encoded_len(v / 128);
        lemma_encoded_len_least(v / 128);
        lemma_pow2_adds(7, 7 * inner);
        if inner > 1 {
            lemma_pow2_adds(7, (7 * (inner - 1)) as nat);
        }
    }
}

/// The bytes in closed form: the low seven bits of byte `i` of the encoding
/// of `v` are `(v / 2^(7 i)) % 128`, and its high bit is set exactly when
/// another byte follows.
pub proof fn lemma_encoding_byte(v: nat, i: nat)
    requires
        i < encoded_len(v),
    ensures
        encoding(v).len() == encoded_len(v),
        encoding(v)[i as int] % 128 == (v / pow2(7 * i)) % 128,
        encoding(v)[i as int] >= 0x80 <==> i + 1 < encoded_len(v),
    decreases i,
{
    lemma2_to64();
    lemma_encoding_len(v);
    if i == 0 {
        assert(v / pow2(0) == v);
        if v < 128 {
            assert(encoding(v)[0] == v);
        } else {
            assert(encoding(v)[0] == 128 + v % 128);
            assert(encoded_len(v / 128) >= 1);
        }
    } else {
        let before = (i - 1) as nat;
        let weight = pow2(7 * before);
        assert(v >= 128);
        lemma_encoding_byte(v / 128, before);
        assert(encoding(v)[i as int] == encoding(v / 128)[before as int]);
        lemma_pow2_adds(7, 7 * before);
        lemma_pow2_pos(7 * before);
        assert(pow2(7 * i) == 128 * weight);
        lemma_div_denominator(v as int, 128, weight as int);
    }
}

/// Round trip, over numbers: in a stream that begins with the encoding of
/// `v`, whatever follows it, the first varint is that encoding, it carries
/// `v`, and it passes the overflow check for every width that can hold `v`.
pub proof fn lemma_decode_encoding(v: nat, bits: nat, rest: Seq<u8>)
    requires
        bits >= 1,
        v < pow2(bits),
    ensures
        continuation_run(encoding(v) + rest) + 1 == encoded_len(v),
        decoded_value(encoding(v) + rest) == v,
        fits(encoding(v) + rest, bits),
    decreases v,
{
    let s = encoding(v) + rest;
    lemma2_to64();
    if v < 128 {
        assert(s[0] == v);
        if max_byte_index(bits) > 0 {
        } else {
            assert(final_bits(bits) == bits);
        }
    } else {
        if bits <= 7 {
            if bits < 7 {
                lemma_pow2_strictly_increases(bits, 7);
            }
            assert(false);
        }
        let inner = (bits - 7) as nat;
        lemma_pow2_adds(7, inner);
        assert(v / 128 < pow2(inner));
        lemma_decode_encoding(v / 128, inner, rest);
        let t = encoding(v / 128) + rest;
        assert(s.skip(1) =~= t);
        assert(s[0] == 128 + v % 128);
        assert(max_byte_index(inner) == max_byte_index(bits) - 1);
        assert(final_bits(inner) == final_bits(bits));
        lemma_encoding_len(v / 128);
        assert(s[continuation_run(s) as int] == t[continuation_run(t) as int]);
    }
}

/// Round trip: for every value `v` of a target type `V`, a stream that
/// begins with the encoding of `v` decodes, for the width of `V`, to `v`,
/// and the decoder consumes exactly that encoding.
pub proof fn lemma_round_trip<V: Varint>(v: V, rest: Seq<u8>)
    ensures
        continuation_run(encoding(v.as_nat()) + rest) + 1 == encoding(v.as_nat()).len(),
        fits(encoding(v.as_nat()) + rest, V::bit_width()),
        decoded_value(encoding(v.as_nat()) + rest) == v.as_nat(),
{
    V::lemma_width();
    v.lemma_range();
    lemma_decode_encoding(v.as_nat(), V::bit_width(), rest);
    lemma_encoding_minimal(v.as_nat());
}

/// Minimality: the encoding of `v` has `encoded_len(v)` bytes, every byte
/// but the last has the high bit set, the last has it clear, and the last is
/// zero only where it is the only byte.
pub proof fn lemma_encoding_minimal(v: nat)
    ensures
        encoding(v).len() == encoded_len(v),
        forall|i: int| 0 <= i < encoding(v).len() - 1 ==> encoding(v)[i] >= 0x80,
        encoding(v).last() < 0x80,
        encoding(v).len() > 1 ==> encoding(v).last() != 0,
    decreases v,
{
    if v >= 128 {
        lemma_encoding_minimal(v / 128);
        let head = seq![(128 + v % 128) as u8];
        let tail = encoding(v / 128);
        assert(encoding(v) == head + tail);
        assert forall|i: int| 0 <= i < encoding(v).len() - 1 implies encoding(v)[i] >= 0x80 by {
            if i > 0 {
                assert(encoding(v)[i] == tail[i - 1]);
            }
        }
        assert(encoding(v).last() == tail.last());
    }
}

/// No varint that carries `v` is shorter than the encoding of `v`.
pub proof fn lemma_no_shorter(s: Seq<u8>)
    requires
        continuation_run(s) < s.len(),
    ensures
        encoded_len(decoded_value(s)) <= continuation_run(s) + 1,
    decreases s.len(),
{
    if s[0] >= 0x80 {
        lemma_no_shorter(s.skip(1));
    }
}

/// Canonical form: a varint whose closing byte is not a zero that pads it
/// is the encoding of the value that it carries. With more than one byte it
/// carries at least 128.
pub proof fn lemma_reencode(s: Seq<u8>)
    requires
        continuation_run(s) < s.len(),
        continuation_run(s) > 0 ==> s[continuation_run(s) as int] != 0,
    ensures
        encoding(decoded_value(s)) == s.take(continuation_run(s) as int + 1),
        continuation_run(s) > 0 ==> decoded_value(s) >= 128,
    decreases s.len(),
{
    let n = continuation_run(s);
    let frame = s.take(n as int + 1);
    if s[0] < 0x80 {
        assert(encoding(decoded_value(s)) =~= frame);
    } else {
        let rest = s.skip(1);
        let m = continuation_run(rest);
        assert(rest[m as int] == s[n as int]);
        lemma_reencode(rest);
        let v = decoded_value(s);
        assert(decoded_value(rest) > 0);
        assert(v / 128 == decoded_value(rest));
        assert(v % 128 == s[0] - 0x80);
        assert(frame =~= seq![s[0]] + rest.take(m as int + 1));
    }
}

} // verus!
