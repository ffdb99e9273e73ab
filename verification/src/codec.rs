//! The length calculator, the decoder and the encoder.

use vstd::prelude::*;
use vstd::arithmetic::power2::{
    pow2, lemma2_to64, lemma2_to64_rest, lemma_pow2_adds, lemma_pow2_strictly_increases,
};
use vstd::bits::{lemma_u64_pow2_no_overflow, lemma_u64_shl_is_mul};
use crate::stream::{ByteSink, ByteSource};
use crate::uint::Varint;
use crate::wire::{
    continuation_run, decoded_value, encoded_len, encoding, final_bits, fits, max_byte_index,
    lemma_boundary_range, lemma_encoded_len_bounds, lemma_encoding_len, lemma_fits_bound,
};

verus! {

/// Why a varint could not be read.
#[derive(Debug, PartialEq, Eq)]
pub enum VarintError<E> {
    /// The varint does not fit the target type.
    Overflow,
    /// The source failed; its error is handed on as it came.
    Io(E),
}

/// Number of bytes that the encoding of `x` occupies: between one and ten.
/// It depends on `x` alone.
pub fn varint_length(x: u64) -> (n: usize)
    ensures
        n == encoded_len(x as nat),
        n == encoding(x as nat).len(),
        1 <= n <= 10,
{
    let mut rest: u64 = x;
    let mut i: usize = 0;
    proof {
        lemma_encoded_len_bounds(x as nat);
        lemma_encoding_len(x as nat);
    }
    while rest >= 0b1000_0000
        invariant
            i + encoded_len(rest as nat) == encoded_len(x as nat),
            encoded_len(x as nat) <= 10,
        decreases rest,
    {
        assert(rest >> 7 == rest / 128) by (bit_vector);
        rest >>= 7;
        i += 1;
    }
    i + 1
}

/// Writes the encoding of `x` to `writer`, byte by byte, and returns the
/// number of bytes written.
///
/// Succeeds exactly when the sink has room for the whole encoding. Otherwise
/// the sink's error comes back, and the sink keeps the bytes that it had room
/// for.
pub fn write_le_varint<W: ByteSink>(writer: &mut W, x: u64) -> (r: Result<usize, W::Error>)
    ensures
        final(writer).failure() == old(writer).failure(),
        match r {
            Ok(n) => {
                &&& encoded_len(x as nat) <= old(writer).room()
                &&& n == encoded_len(x as nat)
                &&& final(writer).written() == old(writer).written() + encoding(x as nat)
                &&& final(writer).room() == old(writer).room() - n
            },
            Err(e) => {
                &&& encoded_len(x as nat) > old(writer).room()
                &&& e == old(writer).failure()
                &&& final(writer).written() == old(writer).written() + encoding(x as nat).take(
                    old(writer).room() as int,
                )
                &&& final(writer).room() == 0
            },
        },
{
    let mut rest: u64 = x;
    let mut i: usize = 0;
    let ghost mut emitted: Seq<u8> = Seq::empty();
    proof {
        lemma_encoded_len_bounds(x as nat);
        lemma_encoding_len(x as nat);
    }
    while rest >= 0b1000_0000
        invariant
            i == emitted.len(),
            i + encoded_len(rest as nat) == encoded_len(x as nat),
            encoded_len(x as nat) <= 10,
            encoding(x as nat) == emitted + encoding(rest as nat),
            writer.written() == old(writer).written() + emitted,
            writer.room() == old(writer).room() - i,
            writer.failure() == old(writer).failure(),
        decreases rest,
    {
        let low: u8 = #[verifier::truncate] (rest as u8);
        let byte: u8 = low | 0b1000_0000;
        assert(byte == 128 + rest % 128) by (bit_vector)
            requires
                byte == (rest as u8) | 0x80u8,
        ;
        assert(rest >> 7 == rest / 128) by (bit_vector);
        match writer.write_byte(byte) {
            Ok(_) => {},
            Err(e) => {
                assert(encoding(x as nat).take(i as int) == emitted);
                return Err(e);
            },
        }
        proof {
            emitted = emitted.push(byte);
        }
        rest >>= 7;
        i += 1;
    }
    let last: u8 = rest as u8;
    match writer.write_byte(last) {
        Ok(_) => {},
        Err(e) => {
            assert(encoding(x as nat).take(i as int) == emitted);
            return Err(e);
        },
    }
    assert(emitted.push(last) == encoding(x as nat));
    Ok(i + 1)
}

/// The overflow boundary of a target of `bits` bits: the last byte index at
/// which it has bits to contribute, and the largest closing byte that it
/// can take there.
fn overflow_boundary(bits: u32) -> (r: (u32, u8))
    requires
        1 <= bits <= 64,
    ensures
        r.0 == max_byte_index(bits as nat),
        r.1 + 1 == pow2(final_bits(bits as nat) as nat),
{
    let max_index: u32 = (bits + 6) / 7 - 1;
    let left: u32 = bits - 7 * max_index;
    proof {
        lemma2_to64();
    }
    let max_final: u8 = 0x7F >> (7 - left);
    assert(max_final + 1 == pow2(left as nat)) by {
        assert(1 <= left <= 7);
        assert(0x7Fu8 >> 0u32 == 0x7F) by (bit_vector);
        assert(0x7Fu8 >> 1u32 == 0x3F) by (bit_vector);
        assert(0x7Fu8 >> 2u32 == 0x1F) by (bit_vector);
        assert(0x7Fu8 >> 3u32 == 0x0F) by (bit_vector);
        assert(0x7Fu8 >> 4u32 == 0x07) by (bit_vector);
        assert(0x7Fu8 >> 5u32 == 0x03) by (bit_vector);
        assert(0x7Fu8 >> 6u32 == 0x01) by (bit_vector);
    }
    (max_index, max_final)
}

/// Setting the seven bits of `group` above the `shift` low bits that `acc`
/// occupies adds `group * 2^shift`.
proof fn lemma_accumulate(acc: u64, group: u8, shift: u32)
    requires
        shift < 64,
        group < 128,
        acc < pow2(shift as nat),
        acc + group * pow2(shift as nat) <= u64::MAX,
    ensures
        acc | ((group as u64) << shift) == acc + group * pow2(shift as nat),
{
    let wide = group as u64;
    let s = shift as u64;
    lemma_u64_pow2_no_overflow(shift as nat);
    lemma_u64_shl_is_mul(wide, s);
    lemma_u64_shl_is_mul(1, s);
    assert(wide << s == wide << shift) by (bit_vector)
        requires
            s == shift as u64,
    ;
    assert(acc | (wide << s) == acc + (wide << s)) by (bit_vector)
        requires
            acc < (1u64 << s),
            s < 64,
    ;
}

/// Reads one varint from `reader`, byte by byte up to its closing byte, and
/// narrows it to `V`.
///
/// Where the pending bytes hold a closing byte, the bytes up to it are
/// consumed, and the value comes back exactly when the varint passes the
/// overflow check for the width of `V`. Where they hold none, all of them are
/// consumed and the source's error comes back.
pub fn read_le_varint<V: Varint, R: ByteSource>(reader: &mut R) -> (r: Result<
    V,
    VarintError<R::Error>,
>)
    ensures
        final(reader).failure() == old(reader).failure(),
        ({
            let s = old(reader).pending();
            let n = continuation_run(s);
            if n < s.len() {
                &&& final(reader).pending() == s.skip(n as int + 1)
                &&& match r {
                    Ok(v) => fits(s, V::bit_width()) && v.as_nat() == decoded_value(s),
                    Err(e) => !fits(s, V::bit_width()) && e == VarintError::<R::Error>::Overflow,
                }
            } else {
                &&& final(reader).pending() == Seq::<u8>::empty()
                &&& r == Err::<V, _>(VarintError::Io(old(reader).failure()))
            }
        }),
{
    let bits = V::bits();
    proof {
        V::lemma_width();
        lemma_boundary_range(bits as nat);
        lemma2_to64();
    }
    let (max_index, max_final) = overflow_boundary(bits);
    let mut acc: u64 = 0;
    let mut shift: u32 = 0;
    // The index of the next byte, counted no further than one past the last
    // index: beyond it the varint is bound to overflow, and its groups are no
    // longer accumulated.
    let mut index: u32 = 0;
    let ghost start = reader.pending();
    let ghost mut taken: nat = 0;
    loop
        invariant
            start == old(reader).pending(),
            bits == V::bit_width(),
            1 <= bits <= 64,
            max_index == max_byte_index(bits as nat),
            max_final + 1 == pow2(final_bits(bits as nat) as nat),
            0 <= max_index <= 9,
            taken <= start.len(),
            reader.pending() == start.skip(taken as int),
            reader.failure() == old(reader).failure(),
            continuation_run(start) == taken + continuation_run(reader.pending()),
            index == if taken <= max_index { taken } else { (max_index + 1) as nat },
            index <= max_index ==> {
                &&& shift == 7 * taken
                &&& acc < pow2(shift as nat)
                &&& decoded_value(start) == acc + pow2(shift as nat) * decoded_value(
                    reader.pending(),
                )
            },
        decreases reader.pending().len(),
    {
        let ghost before = reader.pending();
        let b = match reader.read_byte() {
            Ok(b) => b,
            Err(e) => {
                assert(start.skip(taken as int).len() == 0);
                return Err(VarintError::Io(e));
            },
        };
        assert(start[taken as int] == b);
        assert(reader.pending() == start.skip(taken as int + 1));
        if b < 0b1000_0000 {
            assert(continuation_run(start) == taken);
            if index > max_index || (index == max_index && b > max_final) {
                return Err(VarintError::Overflow);
            }
            proof {
                lemma_fits_bound(start, bits as nat);
                lemma2_to64();
                lemma2_to64_rest();
                if bits < 64 {
                    lemma_pow2_strictly_increases(bits as nat, 64);
                }
                assert(b * pow2(shift as nat) == pow2(shift as nat) * b) by (nonlinear_arith);
                lemma_accumulate(acc, b, shift);
            }
            let x = acc | ((b as u64) << shift);
            return match V::from_u64(x) {
                Some(v) => Ok(v),
                None => Err(VarintError::Overflow),
            };
        }
        if index < max_index {
            let group: u8 = b & 0b0111_1111;
            assert(group == b - 0x80) by (bit_vector)
                requires
                    group == b & 0x7F,
                    b >= 0x80,
            ;
            proof {
                let weight = pow2(shift as nat);
                lemma_pow2_adds(shift as nat, 7);
                lemma2_to64();
                lemma2_to64_rest();
                lemma_pow2_strictly_increases((shift + 7) as nat, 64);
                assert(acc + group * weight < 128 * weight) by (nonlinear_arith)
                    requires
                        acc < weight,
                        group < 128,
                ;
                assert(pow2((shift + 7) as nat) == 128 * weight) by (nonlinear_arith)
                    requires
                        pow2((shift + 7) as nat) == weight * pow2(7),
                        pow2(7) == 128,
                ;
                lemma_accumulate(acc, group, shift);
                assert(acc + weight * decoded_value(before) == (acc + group * weight) + (128
                    * weight) * decoded_value(reader.pending())) by (nonlinear_arith)
                    requires
                        decoded_value(before) == group + 128 * decoded_value(reader.pending()),
                ;
            }
            acc = acc | ((group as u64) << shift);
            shift = shift + 7;
        }
        if index <= max_index {
            index = index + 1;
        }
        proof {
            taken = taken + 1;
        }
    }
}

/// Reading varints, for every byte source.
pub trait VarintReader: ByteSource + Sized {
    /// Reads one varint and narrows it to `V`, as [`read_le_varint`] does.
    fn read_le_varint<V: Varint>(&mut self) -> (r: Result<V, VarintError<Self::Error>>)
        ensures
            final(self).failure() == old(self).failure(),
            ({
                let s = old(self).pending();
                let n = continuation_run(s);
                if n < s.len() {
                    &&& final(self).pending() == s.skip(n as int + 1)
                    &&& match r {
                        Ok(v) => fits(s, V::bit_width()) && v.as_nat() == decoded_value(s),
                        Err(e) => !fits(s, V::bit_width()) && e == VarintError::<
                            Self::Error,
                        >::Overflow,
                    }
                } else {
                    &&& final(self).pending() == Seq::<u8>::empty()
                    &&& r == Err::<V, _>(VarintError::Io(old(self).failure()))
                }
            }),
    ;
}

impl<R: ByteSource> VarintReader for R {
    fn read_le_varint<V: Varint>(&mut self) -> (r: Result<V, VarintError<Self::Error>>) {
        read_le_varint::<V, R>(self)
    }
}

/// Writing varints, for every byte sink.
pub trait VarintWriter: ByteSink + Sized {
    /// Writes the encoding of `x` and returns the number of bytes written, as
    /// [`write_le_varint`] does for `x` widened to 64 bits.
    fn write_le_varint<V: Varint>(&mut self, x: V) -> (r: Result<usize, Self::Error>)
        ensures
            final(self).failure() == old(self).failure(),
            match r {
                Ok(n) => {
                    &&& encoded_len(x.as_nat()) <= old(self).room()
                    &&& n == encoded_len(x.as_nat())
                    &&& final(self).written() == old(self).written() + encoding(x.as_nat())
                    &&& final(self).room() == old(self).room() - n
                },
                Err(e) => {
                    &&& encoded_len(x.as_nat()) > old(self).room()
                    &&& e == old(self).failure()
                    &&& final(self).written() == old(self).written() + encoding(x.as_nat()).take(
                        old(self).room() as int,
                    )
                    &&& final(self).room() == 0
                },
            },
    ;
}

impl<W: ByteSink> VarintWriter for W {
    fn write_le_varint<V: Varint>(&mut self, x: V) -> (r: Result<usize, Self::Error>) {
        write_le_varint(self, x.to_u64())
    }
}

} // verus!
