//! The unsigned integer types that a varint can be read into and written
//! from.

use vstd::prelude::*;
use vstd::arithmetic::power2::{pow2, lemma2_to64};
use vstd::layout::unsigned_int_max_values;
use crate::codec::varint_length;
use crate::wire::encoded_len;

verus! {

/// A fixed-width unsigned integer type of at most 64 bits.
///
/// A value stands for the natural number `as_nat()`, which is below
/// `2^bit_width()`. Widening to `u64` always succeeds; narrowing from `u64`
/// succeeds exactly on the values that the type can hold.
pub trait Varint: Sized {
    /// Width of the type in bits.
    spec fn bit_width() -> nat;

    /// The number that the value stands for.
    spec fn as_nat(&self) -> nat;

    /// The width lies between 1 and 64.
    proof fn lemma_width()
        ensures
            1 <= Self::bit_width() <= 64,
    ;

    /// Every value is below two to the width.
    proof fn lemma_range(&self)
        ensures
            self.as_nat() < pow2(Self::bit_width()),
    ;

    /// Width of the type in bits.
    fn bits() -> (w: u32)
        ensures
            w == Self::bit_width(),
    ;

    /// Widens the value to 64 bits.
    fn to_u64(&self) -> (x: u64)
        ensures
            x == self.as_nat(),
    ;

    /// Narrows `x` to the type, or gives `None` when the type cannot hold it.
    fn from_u64(x: u64) -> (r: Option<Self>)
        ensures
            match r {
                Some(v) => v.as_nat() == x,
                None => x >= pow2(Self::bit_width()),
            },
    ;

    /// Number of bytes that the encoding of the value occupies.
    fn varlen(&self) -> (n: usize)
        ensures
            n == encoded_len(self.as_nat()),
    ;
}

impl Varint for u8 {
    open spec fn bit_width() -> nat {
        8
    }

    open spec fn as_nat(&self) -> nat {
        *self as nat
    }

    proof fn lemma_width() {
    }

    proof fn lemma_range(&self) {
        lemma2_to64();
    }

    fn bits() -> (w: u32) {
        8
    }

    fn to_u64(&self) -> (x: u64) {
        *self as u64
    }

    fn from_u64(x: u64) -> (r: Option<Self>) {
        proof {
            lemma2_to64();
        }
        if x <= u8::MAX as u64 {
            Some(x as u8)
        } else {
            None
        }
    }

    fn varlen(&self) -> (n: usize) {
        varint_length(*self as u64)
    }
}

impl Varint for u16 {
    open spec fn bit_width() -> nat {
        16
    }

    open spec fn as_nat(&self) -> nat {
        *self as nat
    }

    proof fn lemma_width() {
    }

    proof fn lemma_range(&self) {
        lemma2_to64();
    }

    fn bits() -> (w: u32) {
        16
    }

    fn to_u64(&self) -> (x: u64) {
        *self as u64
    }

    fn from_u64(x: u64) -> (r: Option<Self>) {
        proof {
            lemma2_to64();
        }
        if x <= u16::MAX as u64 {
            Some(x as u16)
        } else {
            None
        }
    }

    fn varlen(&self) -> (n: usize) {
        varint_length(*self as u64)
    }
}

impl Varint for u32 {
    open spec fn bit_width() -> nat {
        32
    }

    open spec fn as_nat(&self) -> nat {
        *self as nat
    }

    proof fn lemma_width() {
    }

    proof fn lemma_range(&self) {
        lemma2_to64();
    }

    fn bits() -> (w: u32) {
        32
    }

    fn to_u64(&self) -> (x: u64) {
        *self as u64
    }

    fn from_u64(x: u64) -> (r: Option<Self>) {
        proof {
            lemma2_to64();
        }
        if x <= u32::MAX as u64 {
            Some(x as u32)
        } else {
            None
        }
    }

    fn varlen(&self) -> (n: usize) {
        varint_length(*self as u64)
    }
}

impl Varint for u64 {
    open spec fn bit_width() -> nat {
        64
    }

    open spec fn as_nat(&self) -> nat {
        *self as nat
    }

    proof fn lemma_width() {
    }

    proof fn lemma_range(&self) {
        lemma2_to64();
    }

    fn bits() -> (w: u32) {
        64
    }

    fn to_u64(&self) -> (x: u64) {
        *self
    }

    fn from_u64(x: u64) -> (r: Option<Self>) {
        Some(x)
    }

    fn varlen(&self) -> (n: usize) {
        varint_length(*self)
    }
}

impl Varint for usize {
    open spec fn bit_width() -> nat {
        usize::BITS as nat
    }

    open spec fn as_nat(&self) -> nat {
        *self as nat
    }

    proof fn lemma_width() {
    }

    proof fn lemma_range(&self) {
        unsigned_int_max_values();
    }

    fn bits() -> (w: u32) {
        usize::BITS
    }

    fn to_u64(&self) -> (x: u64) {
        *self as u64
    }

    fn from_u64(x: u64) -> (r: Option<Self>) {
        proof {
            unsigned_int_max_values();
        }
        if x <= usize::MAX as u64 {
            Some(x as usize)
        } else {
            None
        }
    }

    fn varlen(&self) -> (n: usize) {
        varint_length(*self as u64)
    }
}

} // verus!
