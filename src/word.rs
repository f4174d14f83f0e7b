//! The integer types a `BitIter` can walk, each seen as a bit pattern of its
//! own width inside a 128-bit word.
use crate::bits::fits_width;
use vstd::arithmetic::power2::lemma2_to64;
use vstd::layout::unsigned_int_max_values;
use vstd::prelude::*;

verus! {

/// A fixed-width integer whose bit pattern can be lifted into a `u128` and
/// brought back.
pub trait Word: Copy + Sized {
    /// The number of bits of the type.
    spec fn width() -> nat;

    /// The type's bit pattern (two's complement for a signed type),
    /// zero-extended to 128 bits.
    spec fn bits(self) -> u128;

    /// The pattern never holds more bits than the type has.
    proof fn lemma_bits_fit(self)
        ensures
            1 <= Self::width() <= 128,
            fits_width(self.bits(), Self::width()),
    ;

    /// The value's bit pattern.
    fn to_bits(self) -> (r: u128)
        ensures
            r == self.bits(),
    ;

    /// The value with the bit pattern `b`.
    fn from_bits(b: u128) -> (r: Self)
        requires
            fits_width(b, Self::width()),
        ensures
            r.bits() == b,
    ;
}

impl Word for u8 {
    open spec fn width() -> nat {
        8
    }

    open spec fn bits(self) -> u128 {
        self as u128
    }

    proof fn lemma_bits_fit(self) {
        lemma2_to64();
    }

    fn to_bits(self) -> (r: u128) {
        self as u128
    }

    fn from_bits(b: u128) -> (r: u8) {
        proof {
            lemma2_to64();
        }
        b as u8
    }
}

impl Word for i8 {
    open spec fn width() -> nat {
        8
    }

    open spec fn bits(self) -> u128 {
        self as u8 as u128
    }

    proof fn lemma_bits_fit(self) {
        lemma2_to64();
    }

    fn to_bits(self) -> (r: u128) {
        self as u8 as u128
    }

    fn from_bits(b: u128) -> (r: i8) {
        proof {
            lemma2_to64();
        }
        let u = b as u8;
        assert(u as i8 as u8 == u) by (bit_vector);
        u as i8
    }
}

impl Word for u16 {
    open spec fn width() -> nat {
        16
    }

    open spec fn bits(self) -> u128 {
        self as u128
    }

    proof fn lemma_bits_fit(self) {
        lemma2_to64();
    }

    fn to_bits(self) -> (r: u128) {
        self as u128
    }

    fn from_bits(b: u128) -> (r: u16) {
        proof {
            lemma2_to64();
        }
        b as u16
    }
}

impl Word for i16 {
    open spec fn width() -> nat {
        16
    }

    open spec fn bits(self) -> u128 {
        self as u16 as u128
    }

    proof fn lemma_bits_fit(self) {
        lemma2_to64();
    }

    fn to_bits(self) -> (r: u128) {
        self as u16 as u128
    }

    fn from_bits(b: u128) -> (r: i16) {
        proof {
            lemma2_to64();
        }
        let u = b as u16;
        assert(u as i16 as u16 == u) by (bit_vector);
        u as i16
    }
}

impl Word for u32 {
    open spec fn width() -> nat {
        32
    }

    open spec fn bits(self) -> u128 {
        self as u128
    }

    proof fn lemma_bits_fit(self) {
        lemma2_to64();
    }

    fn to_bits(self) -> (r: u128) {
        self as u128
    }

    fn from_bits(b: u128) -> (r: u32) {
        proof {
            lemma2_to64();
        }
        b as u32
    }
}

impl Word for i32 {
    open spec fn width() -> nat {
        32
    }

    open spec fn bits(self) -> u128 {
        self as u32 as u128
    }

    proof fn lemma_bits_fit(self) {
        lemma2_to64();
    }

    fn to_bits(self) -> (r: u128) {
        self as u32 as u128
    }

    fn from_bits(b: u128) -> (r: i32) {
        proof {
            lemma2_to64();
        }
        let u = b as u32;
        assert(u as i32 as u32 == u) by (bit_vector);
        u as i32
    }
}

impl Word for u64 {
    open spec fn width() -> nat {
        64
    }

    open spec fn bits(self) -> u128 {
        self as u128
    }

    proof fn lemma_bits_fit(self) {
        lemma2_to64();
    }

    fn to_bits(self) -> (r: u128) {
        self as u128
    }

    fn from_bits(b: u128) -> (r: u64) {
        proof {
            lemma2_to64();
        }
        b as u64
    }
}

impl Word for i64 {
    open spec fn width() -> nat {
        64
    }

    open spec fn bits(self) -> u128 {
        self as u64 as u128
    }

    proof fn lemma_bits_fit(self) {
        lemma2_to64();
    }

    fn to_bits(self) -> (r: u128) {
        self as u64 as u128
    }

    fn from_bits(b: u128) -> (r: i64) {
        proof {
            lemma2_to64();
        }
        let u = b as u64;
        assert(u as i64 as u64 == u) by (bit_vector);
        u as i64
    }
}

impl Word for u128 {
    open spec fn width() -> nat {
        128
    }

    open spec fn bits(self) -> u128 {
        self
    }

    proof fn lemma_bits_fit(self) {
    }

    fn to_bits(self) -> (r: u128) {
        self
    }

    fn from_bits(b: u128) -> (r: u128) {
        b
    }
}

impl Word for i128 {
    open spec fn width() -> nat {
        128
    }

    open spec fn bits(self) -> u128 {
        self as u128
    }

    proof fn lemma_bits_fit(self) {
    }

    fn to_bits(self) -> (r: u128) {
        self as u128
    }

    fn from_bits(b: u128) -> (r: i128) {
        assert(b as i128 as u128 == b) by (bit_vector);
        b as i128
    }
}

impl Word for usize {
    open spec fn width() -> nat {
        usize::BITS as nat
    }

    open spec fn bits(self) -> u128 {
        self as u128
    }

    proof fn lemma_bits_fit(self) {
        unsigned_int_max_values();
    }

    fn to_bits(self) -> (r: u128) {
        self as u128
    }

    fn from_bits(b: u128) -> (r: usize) {
        proof {
            unsigned_int_max_values();
        }
        b as usize
    }
}

impl Word for isize {
    open spec fn width() -> nat {
        usize::BITS as nat
    }

    open spec fn bits(self) -> u128 {
        self as usize as u128
    }

    proof fn lemma_bits_fit(self) {
        unsigned_int_max_values();
    }

    fn to_bits(self) -> (r: u128) {
        self as usize as u128
    }

    fn from_bits(b: u128) -> (r: isize) {
        proof {
            unsigned_int_max_values();
        }
        let u = b as usize;
        assert(u as isize as usize == u) by (bit_vector);
        u as isize
    }
}

} // verus!
