//! Double-precision numbers.
//!
//! Window sizes, pointer positions and scale factors are double-precision numbers. They are kept
//! by their bit pattern and computed on with integers, so that what a computation returns, its
//! rounding included, is stated and proved.

use vstd::prelude::*;

#[allow(unused_imports)]
use crate::number::{
    at_least, difference, lemma_rounded_exact, less, multiple, or_zero, quotient, rounded, whole,
    whole_between, zero, Real,
};
use crate::number::Format;
use crate::pattern;
#[allow(unused_imports)]
use crate::pattern::{lemma_zero_pattern, value_of};
#[allow(unused_imports)]
use crate::powers::{lemma_pow2_ordered, lemma_pow2_sum, lemma_pow2_values};

verus! {

/// A double-precision number.
#[derive(Debug, Copy, Clone)]
pub struct Binary64 {
    pub bits: u64,
}

impl View for Binary64 {
    type V = Real;

    open spec fn view(&self) -> Real {
        value_of(Format::Double, self.bits)
    }
}

impl Binary64 {
    /// The number with the given bit pattern.
    pub fn from_bits(bits: u64) -> (result: Binary64)
        ensures
            result.bits == bits,
    {
        Binary64 { bits }
    }

    /// The bit pattern of the number.
    pub fn to_bits(self) -> (bits: u64)
        ensures
            bits == self.bits,
    {
        self.bits
    }

    /// Zero.
    pub fn zero() -> (result: Binary64)
        ensures
            result@ == zero(),
    {
        proof {
            lemma_zero_pattern(Format::Double);
        }
        Binary64 { bits: 0 }
    }

    /// A whole number. Every one of 32 bits is a double.
    pub fn from_whole(value: u32) -> (result: Binary64)
        ensures
            result@ == whole(Format::Double, value as nat),
    {
        proof {
            let format = Format::Double;
            let units = value as nat * format.one();
            lemma_pow2_values();
            lemma_pow2_sum(32, 1074);
            lemma_pow2_ordered(1106, 2098);
            assert(units < format.limit()) by (nonlinear_arith)
                requires
                    units == value * format.one(),
                    value < 0x1_0000_0000,
                    format.limit() >= 0x1_0000_0000 * format.one(),
                    format.one() > 0,
            ;
            lemma_rounded_exact(format, false, value as nat, 1074, 1);
            assert(units * 1 == units);
        }
        Binary64 { bits: pattern::from_scaled(Format::Double, false, value as u64, 1074) }
    }

    /// Whether the number lies below the other one.
    pub fn less_than(self, other: Binary64) -> (result: bool)
        ensures
            result == less(self@, other@),
    {
        pattern::less_than(Format::Double, self.bits, other.bits)
    }

    /// Whether the number is the other one or lies above it.
    pub fn is_at_least(self, other: Binary64) -> (result: bool)
        ensures
            result == at_least(self@, other@),
    {
        !pattern::is_nan(Format::Double, self.bits) && !pattern::is_nan(Format::Double, other.bits)
            && !self.less_than(other)
    }

    /// The number multiplied by a whole number.
    pub fn times(self, factor: u32) -> (result: Binary64)
        ensures
            result@ == multiple(Format::Double, self@, factor as nat),
    {
        Binary64 { bits: pattern::times_whole(Format::Double, self.bits, factor) }
    }

    /// The number less the other one.
    pub fn minus(self, other: Binary64) -> (result: Binary64)
        ensures
            result@ == difference(Format::Double, self@, other@),
    {
        Binary64 { bits: pattern::minus(Format::Double, self.bits, other.bits) }
    }

    /// The number divided by the other one.
    pub fn over(self, other: Binary64) -> (result: Binary64)
        ensures
            result@ == quotient(Format::Double, self@, other@),
    {
        Binary64 { bits: pattern::over(Format::Double, self.bits, other.bits) }
    }

    /// The number, or zero where it is negative or invalid.
    pub fn or_zero(self) -> (result: Binary64)
        ensures
            result@ == or_zero(self@),
    {
        let zero = Binary64::zero();
        if zero.less_than(self) {
            self
        } else {
            zero
        }
    }

    /// The number as a length: rounded to a whole number, at least one.
    pub fn whole_length(self) -> (result: u32)
        ensures
            result == whole_between(Format::Double, self@, 1, u32::MAX as nat, 1),
    {
        pattern::whole(Format::Double, self.bits, 1, u32::MAX, 1)
    }
}

} // verus!
