//! Single-precision numbers, in which the shadow's darkness is computed.

use vstd::arithmetic::power2::pow2;
use vstd::prelude::*;

#[allow(unused_imports)]
use crate::number::{
    absolute, at_least, clamped, difference, fused, lemma_rounded_absorbs, lemma_rounded_digits,
    lemma_rounded_exact, lemma_rounded_near, lemma_rounded_ordered, lemma_rounded_range,
    lemma_rounded_whole, lemma_signed_rounded_sign, less, magnitude, negated, product, quotient,
    rounded, sign_of, sum, whole, whole_between, zero, Real,
};
use crate::number::Format;
use crate::pattern;
#[allow(unused_imports)]
use crate::pattern::{is_pattern, lemma_one_pattern, lemma_zero_pattern, value_of};
#[allow(unused_imports)]
use crate::powers::{lemma_pow2_ordered, lemma_pow2_sum, lemma_pow2_values};

verus! {

/// A single-precision number.
#[derive(Debug, Copy, Clone)]
pub struct Binary32 {
    pub bits: u32,
}

impl View for Binary32 {
    type V = Real;

    open spec fn view(&self) -> Real {
        value_of(Format::Single, self.bits as u64)
    }
}

/// Half of a whole number, rounded.
#[verifier::opaque]
pub open spec fn half_of(value: int) -> Real {
    rounded(Format::Single, value < 0, magnitude(value) * pow2(148), 1)
}

impl Binary32 {
    /// The number with the given bit pattern.
    pub fn from_bits(bits: u32) -> (result: Binary32)
        ensures
            result.bits == bits,
    {
        Binary32 { bits }
    }

    /// The bit pattern of the number.
    pub fn to_bits(self) -> (bits: u32)
        ensures
            bits == self.bits,
    {
        self.bits
    }

    fn pattern(self) -> (bits: u64)
        ensures
            bits == self.bits,
            is_pattern(Format::Single, bits),
    {
        self.bits as u64
    }

    fn from_pattern(bits: u64) -> (result: Binary32)
        requires
            is_pattern(Format::Single, bits),
        ensures
            result@ == value_of(Format::Single, bits),
    {
        Binary32 { bits: bits as u32 }
    }

    /// One.
    pub fn one() -> (result: Binary32)
        ensures
            result@ == whole(Format::Single, 1),
    {
        proof {
            lemma_one_pattern(Format::Single, 0x3F80_0000);
        }
        Binary32 { bits: 0x3F80_0000 }
    }

    /// Half of a whole number.
    pub fn from_halves(value: i64) -> (result: Binary32)
        ensures
            result@ == half_of(value as int),
    {
        proof {
            reveal(half_of);
        }
        let negative: bool = value < 0;
        let size: u64 = if negative { (-(value as i128)) as u64 } else { value as u64 };
        Self::from_pattern(pattern::from_scaled(Format::Single, negative, size, 148))
    }

    /// The number nearest to a whole one.
    pub fn from_whole(value: u32) -> (result: Binary32)
        ensures
            result@ == half_of(2 * value),
    {
        Self::from_halves(2 * value as i64)
    }

    /// Whether the number lies below zero.
    pub fn is_below_zero(self) -> (result: bool)
        ensures
            result == less(self@, zero()),
    {
        proof {
            lemma_zero_pattern(Format::Single);
        }
        pattern::less_than(Format::Single, self.pattern(), 0)
    }

    /// The number with the other sign.
    pub fn negate(self) -> (result: Binary32)
        ensures
            result@ == negated(self@),
    {
        Self::from_pattern(pattern::negate(Format::Single, self.pattern()))
    }

    /// The number without its sign.
    pub fn without_sign(self) -> (result: Binary32)
        ensures
            result@ == absolute(self@),
    {
        Self::from_pattern(pattern::without_sign(Format::Single, self.pattern()))
    }

    /// One with the sign of the number.
    pub fn sign(self) -> (result: Binary32)
        ensures
            result@ == sign_of(Format::Single, self@),
    {
        if pattern::is_nan(Format::Single, self.pattern()) {
            return self;
        }
        let one = Self::one();
        if self.bits >= 0x8000_0000 {
            one.negate()
        } else {
            one
        }
    }

    /// The number plus the other one.
    pub fn plus(self, other: Binary32) -> (result: Binary32)
        ensures
            result@ == sum(Format::Single, self@, other@),
    {
        Self::from_pattern(pattern::plus(Format::Single, self.pattern(), other.pattern()))
    }

    /// The number less the other one.
    pub fn minus(self, other: Binary32) -> (result: Binary32)
        ensures
            result@ == difference(Format::Single, self@, other@),
    {
        Self::from_pattern(pattern::minus(Format::Single, self.pattern(), other.pattern()))
    }

    /// The number multiplied by the other one.
    pub fn times(self, other: Binary32) -> (result: Binary32)
        ensures
            result@ == product(Format::Single, self@, other@),
    {
        Self::from_pattern(pattern::times(Format::Single, self.pattern(), other.pattern()))
    }

    /// The number multiplied by a second one, plus a third one, rounded once.
    pub fn times_plus(self, factor: Binary32, more: Binary32) -> (result: Binary32)
        ensures
            result@ == fused(Format::Single, self@, factor@, more@),
    {
        Self::from_pattern(
            pattern::times_plus(
                Format::Single,
                self.pattern(),
                factor.pattern(),
                more.pattern(),
            ),
        )
    }

    /// The number divided by the other one.
    pub fn over(self, other: Binary32) -> (result: Binary32)
        ensures
            result@ == quotient(Format::Single, self@, other@),
    {
        Self::from_pattern(pattern::over(Format::Single, self.pattern(), other.pattern()))
    }

    /// The number brought between zero and one.
    pub fn clamp(self) -> (result: Binary32)
        ensures
            result@ == clamped(Format::Single, self@),
    {
        let one = Self::one();
        proof {
            lemma_zero_pattern(Format::Single);
        }
        if self.is_below_zero() {
            Binary32 { bits: 0 }
        } else if pattern::less_than(Format::Single, one.pattern(), self.pattern()) {
            one
        } else {
            self
        }
    }

    /// The number as a byte: rounded to a whole number and brought into range.
    pub fn to_byte(self) -> (result: u8)
        ensures
            result == whole_between(Format::Single, self@, 0, 255, 0),
    {
        pattern::whole(Format::Single, self.pattern(), 0, 255, 0) as u8
    }
}

/// Half of a whole number up to 2 to the power 24 is a single-precision number.
pub proof fn lemma_half_exact(value: int)
    requires
        -0x100_0000 <= value <= 0x100_0000,
    ensures
        half_of(value) == (Real::Finite {
            negative: value < 0,
            units: magnitude(value) * pow2(148),
        }),
{
    reveal(half_of);
    let size = magnitude(value);
    lemma_pow2_values();
    lemma_pow2_sum(24, 148);
    lemma_pow2_sum(23, 149);
    lemma_pow2_sum(1, 172);
    lemma_pow2_ordered(173, 277);
    assert(size * pow2(148) <= pow2(24) * pow2(148)) by (nonlinear_arith)
        requires
            size <= pow2(24),
            pow2(148) > 0,
    ;
    assert((size * pow2(148)) * 1 == size * pow2(148));
    if size < 0x100_0000 {
        lemma_rounded_exact(Format::Single, value < 0, size, 148, 1);
    } else {
        lemma_rounded_exact(Format::Single, value < 0, 0x80_0000, 149, 1);
    }
}

/// Adding halves that are short enough is exact.
pub proof fn lemma_half_sum(a: int, b: int)
    requires
        -0x100_0000 <= a <= 0x100_0000,
        -0x100_0000 <= b <= 0x100_0000,
        -0x100_0000 <= a + b <= 0x100_0000,
    ensures
        sum(Format::Single, half_of(a), half_of(b)) == half_of(a + b),
{
    reveal(half_of);
    lemma_half_exact(a);
    lemma_half_exact(b);
    lemma_half_exact(a + b);
    lemma_pow2_ordered(0, 148);
    let half = pow2(148);
    assert(magnitude(a) * half == if a < 0 { -(a * half) } else { a * half }) by (nonlinear_arith)
        requires
            magnitude(a) == if a < 0 { -a } else { a },
    ;
    assert(magnitude(b) * half == if b < 0 { -(b * half) } else { b * half }) by (nonlinear_arith)
        requires
            magnitude(b) == if b < 0 { -b } else { b },
    ;
    let c = a + b;
    assert(magnitude(c) * half == if c < 0 { -(c * half) } else { c * half }) by (nonlinear_arith)
        requires
            magnitude(c) == if c < 0 { -c } else { c },
    ;
    assert(a * half + b * half == c * half) by (nonlinear_arith)
        requires
            c == a + b,
    ;
    assert(c < 0 ==> c * half < 0) by (nonlinear_arith)
        requires
            half > 0,
    ;
    assert(c > 0 ==> c * half > 0) by (nonlinear_arith)
        requires
            half > 0,
    ;
    assert(c == 0 ==> c * half == 0) by (nonlinear_arith);
}

/// Half of the number with the other sign, for any number but zero.
pub proof fn lemma_half_negated(value: int)
    requires
        -0x100_0000 <= value <= 0x100_0000,
        value != 0,
    ensures
        negated(half_of(value)) == half_of(-value),
{
    lemma_half_exact(value);
    lemma_half_exact(-value);
}

/// Taking halves that are short enough away from each other is exact.
pub proof fn lemma_half_difference(a: int, b: int)
    requires
        -0x100_0000 <= a <= 0x100_0000,
        -0x100_0000 <= b <= 0x100_0000,
        -0x100_0000 <= a - b <= 0x100_0000,
    ensures
        difference(Format::Single, half_of(a), half_of(b)) == half_of(a - b),
{
    if b != 0 {
        lemma_half_negated(b);
        lemma_half_sum(a, -b);
    } else {
        reveal(half_of);
        lemma_half_exact(0);
        lemma_half_exact(a);
        let half = pow2(148);
        lemma_pow2_ordered(0, 148);
        assert(magnitude(0) * half == 0) by (nonlinear_arith)
            requires
                magnitude(0) == 0,
        ;
        assert(a != 0 ==> magnitude(a) * half > 0) by (nonlinear_arith)
            requires
                a != 0 ==> magnitude(a) > 0,
                half > 0,
        ;
    }
}

/// Half of a number is below zero where the number is.
pub proof fn lemma_half_sign(value: int)
    ensures
        less(half_of(value), zero()) <==> value < 0,
{
    reveal(half_of);
    let units = magnitude(value) * pow2(148);
    let signed = if value < 0 { -units } else { units as int };
    lemma_pow2_ordered(0, 148);
    assert(value != 0 ==> units > 0) by (nonlinear_arith)
        requires
            units == magnitude(value) * pow2(148),
            value != 0 ==> magnitude(value) > 0,
            pow2(148) > 0,
    ;
    lemma_signed_rounded_sign(Format::Single, signed, false);
}

/// Half of a number that a machine word holds is finite.
pub proof fn lemma_half_finite(value: int)
    requires
        0 <= value <= 0x2_0000_0000,
    ensures
        half_of(value) matches Real::Finite { negative, .. } && !negative,
{
    reveal(half_of);
    lemma_pow2_values();
    lemma_pow2_sum(33, 148);
    lemma_pow2_sum(1, 32);
    vstd::arithmetic::power2::lemma_pow2_strictly_increases(181, 277);
    assert(value * pow2(148) <= pow2(33) * pow2(148)) by (nonlinear_arith)
        requires
            0 <= value <= pow2(33),
    ;
    assert(1 * pow2(181) == pow2(181) && (1 * pow2(181)) * 1 == pow2(181));
    lemma_rounded_exact(Format::Single, false, 1, 181, 1);
    lemma_rounded_ordered(Format::Single, (value * pow2(148)) as nat, 1, pow2(181), 1);
}

/// Half of a number lies close to it, to the 24 digits of single precision, and has its sign.
pub proof fn lemma_half_near(value: int)
    requires
        -0x1_0000_0000_0000_0000 <= value <= 0x1_0000_0000_0000_0000,
    ensures
        half_of(value) matches Real::Finite { negative, units } && negative == (value < 0) && {
            let exact = (if value < 0 {
                -value
            } else {
                value
            }) * pow2(148);
            &&& 0x100_0000 * (units - exact) <= exact
            &&& 0x100_0000 * (exact - units) <= exact
        },
{
    reveal(half_of);
    let size = magnitude(value);
    let p = size * pow2(148);
    lemma_pow2_values();
    lemma_pow2_sum(64, 148);
    lemma_pow2_sum(24, 253);
    lemma_pow2_ordered(212, 253);
    assert(p <= pow2(64) * pow2(148)) by (nonlinear_arith)
        requires
            p == size * pow2(148),
            size <= pow2(64),
    ;
    assert((pow2(277) - pow2(253)) * 1 == pow2(277) - pow2(253));
    lemma_rounded_range(Format::Single, value < 0, p, 1);
    lemma_rounded_near(Format::Single, value < 0, p, 1);
}

/// Halves are ordered as the numbers are.
pub proof fn lemma_half_ordered(a: int, b: int)
    requires
        0 <= a <= b,
    ensures
        at_least(half_of(b), half_of(a)),
{
    reveal(half_of);
    assert(a * pow2(148) <= b * pow2(148)) by (nonlinear_arith)
        requires
            a <= b,
    ;
    lemma_rounded_ordered(Format::Single, (a * pow2(148)) as nat, 1, (b * pow2(148)) as nat, 1);
}

/// A whole number, rounded, and a half more lies between zero and the next whole number, rounded.
pub proof fn lemma_next_whole(value: int)
    requires
        0 <= value < 0x1_0000_0000,
    ensures
        ({
            let middle = sum(Format::Single, half_of(2 * value), half_of(1));
            &&& middle is Finite
            &&& !less(middle, zero())
            &&& at_least(half_of(2 * value + 2), middle)
        }),
{
    let next = 2 * value + 2;
    lemma_half_finite(2 * value);
    lemma_half_finite(1);
    lemma_signed_rounded_sign(
        Format::Single,
        half_of(2 * value)->units + half_of(1)->units as int,
        false,
    );
    lemma_half_finite(next);
    if value < 0x80_0000 {
        lemma_half_sum(2 * value, 1);
        lemma_half_finite(2 * value + 1);
        lemma_half_ordered(2 * value + 1, next);
    } else {
        lemma_half_ordered(2 * value, next);
        lemma_next_long(value);
    }
}

#[verifier::spinoff_prover]
proof fn lemma_next_long(value: int)
    requires
        0x80_0000 <= value < 0x1_0000_0000,
        half_of(2 * value) is Finite,
        half_of(2 * value + 2) is Finite,
        at_least(half_of(2 * value + 2), half_of(2 * value)),
    ensures
        ({
            let middle = sum(Format::Single, half_of(2 * value), half_of(1));
            &&& middle is Finite
            &&& at_least(half_of(2 * value + 2), middle)
        }),
{
    reveal(half_of);
    let format = Format::Single;
    let half = pow2(148);
    lemma_half_exact(1);
    lemma_pow2_values();
    lemma_pow2_ordered(0, 148);
    vstd::arithmetic::power2::lemma_pow2_unfold(149);
    let (p, q) = ((2 * value) as nat * half, (2 * value + 2) as nat * half);
    assert(p >= format.end() && q >= format.end()) by (nonlinear_arith)
        requires
            p == (2 * value) * half,
            q == (2 * value + 2) * half,
            value >= 0x80_0000,
            half >= 1,
            format.end() == 0x100_0000,
    ;
    let (m, j) = lemma_rounded_digits(format, p);
    let (n, k) = lemma_rounded_digits(format, q);
    let (a, b) = (m * pow2(j), n * pow2(k));
    if j < 149 {
        lemma_pow2_ordered(j, 148);
        assert(false) by (nonlinear_arith)
            requires
                p < pow2(j) * 0x100_0000,
                pow2(j) <= half,
                p == (2 * value) * half,
                value >= 0x80_0000,
        ;
    }
    if k < 149 {
        lemma_pow2_ordered(k, 148);
        assert(false) by (nonlinear_arith)
            requires
                q < pow2(k) * 0x100_0000,
                pow2(k) <= half,
                q == (2 * value + 2) * half,
                value >= 0x80_0000,
        ;
    }
    lemma_pow2_sum((j - 149) as nat, 149);
    lemma_pow2_sum((k - 149) as nat, 149);
    let (wa, wb) = (m * pow2((j - 149) as nat), n * pow2((k - 149) as nat));
    assert(a == wa * (2 * half)) by (nonlinear_arith)
        requires
            a == m * pow2(j),
            pow2(j) == pow2((j - 149) as nat) * (2 * half),
            wa == m * pow2((j - 149) as nat),
    ;
    assert(b == wb * (2 * half)) by (nonlinear_arith)
        requires
            b == n * pow2(k),
            pow2(k) == pow2((k - 149) as nat) * (2 * half),
            wb == n * pow2((k - 149) as nat),
    ;
    assert(a <= b);
    assert(1 * half == half);
    if a < b {
        assert(a + half <= b) by (nonlinear_arith)
            requires
                a == wa * (2 * half),
                b == wb * (2 * half),
                a < b,
                half > 0,
        ;
        lemma_rounded_exact(format, false, n, k, 1);
        assert(b * 1 == b);
        lemma_rounded_ordered(format, a + half, 1, b, 1);
    } else {
        if k == 149 {
            assert(value + 1 < 0x100_0000) by (nonlinear_arith)
                requires
                    q < (2 * half) * 0x100_0000,
                    q == (2 * value + 2) * half,
                    half > 0,
            ;
            lemma_rounded_whole(format, false, value as nat, 1);
            lemma_rounded_whole(format, false, (value + 1) as nat, 1);
            assert((value * (2 * half)) * 1 == p && ((value + 1) * (2 * half)) * 1 == q)
                by (nonlinear_arith)
                requires
                    p == (2 * value) * half,
                    q == (2 * value + 2) * half,
            ;
            assert(p < q) by (nonlinear_arith)
                requires
                    p == (2 * value) * half,
                    q == (2 * value + 2) * half,
                    half > 0,
            ;
        }
        lemma_pow2_ordered(150, k);
        vstd::arithmetic::power2::lemma_pow2_unfold(150);
        lemma_rounded_absorbs(format, n, k, half);
    }
}

} // verus!
