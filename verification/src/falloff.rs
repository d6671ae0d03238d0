//! How dark the shadow is at a distance from the window.
//!
//! Each layer of the shadow is a blurred edge: its darkness is the tail of a Gaussian, computed
//! in single precision. The two functions that the arithmetic has no exact rule for, the
//! hypotenuse and the exponential, are the machine's; what they gave is taken in here.

use vstd::arithmetic::power2::pow2;
use vstd::prelude::*;

use crate::binary32::Binary32;
#[allow(unused_imports)]
use crate::number::{
    absolute, at_least, clamped, difference, fused, lemma_product_finite, lemma_product_ordered,
    lemma_sum_ordered, lemma_whole_between_ordered, negated, product, quotient, rounded, sign_of,
    sum, whole, whole_between, Format, Real,
};
#[allow(unused_imports)]
use crate::pattern::{lemma_encoded, lemma_value_is_rounded, value_of};
#[allow(unused_imports)]
use crate::powers::{lemma_pow2_ordered, lemma_pow2_sum, lemma_pow2_values};

verus! {

/// The square root of two.
pub const SQRT_2: u32 = 0x3FB5_04F3;

/// One half.
pub const HALF: u32 = 0x3F00_0000;

/// The largest byte, 255.
pub const LARGEST_BYTE: u32 = 0x437F_0000;

/// Factor of the argument in the error function: 0.3275911.
pub const ERROR_FACTOR: u32 = 0x3EA7_BA05;

/// Coefficients of the polynomial in the error function, from the fifth power down: 1.0614054.
pub const ERROR_FIFTH: u32 = 0x3F87_DC22;

/// The fourth power: -1.4531521.
pub const ERROR_FOURTH: u32 = 0xBFBA_00E3;

/// The third power: 1.4214138.
pub const ERROR_THIRD: u32 = 0x3FB5_F0E3;

/// The second power: -0.28449672.
pub const ERROR_SECOND: u32 = 0xBE91_A98E;

/// The first power: 0.2548296.
pub const ERROR_FIRST: u32 = 0x3E82_7906;

/// Blur radius of the first layer.
pub const PRIMARY_RADIUS: u32 = 48;

/// Opacity of the first layer: 0.8.
pub const PRIMARY_OPACITY: u32 = 0x3F4C_CCCD;

/// Blur radius of the second layer.
pub const SECONDARY_RADIUS: u32 = 24;

/// Opacity of the second layer: 0.2.
pub const SECONDARY_OPACITY: u32 = 0x3E4C_CCCD;

/// A single-precision number by its bit pattern.
pub open spec fn single(bits: u32) -> Real {
    value_of(Format::Single, bits as u64)
}

/// The distance in blur widths at which a layer is looked up: the distance, divided by the
/// standard deviation and the square root of two.
pub open spec fn tail_value(distance: Real, blur_radius: Real) -> Real {
    let standard_deviation = product(Format::Single, blur_radius, single(HALF));
    quotient(
        Format::Single,
        distance,
        product(Format::Single, standard_deviation, single(SQRT_2)),
    )
}

/// What the exponential is taken of: the square of the value, negated.
pub open spec fn exponent_of(value: Real) -> Real {
    product(Format::Single, negated(absolute(value)), absolute(value))
}

/// The polynomial of Abramowitz and Stegun 7.1.26 at `t`.
pub open spec fn error_polynomial(t: Real) -> Real {
    let fifth = fused(Format::Single, single(ERROR_FIFTH), t, single(ERROR_FOURTH));
    let fourth = fused(Format::Single, fifth, t, single(ERROR_THIRD));
    let third = fused(Format::Single, fourth, t, single(ERROR_SECOND));
    let second = fused(Format::Single, third, t, single(ERROR_FIRST));
    product(Format::Single, second, t)
}

/// Where the polynomial is taken.
pub open spec fn error_argument(value: Real) -> Real {
    let one = whole(Format::Single, 1);
    quotient(
        Format::Single,
        one,
        fused(Format::Single, absolute(value), single(ERROR_FACTOR), one),
    )
}

/// The complementary error function by Abramowitz and Stegun 7.1.26, which is good to about
/// seven digits, given the exponential of the negated square of the value.
pub open spec fn error_complement(value: Real, exponential: Real) -> Real {
    let one = whole(Format::Single, 1);
    let error = difference(
        Format::Single,
        one,
        product(Format::Single, error_polynomial(error_argument(value)), exponential),
    );
    difference(Format::Single, one, product(Format::Single, sign_of(Format::Single, value), error))
}

/// The integral of a Gaussian from `distance` to infinity, given the exponential.
#[verifier::opaque]
pub open spec fn tail_of_gaussian(distance: Real, blur_radius: Real, exponential: Real) -> Real {
    product(
        Format::Single,
        single(HALF),
        error_complement(tail_value(distance, blur_radius), exponential),
    )
}

/// The two layers put over each other, as a byte.
#[verifier::opaque]
pub open spec fn blended(primary: Real, secondary: Real) -> nat {
    let both = sum(
        Format::Single,
        product(Format::Single, single(PRIMARY_OPACITY), primary),
        product(Format::Single, single(SECONDARY_OPACITY), secondary),
    );
    whole_between(
        Format::Single,
        product(Format::Single, single(LARGEST_BYTE), clamped(Format::Single, both)),
        0,
        255,
        0,
    )
}

/// The distance in blur widths at which a layer is looked up.
fn gaussian_value(distance: Binary32, blur_radius: Binary32) -> (value: Binary32)
    ensures
        value@ == tail_value(distance@, blur_radius@),
{
    let standard_deviation = blur_radius.times(Binary32::from_bits(HALF));
    distance.over(standard_deviation.times(Binary32::from_bits(SQRT_2)))
}

/// What the machine takes the exponential of, for `gaussian_tail`.
pub fn gaussian_exponent(distance: Binary32, blur_radius: Binary32) -> (exponent: Binary32)
    ensures
        exponent@ == exponent_of(tail_value(distance@, blur_radius@)),
{
    let value = gaussian_value(distance, blur_radius).without_sign();
    value.negate().times(value)
}

/// The integral of a Gaussian from `distance` to infinity, given the exponential of
/// `gaussian_exponent`.
pub fn gaussian_tail(distance: Binary32, blur_radius: Binary32, exponential: Binary32) -> (tail:
    Binary32)
    ensures
        tail@ == tail_of_gaussian(distance@, blur_radius@, exponential@),
{
    proof {
        reveal(tail_of_gaussian);
    }
    let value = gaussian_value(distance, blur_radius);
    Binary32::from_bits(HALF).times(complementary_error_function(value, exponential))
}

/// The complementary error function, given the exponential of the negated square of the value.
pub fn complementary_error_function(value: Binary32, exponential: Binary32) -> (result: Binary32)
    ensures
        result@ == error_complement(value@, exponential@),
{
    let one = Binary32::one();
    let sign = value.sign();
    let value = value.without_sign();
    let t = one.over(value.times_plus(Binary32::from_bits(ERROR_FACTOR), one));
    let polynomial = Binary32::from_bits(ERROR_FIFTH).times_plus(
        t,
        Binary32::from_bits(ERROR_FOURTH),
    ).times_plus(t, Binary32::from_bits(ERROR_THIRD)).times_plus(
        t,
        Binary32::from_bits(ERROR_SECOND),
    ).times_plus(t, Binary32::from_bits(ERROR_FIRST)).times(t);
    let error = one.minus(polynomial.times(exponential));
    one.minus(sign.times(error))
}

/// The two layers put over each other, as a byte.
pub fn blend(primary: Binary32, secondary: Binary32) -> (alpha: u8)
    ensures
        alpha == blended(primary@, secondary@),
{
    proof {
        reveal(blended);
    }
    let primary = Binary32::from_bits(PRIMARY_OPACITY).times(primary);
    let secondary = Binary32::from_bits(SECONDARY_OPACITY).times(secondary);
    let alpha = primary.plus(secondary).clamp();
    Binary32::from_bits(LARGEST_BYTE).times(alpha).to_byte()
}

/// A finite number that rounding keeps finite.
pub open spec fn stays_finite(a: Real) -> bool {
    a matches Real::Finite { negative, units } && rounded(
        Format::Single,
        negative,
        units,
        1,
    ) is Finite
}

/// Where both layers are darker, so is the pixel, or as dark.
pub proof fn lemma_blended_ordered(
    primary: Real,
    secondary: Real,
    darker_primary: Real,
    darker_secondary: Real,
)
    requires
        stays_finite(primary),
        stays_finite(secondary),
        stays_finite(darker_primary),
        stays_finite(darker_secondary),
        at_least(darker_primary, primary),
        at_least(darker_secondary, secondary),
    ensures
        blended(primary, secondary) <= blended(darker_primary, darker_secondary) <= 255,
{
    reveal(blended);
    let format = Format::Single;
    lemma_opacities();
    let (first, second) = (single(PRIMARY_OPACITY)->units, single(SECONDARY_OPACITY)->units);
    lemma_weighted_ordered(first, primary, darker_primary);
    lemma_weighted_ordered(second, secondary, darker_secondary);
    let pale = (
        product(format, single(PRIMARY_OPACITY), primary),
        product(format, single(SECONDARY_OPACITY), secondary),
    );
    let dark = (
        product(format, single(PRIMARY_OPACITY), darker_primary),
        product(format, single(SECONDARY_OPACITY), darker_secondary),
    );
    lemma_sum_ordered(format, pale.0, pale.1, dark.0, dark.1);
    let a = clamped(format, sum(format, pale.0, pale.1));
    let b = clamped(format, sum(format, dark.0, dark.1));
    lemma_pow2_ordered(0, 149);
    assert(1 * format.one() == format.one());
    lemma_product_ordered(format, single(LARGEST_BYTE)->units, a, b);
    lemma_whole_between_ordered(
        format,
        product(format, single(LARGEST_BYTE), a),
        product(format, single(LARGEST_BYTE), b),
        0,
        255,
        0,
    );
}

/// Every finite number of single precision is its own rounding.
pub proof fn lemma_stays_finite(a: Binary32)
    requires
        a@ is Finite,
    ensures
        stays_finite(a@),
{
    lemma_value_is_rounded(Format::Single, a.bits as u64);
}

/// A pattern with its significand and the power of two that scales it, in units.
pub proof fn lemma_single(bits: u32, negative: bool, significand: nat, shift: nat)
    requires
        shift <= 200,
        0x80_0000 <= significand < 0x100_0000,
        bits == (if negative {
            0x8000_0000int
        } else {
            0
        }) + shift * 0x80_0000 + significand,
    ensures
        single(bits) == (Real::Finite { negative, units: significand * pow2(shift) }),
{
    lemma_encoded(Format::Single, negative, shift, significand, bits as u64);
    lemma_pow2_values();
    lemma_pow2_sum(shift, 24);
    lemma_pow2_ordered(shift + 24, 277);
    assert(significand * pow2(shift) < pow2(shift) * pow2(24)) by (nonlinear_arith)
        requires
            significand < pow2(24),
            pow2(shift) > 0,
    ;
}

/// The opacities lie between zero and one, and the largest byte is a positive number.
proof fn lemma_opacities()
    ensures
        single(PRIMARY_OPACITY) matches Real::Finite { negative, units } && !negative && units
            <= Format::Single.one(),
        single(SECONDARY_OPACITY) matches Real::Finite { negative, units } && !negative && units
            <= Format::Single.one(),
        single(LARGEST_BYTE) matches Real::Finite { negative, .. } && !negative,
{
    lemma_pow2_values();
    lemma_pow2_sum(24, 125);
    lemma_pow2_ordered(123, 125);
    lemma_single(PRIMARY_OPACITY, false, 0xCC_CCCD, 125);
    lemma_single(SECONDARY_OPACITY, false, 0xCC_CCCD, 123);
    lemma_single(LARGEST_BYTE, false, 0xFF_0000, 133);
}

proof fn lemma_weighted_ordered(opacity: nat, pale: Real, dark: Real)
    requires
        opacity <= Format::Single.one(),
        stays_finite(pale),
        stays_finite(dark),
        at_least(dark, pale),
    ensures
        ({
            let opacity = Real::Finite { negative: false, units: opacity };
            let first = product(Format::Single, opacity, pale);
            let second = product(Format::Single, opacity, dark);
            &&& first is Finite
            &&& second is Finite
            &&& at_least(second, first)
        }),
{
    let format = Format::Single;
    lemma_product_finite(format, opacity, pale->Finite_negative, pale->units);
    lemma_product_finite(format, opacity, dark->Finite_negative, dark->units);
    lemma_product_ordered(format, opacity, pale, dark);
}

} // verus!
