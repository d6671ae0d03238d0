//! How accurate the darkness of the shadow is.
//!
//! Numbers are counted in the units of single precision, of which one has 2 to the power of 149.

use vstd::arithmetic::power2::pow2;
use vstd::prelude::*;

#[allow(unused_imports)]
use crate::binary32::{half_of, lemma_half_exact};
#[allow(unused_imports)]
use crate::fading::{
    lemma_cancel, lemma_coefficients, lemma_fused_near, lemma_one, units_with_sign,
};
#[allow(unused_imports)]
use crate::falloff::{
    blended, error_argument, error_complement, error_polynomial, exponent_of, lemma_single, single,
    tail_of_gaussian, tail_value, ERROR_FACTOR, ERROR_FIFTH, ERROR_FIRST, ERROR_FOURTH,
    ERROR_SECOND, ERROR_THIRD, HALF, LARGEST_BYTE, PRIMARY_OPACITY, SECONDARY_OPACITY, SQRT_2,
};
#[allow(unused_imports)]
use crate::number::{
    clamped, difference, fused, lemma_rounded_at_most, lemma_rounded_near, lemma_rounded_ordered,
    lemma_rounded_whole, lemma_whole_between_is_nearest, magnitude, product, rounded, sum, whole,
    whole_between, Format, Real,
};
#[allow(unused_imports)]
use crate::powers::{lemma_pow2_ordered, lemma_pow2_sum, lemma_pow2_values};

verus! {

/// A rounded quotient lies close to the exact one.
proof fn lemma_rounds(negative: bool, p: nat, q: nat, n: nat)
    requires
        q > 0,
        n < 0x100_0000,
        p <= (n * pow2(149)) * q,
    ensures
        rounded(Format::Single, negative, p, q) matches Real::Finite { negative: sign, units }
            && sign == negative && units <= n * pow2(149) && 0x100_0000 * (units * q - p) <= p
            + 0x80_0000 * q && 0x100_0000 * (p - units * q) <= p + 0x80_0000 * q,
{
    lemma_one();
    lemma_rounded_at_most(Format::Single, negative, p, q, n);
    lemma_rounded_near(Format::Single, negative, p, q);
}

/// A number that is scaled by one lies close to itself, rounded.
proof fn lemma_rounds_scaled(negative: bool, a: nat, n: nat)
    requires
        n < 0x100_0000,
        a <= n * pow2(149),
    ensures
        rounded(Format::Single, negative, a * pow2(149), pow2(149)) matches Real::Finite {
            negative: sign,
            units,
        } && sign == negative && units <= n * pow2(149) && 0x100_0000 * (units - a) <= a
            + 0x80_0000 && 0x100_0000 * (a - units) <= a + 0x80_0000,
{
    lemma_one();
    let one = pow2(149);
    let p = a * one;
    assert(p <= (n * one) * one) by (nonlinear_arith)
        requires
            p == a * one,
            a <= n * one,
    ;
    lemma_rounds(negative, p, one, n);
    let u = rounded(Format::Single, negative, p, one)->units as int;
    let (i, o) = (a as int, one as int);
    assert((0x100_0000 * (u - i)) * o == 0x100_0000 * (u * o - i * o) && (0x100_0000 * (i - u)) * o
        == 0x100_0000 * (i * o - u * o) && (i + 0x80_0000) * o == i * o + 0x80_0000 * o)
        by (nonlinear_arith);
    lemma_cancel(0x100_0000 * (u - i), i + 0x80_0000, o);
    lemma_cancel(0x100_0000 * (i - u), i + 0x80_0000, o);
}

/// A rounded product of an opacity and a darkness, where the opacity is close to so many tenths.
proof fn lemma_weighted(opacity: nat, tenths: nat, darkness: nat)
    requires
        tenths <= 8,
        darkness <= 2 * pow2(149),
        0x100_0000 * (10 * opacity) <= 0x100_0000 * (tenths * pow2(149)) + 2 * pow2(149),
        0x100_0000 * (10 * opacity) >= 0x100_0000 * (tenths * pow2(149)),
    ensures
        ({
            let result = rounded(Format::Single, false, opacity * darkness, pow2(149));
            let tenths = 0x100_0000 * (tenths * darkness);
            &&& result is Finite
            &&& !result->Finite_negative
            &&& result->units <= 2 * pow2(149)
            &&& 0x100_0000 * (10 * result->units) <= tenths + 11 * darkness + 0x500_0000
            &&& 0x100_0000 * (10 * result->units) >= tenths - 9 * darkness - 0x500_0000
        }),
{
    lemma_one();
    let one = pow2(149) as int;
    let (o, d, t) = (opacity as int, darkness as int, tenths as int);
    let exact = o * d;
    assert(10 * o <= 9 * one) by (nonlinear_arith)
        requires
            0x100_0000 * (10 * o) <= 0x100_0000 * (t * one) + 2 * one,
            t <= 8,
            one > 0,
    ;
    assert(exact <= (2 * one) * one) by (nonlinear_arith)
        requires
            exact == o * d,
            0 <= d <= 2 * one,
            0 <= o <= one,
    ;
    assert(0x100_0000 * (10 * exact) <= ((0x100_0000 * t + 2) * d) * one && 0x100_0000 * (10
        * exact) >= ((0x100_0000 * t) * d) * one && 10 * exact <= (9 * d) * one)
        by (nonlinear_arith)
        requires
            exact == o * d,
            d >= 0,
            10 * o <= 9 * one,
            0x100_0000 * (10 * o) <= 0x100_0000 * (t * one) + 2 * one,
            0x100_0000 * (10 * o) >= 0x100_0000 * (t * one),
    ;
    lemma_rounds(false, (opacity * darkness) as nat, one as nat, 2);
    let u = rounded(Format::Single, false, opacity * darkness, pow2(149))->units as int;
    let high = (0x100_0000 * t + 11) * d + 0x500_0000;
    let low = (0x100_0000 * t - 9) * d - 0x500_0000;
    assert(high * one == ((0x100_0000 * t + 2) * d) * one + (9 * d) * one + 0x500_0000 * one)
        by (nonlinear_arith)
        requires
            high == (0x100_0000 * t + 11) * d + 0x500_0000,
    ;
    assert(low * one == ((0x100_0000 * t) * d) * one - (9 * d) * one - 0x500_0000 * one)
        by (nonlinear_arith)
        requires
            low == (0x100_0000 * t - 9) * d - 0x500_0000,
    ;
    assert(high == 0x100_0000 * (t * d) + 11 * d + 0x500_0000 && low == 0x100_0000 * (t * d) - 9 * d
        - 0x500_0000) by (nonlinear_arith)
        requires
            high == (0x100_0000 * t + 11) * d + 0x500_0000,
            low == (0x100_0000 * t - 9) * d - 0x500_0000,
    ;
    assert((0x100_0000 * (10 * u)) * one == 0x100_0000 * (10 * (u * one))) by (nonlinear_arith);
    lemma_cancel(0x100_0000 * (10 * u), high, one);
    lemma_cancel(low, 0x100_0000 * (10 * u), one);
}

/// The byte of a pixel is 255 times eight tenths of the first layer's darkness and two tenths of
/// the second's, to the nearest whole number, as far as a thousandth tells. What is more than 255
/// is 255.
#[verifier::spinoff_prover]
#[verifier::rlimit(30)]
pub proof fn lemma_blend(primary: nat, secondary: nat)
    requires
        primary <= 2 * pow2(149),
        secondary <= 2 * pow2(149),
    ensures
        ({
            let alpha = blended(
                Real::Finite { negative: false, units: primary },
                Real::Finite { negative: false, units: secondary },
            );
            let tenths = 255 * (8 * primary + 2 * secondary);
            &&& alpha <= 255
            &&& alpha > 0 ==> 10_000 * (alpha * pow2(149)) <= 1000 * tenths + 5_010 * pow2(149)
            &&& alpha < 255 ==> 1000 * tenths <= 10_000 * (alpha * pow2(149)) + 5_010 * pow2(149)
        }),
{
    reveal(blended);
    lemma_one();
    let format = Format::Single;
    let one = pow2(149);
    lemma_pow2_values();
    lemma_pow2_sum(24, 125);
    lemma_pow2_sum(26, 123);
    vstd::arithmetic::power2::lemma2_to64();
    lemma_pow2_sum(16, 133);
    lemma_single(PRIMARY_OPACITY, false, 0xCC_CCCD, 125);
    lemma_single(SECONDARY_OPACITY, false, 0xCC_CCCD, 123);
    lemma_single(LARGEST_BYTE, false, 0xFF_0000, 133);
    assert(single(LARGEST_BYTE)->units == 255 * one);
    let first = single(PRIMARY_OPACITY)->units;
    let second = single(SECONDARY_OPACITY)->units;
    lemma_weighted(first, 8, primary);
    lemma_weighted(second, 2, secondary);
    let p = rounded(format, false, first * primary, one)->units;
    let s = rounded(format, false, second * secondary, one)->units;
    lemma_rounds(false, p + s, 1, 4);
    let both = sum(
        format,
        Real::Finite { negative: false, units: p },
        Real::Finite { negative: false, units: s },
    );
    let light = clamped(format, both);
    assert(1 * one == one);
    assert(light is Finite && !light->Finite_negative);
    let c = light->units;
    let weight = 255 * one;
    assert(weight * c == (255 * c) * one) by (nonlinear_arith)
        requires
            weight == 255 * one,
    ;
    lemma_rounds_scaled(false, 255 * c, 255);
    let w = rounded(format, false, weight * c, one)->units;
    lemma_whole_between_is_nearest(format, w, 0, 255, 0);
    let alpha = whole_between(format, Real::Finite { negative: false, units: w }, 0, 255, 0);
    assert(alpha == blended(
        Real::Finite { negative: false, units: primary },
        Real::Finite { negative: false, units: secondary },
    ));
    let u = both->units;
    assert(0x100_0000 * (u - (p + s)) <= p + s + 0x80_0000);
    assert(0x100_0000 * (p + s - u) <= p + s + 0x80_0000);
    assert(c == if u <= one { u } else { one });
    let exact = 8 * primary + 2 * secondary;
    assert(0x100_0000 * (10 * (p + s)) <= 0x100_0000 * exact + 44 * one + 0xA00_0000);
    assert(0x100_0000 * (10 * (p + s)) >= 0x100_0000 * exact - 44 * one - 0xA00_0000);
    assert(0x100_0000 * (10 * u) <= 0x100_0000 * exact + 100 * one);
    assert(0x100_0000 * (10 * u) >= 0x100_0000 * exact - 100 * one);
    assert(10_000 * w <= 1000 * (255 * exact) + 5 * one);
    assert(u <= one ==> 10_000 * w >= 1000 * (255 * exact) - 5 * one);
    assert(alpha < 255 ==> alpha * one <= 254 * one) by (nonlinear_arith);
}

/// The tail of the Gaussian is half of the complementary error function.
pub proof fn lemma_tail_is_half(distance: Real, blur_radius: Real, exponential: Real)
    requires
        error_complement(tail_value(distance, blur_radius), exponential) is Finite,
        error_complement(tail_value(distance, blur_radius), exponential)->units <= 5 * pow2(149),
    ensures
        ({
            let twice = error_complement(tail_value(distance, blur_radius), exponential);
            let tail = tail_of_gaussian(distance, blur_radius, exponential);
            &&& tail is Finite
            &&& tail->Finite_negative == twice->Finite_negative
            &&& 0x100_0000 * (2 * tail->units - twice->units) <= twice->units + 0x100_0000
            &&& 0x100_0000 * (twice->units - 2 * tail->units) <= twice->units + 0x100_0000
        }),
{
    reveal(tail_of_gaussian);
    lemma_one();
    let (one, half) = (pow2(149), pow2(148));
    let twice = error_complement(tail_value(distance, blur_radius), exponential);
    lemma_pow2_values();
    lemma_pow2_sum(23, 125);
    lemma_single(HALF, false, 0x80_0000, 125);
    let p = half * twice->units;
    assert(p <= (5 * one) * one) by (nonlinear_arith)
        requires
            p == half * twice->units,
            half <= one,
            twice->units <= 5 * one,
    ;
    lemma_rounds(twice->Finite_negative, p, one, 5);
    let t = rounded(Format::Single, twice->Finite_negative, p, one)->units as int;
    let (u, h) = (twice->units as int, half as int);
    assert((0x100_0000 * (2 * t - u)) * h == 0x100_0000 * (t * (2 * h) - h * u) && (0x100_0000 * (u
        - 2 * t)) * h == 0x100_0000 * (h * u - t * (2 * h)) && (u + 0x100_0000) * h == h * u
        + 0x80_0000 * (2 * h)) by (nonlinear_arith);
    lemma_cancel(0x100_0000 * (2 * t - u), u + 0x100_0000, h);
    lemma_cancel(0x100_0000 * (u - 2 * t), u + 0x100_0000, h);
}

/// The exponential is taken of the square of the value, negated and rounded.
pub proof fn lemma_exponent(negative: bool, units: nat)
    ensures
        exponent_of(Real::Finite { negative, units }) == rounded(
            Format::Single,
            true,
            units * units,
            pow2(149),
        ),
{
}

/// The standard deviation times the square root of two is the blur radius, divided by the square
/// root of two.
#[verifier::spinoff_prover]
#[verifier::rlimit(30)]
proof fn lemma_blur_width(radius: nat)
    requires
        1 <= radius <= 0x10_0000,
    ensures
        ({
            let width = product(
                Format::Single,
                product(Format::Single, half_of(2 * radius as int), single(HALF)),
                single(SQRT_2),
            );
            &&& width is Finite
            &&& !width->Finite_negative
            &&& 1_000_000_000 * width->units <= 707_106_981 * (radius * pow2(149))
            &&& 1_000_000_000 * width->units >= 707_106_581 * (radius * pow2(149))
        }),
{
    lemma_one();
    let (one, half) = (pow2(149), pow2(148));
    lemma_half_exact(2 * radius as int);
    lemma_pow2_values();
    lemma_pow2_sum(23, 125);
    lemma_pow2_sum(23, 126);
    lemma_single(HALF, false, 0x80_0000, 125);
    lemma_single(SQRT_2, false, 0xB5_04F3, 126);
    let root = single(SQRT_2)->units;
    let exact = radius * half;
    assert((2 * radius) * half * half == exact * one) by (nonlinear_arith)
        requires
            one == 2 * half,
            exact == radius * half,
    ;
    assert(exact <= 0x10_0000 * one && half <= exact) by (nonlinear_arith)
        requires
            exact == radius * half,
            1 <= radius <= 0x10_0000,
            one == 2 * half,
    ;
    lemma_rounds_scaled(false, exact, 0x10_0000);
    let deviation = rounded(Format::Single, false, exact * one, one)->units;
    let (d, r, o) = (deviation as int, root as int, one as int);
    let p = d * r;
    assert(p >= 0) by (nonlinear_arith)
        requires
            p == d * r,
            d >= 0,
            r >= 0,
    ;
    assert(0x80_0000 * p == (0xB5_04F3 * d) * o) by (nonlinear_arith)
        requires
            p == d * r,
            0x80_0000 * r == 0xB5_04F3 * o,
    ;
    assert((0x20_0000 * o) * o == 0x20_0000 * (o * o)) by (nonlinear_arith);
    assert((0xB5_04F3 * d) * o <= 0xB50_4F30_0000 * (o * o)) by (nonlinear_arith)
        requires
            d <= 0x10_0000 * o,
            o > 0,
    ;
    lemma_rounds(false, p as nat, one, 0x20_0000);
    let w = rounded(Format::Single, false, p as nat, one)->units as int;
    let high = 0x100_0001 * (0xB5_04F3 * d) + 0x4000_0000_0000;
    let low = 0xFF_FFFF * (0xB5_04F3 * d) - 0x4000_0000_0000;
    assert((0x8000_0000_0000 * w) * o <= high * o && low * o <= (0x8000_0000_0000 * w) * o)
        by (nonlinear_arith)
        requires
            high == 0x100_0001 * (0xB5_04F3 * d) + 0x4000_0000_0000,
            low == 0xFF_FFFF * (0xB5_04F3 * d) - 0x4000_0000_0000,
            0x80_0000 * p == (0xB5_04F3 * d) * o,
            0x100_0000 * (w * o - p) <= p + 0x80_0000 * o,
            0x100_0000 * (p - w * o) <= p + 0x80_0000 * o,
    ;
    lemma_cancel(0x8000_0000_0000 * w, high, o);
    lemma_cancel(low, 0x8000_0000_0000 * w, o);
    assert(2 * exact == radius * one) by (nonlinear_arith)
        requires
            exact == radius * half,
            one == 2 * half,
    ;
    assert(exact >= 0x80_0000_0000);
}

/// The value at which a layer is looked up, times the blur radius and divided by the square root of
/// two, is the distance, to about six digits; it has the sign of the distance.
#[verifier::spinoff_prover]
pub proof fn lemma_value_is_scaled_distance(negative: bool, distance: nat, radius: nat)
    requires
        1 <= radius <= 0x10_0000,
        distance <= 0x10_0000 * pow2(149),
    ensures
        ({
            let value = tail_value(
                Real::Finite { negative, units: distance },
                half_of(2 * radius as int),
            );
            &&& value is Finite
            &&& value->Finite_negative == negative
            &&& value->units <= 0x20_0000 * pow2(149)
            &&& 707_106_581 * (value->units * radius) <= 1_000_000_060 * distance + 1_000_000_000
                * radius
            &&& 707_106_981 * (value->units * radius) >= 999_999_940 * distance - 1_000_000_000
                * radius
        }),
{
    lemma_one();
    lemma_blur_width(radius);
    let one = pow2(149) as int;
    let width = product(
        Format::Single,
        product(Format::Single, half_of(2 * radius as int), single(HALF)),
        single(SQRT_2),
    )->units;
    let (d, w, r) = (distance as int, width as int, radius as int);
    assert(r * one >= one) by (nonlinear_arith)
        requires
            r >= 1,
            one > 0,
    ;
    let p = d * one;
    assert(p <= (0x20_0000 * one) * w) by (nonlinear_arith)
        requires
            p == d * one,
            d <= 0x10_0000 * one,
            one <= 2 * w,
            one > 0,
    ;
    lemma_rounds(negative, (distance * pow2(149)) as nat, width, 0x20_0000);
    let v = rounded(Format::Single, negative, distance * pow2(149), width)->units as int;
    let vr = v * r;
    assert((707_106_581 * vr) * one <= 1_000_000_000 * (v * w)) by (nonlinear_arith)
        requires
            vr == v * r,
            v >= 0,
            1_000_000_000 * w >= 707_106_581 * (r * one),
    ;
    assert((707_106_981 * vr) * one >= 1_000_000_000 * (v * w)) by (nonlinear_arith)
        requires
            vr == v * r,
            v >= 0,
            1_000_000_000 * w <= 707_106_981 * (r * one),
    ;
    let high = 1_000_000_060 * d + 1_000_000_000 * r;
    let low = 999_999_940 * d - 1_000_000_000 * r;
    assert(high * one == 1_000_000_060 * (d * one) + 1_000_000_000 * (r * one) && low * one
        == 999_999_940 * (d * one) - 1_000_000_000 * (r * one)) by (nonlinear_arith)
        requires
            high == 1_000_000_060 * d + 1_000_000_000 * r,
            low == 999_999_940 * d - 1_000_000_000 * r,
    ;
    lemma_cancel(707_106_581 * vr, high, one);
    lemma_cancel(low, 707_106_981 * vr, one);
}

/// The polynomial is taken at one over one and 0.3275911 times the value, whatever the sign, to
/// about six digits.
#[verifier::spinoff_prover]
#[verifier::rlimit(30)]
pub proof fn lemma_argument_is_reciprocal(negative: bool, value: nat)
    requires
        value <= 0x20_0000 * pow2(149),
    ensures
        ({
            let t = error_argument(Real::Finite { negative, units: value });
            let denominator = 10_000_000 * pow2(149) + 3_275_911 * value;
            let one = pow2(149);
            &&& t is Finite
            &&& !t->Finite_negative
            &&& t->units <= one
            &&& t->units * denominator <= 10_000_010 * (one * one)
            &&& t->units * denominator >= 9_999_990 * (one * one)
        }),
{
    lemma_one();
    let format = Format::Single;
    let one = pow2(149);
    lemma_pow2_values();
    vstd::arithmetic::power2::lemma2_to64();
    lemma_pow2_sum(25, 124);
    lemma_single(ERROR_FACTOR, false, 0xA7_BA05, 124);
    let factor = single(ERROR_FACTOR)->units;
    let square = one * one;
    let p = value * factor + square;
    let (v, f, o) = (value as int, factor as int, one as int);
    let k = 0xA7_BA05 * v + 0x200_0000 * o;
    assert(1 * one == one);
    assert(value * factor >= 0 && p <= 0x20_0001 * square) by (nonlinear_arith)
        requires
            p == value * factor + square,
            square == one * one,
            value <= 0x20_0000 * one,
            factor <= one,
    ;
    lemma_pow2_ordered(64, 149);
    assert(square >= 0x1_0000_0000_0000_0000 * one) by (nonlinear_arith)
        requires
            square == one * one,
            one >= 0x1_0000_0000_0000_0000,
    ;
    assert((0x20_0001 * one) * one == 0x20_0001 * square) by (nonlinear_arith)
        requires
            square == one * one,
    ;
    lemma_rounds(false, p, one, 0x20_0001);
    let w = rounded(format, false, p, one)->units as int;
    assert(0x200_0000 * p == k * o) by (nonlinear_arith)
        requires
            p == v * f + o * o,
            0x200_0000 * f == 0xA7_BA05 * o,
            k == 0xA7_BA05 * v + 0x200_0000 * o,
    ;
    let high = 0x100_0001 * k + 0x1_0000_0000_0000;
    let low = 0xFF_FFFF * k - 0x1_0000_0000_0000;
    assert((0x2_0000_0000_0000 * w) * o <= high * o && low * o <= (0x2_0000_0000_0000 * w) * o)
        by (nonlinear_arith)
        requires
            0x200_0000 * p == k * o,
            high == 0x100_0001 * k + 0x1_0000_0000_0000,
            low == 0xFF_FFFF * k - 0x1_0000_0000_0000,
            0x100_0000 * (w * o - p) <= p + 0x80_0000 * o,
            0x100_0000 * (p - w * o) <= p + 0x80_0000 * o,
    ;
    lemma_cancel(0x2_0000_0000_0000 * w, high, o);
    lemma_cancel(low, 0x2_0000_0000_0000 * w, o);
    lemma_rounded_whole(format, false, 1, one);
    assert(square * one <= p * one) by (nonlinear_arith)
        requires
            square <= p,
    ;
    assert((1 * one) * one == square);
    lemma_rounded_ordered(format, square, one, p, one);
    assert(w >= one);
    assert(square <= (1 * one) * w) by (nonlinear_arith)
        requires
            square == one * one,
            w >= one,
            one > 0,
    ;
    lemma_rounds(false, square, w as nat, 1);
    let t = rounded(format, false, square, w as nat)->units as int;
    let (tw, tk) = (t * w, t * k);
    assert(0x2_0000_0000_0000 * tw <= 0x100_0001 * tk + 0x1_0000_0000_0000 * t && 0xFF_FFFF * tk
        - 0x1_0000_0000_0000 * t <= 0x2_0000_0000_0000 * tw) by (nonlinear_arith)
        requires
            tw == t * w,
            tk == t * k,
            t >= 0,
            0x2_0000_0000_0000 * w <= 0x100_0001 * k + 0x1_0000_0000_0000,
            0xFF_FFFF * k - 0x1_0000_0000_0000 <= 0x2_0000_0000_0000 * w,
    ;
    let denominator = 10_000_000 * o + 3_275_911 * v;
    let td = t * denominator;
    assert(0x200_0000 * denominator <= 10_000_002 * k && 0x200_0000 * denominator >= 9_999_998
        * k);
    assert(0x200_0000 * td <= 10_000_002 * tk && 0x200_0000 * td >= 9_999_998 * tk)
        by (nonlinear_arith)
        requires
            td == t * denominator,
            tk == t * k,
            t >= 0,
            0x200_0000 * denominator <= 10_000_002 * k,
            0x200_0000 * denominator >= 9_999_998 * k,
    ;
}

/// One step down the polynomial: the sum so far is multiplied by `t`, and the next coefficient
/// added. Sums are counted in units; the exact ones in billionths, scaled by a power of one.
proof fn lemma_polynomial_step(
    one: int,
    scale: int,
    t: int,
    before: int,
    exact: int,
    coefficient: int,
    billionths: int,
    after: int,
    moved: int,
)
    requires
        one > 0,
        scale > 0,
        moved >= 0,
        0 <= t <= one,
        -(moved * (scale * one)) <= 1_000_000_000 * (before * scale) - exact <= moved * (scale
            * one),
        -100 * one <= 1_000_000_000 * coefficient - billionths * one <= 100 * one,
        -(one * one) <= 0x40_0000 * (after * one - (before * t + coefficient * one)) <= one * one,
    ensures
        ({
            let next = scale * one;
            let sum = exact * t + billionths * (next * one);
            let limit = (moved + 400) * (next * one);
            -limit <= 1_000_000_000 * (after * next) - sum <= limit
        }),
{
    let next = scale * one;
    let whole = next * one;
    let part = 1_000_000_000 * (before * scale) - exact;
    assert(-(moved * whole) <= part * t <= moved * whole) by (nonlinear_arith)
        requires
            whole == next * one,
            -(moved * next) <= part <= moved * next,
            0 <= t <= one,
            moved >= 0,
            next >= 0,
    ;
    assert(part * t == 1_000_000_000 * ((before * t) * scale) - exact * t) by (nonlinear_arith)
        requires
            part == 1_000_000_000 * (before * scale) - exact,
    ;
    let off = 1_000_000_000 * coefficient - billionths * one;
    assert(-(100 * whole) <= off * next <= 100 * whole) by (nonlinear_arith)
        requires
            whole == next * one,
            -100 * one <= off <= 100 * one,
            next >= 0,
    ;
    assert(off * next == 1_000_000_000 * ((coefficient * one) * scale) - billionths * whole)
        by (nonlinear_arith)
        requires
            off == 1_000_000_000 * coefficient - billionths * one,
            next == scale * one,
            whole == next * one,
    ;
    let slip = after * one - (before * t + coefficient * one);
    assert(-whole <= 0x40_0000 * (slip * scale) <= whole) by (nonlinear_arith)
        requires
            -(one * one) <= 0x40_0000 * slip <= one * one,
            next == scale * one,
            whole == next * one,
            scale > 0,
    ;
    assert(slip * scale == after * next - (before * t) * scale - (coefficient * one) * scale)
        by (nonlinear_arith)
        requires
            slip == after * one - (before * t + coefficient * one),
            next == scale * one,
    ;
    assert((moved + 400) * whole == moved * whole + 400 * whole) by (nonlinear_arith);
    assert(whole > 0) by (nonlinear_arith)
        requires
            scale > 0,
            one > 0,
            next == scale * one,
            whole == next * one,
    ;
}

/// A sum is at most so many tenths of one, whatever its sign.
proof fn lemma_sum_bounds(
    one: int,
    t: int,
    before: int,
    coefficient: int,
    after: int,
    low: int,
    high: int,
)
    requires
        one >= 0x40_0000,
        0 <= t <= one,
        low <= 0 <= high,
        low * one <= 10 * before <= high * one,
        -(one * one) <= 0x40_0000 * (after * one - (before * t + coefficient * one)) <= one * one,
    ensures
        low * (one * one) <= 10 * (before * t) <= high * (one * one),
        low * one + 10 * coefficient - one <= 10 * after <= high * one + 10 * coefficient + one,
{
    let square = one * one;
    assert(low * square <= 10 * (before * t) <= high * square) by (nonlinear_arith)
        requires
            square == one * one,
            0 <= t <= one,
            low <= 0 <= high,
            one > 0,
            low * one <= 10 * before <= high * one,
    ;
    let top = high * one + 10 * coefficient + one;
    let bottom = low * one + 10 * coefficient - one;
    assert(top * one == high * square + 10 * (coefficient * one) + square && bottom * one == low
        * square + 10 * (coefficient * one) - square && (10 * after) * one == 10 * (after * one))
        by (nonlinear_arith)
        requires
            square == one * one,
            top == high * one + 10 * coefficient + one,
            bottom == low * one + 10 * coefficient - one,
    ;
    lemma_cancel(10 * after, top, one);
    lemma_cancel(bottom, 10 * after, one);
}

/// A rounded product lies close to the exact one.
proof fn lemma_product_near(a: Real, b: Real)
    requires
        a is Finite,
        b is Finite,
        a->units * b->units <= 2 * (pow2(149) * pow2(149)),
    ensures
        ({
            let exact = units_with_sign(a) * units_with_sign(b);
            let result = product(Format::Single, a, b);
            let moved = units_with_sign(result) * pow2(149) - exact;
            &&& result is Finite
            &&& result->units <= 2 * pow2(149)
            &&& -(pow2(149) * pow2(149)) <= 0x40_0000 * moved <= pow2(149) * pow2(149)
        }),
{
    lemma_one();
    let one = pow2(149);
    let square = one * one;
    let p = a->units * b->units;
    assert(square >= 0x100_0000_0000 * one) by (nonlinear_arith)
        requires
            square == one * one,
            one >= 0x100_0000_0000,
    ;
    assert((2 * one) * one == 2 * square) by (nonlinear_arith)
        requires
            square == one * one,
    ;
    let negative = a->Finite_negative != b->Finite_negative;
    lemma_rounds(negative, p, one, 2);
    let units = rounded(Format::Single, negative, p, one)->units as int;
    let (x, y, o) = (a->units as int, b->units as int, one as int);
    assert((-units) * o == -(units * o) && (-x) * y == -(x * y) && x * (-y) == -(x * y) && (-x) * (
    -y) == x * y) by (nonlinear_arith);
}

/// A product with a number of at most one is no larger in size.
proof fn lemma_shrunk(one: int, t: int, before: int, low: int, high: int)
    requires
        one > 0,
        0 <= t <= one,
        low <= 0 <= high,
        low * one <= 10 * before <= high * one,
    ensures
        low * (one * one) <= 10 * (before * t) <= high * (one * one),
{
    assert(low * (one * one) <= 10 * (before * t) <= high * (one * one)) by (nonlinear_arith)
        requires
            0 <= t <= one,
            low <= 0 <= high,
            one > 0,
            low * one <= 10 * before <= high * one,
    ;
}

proof fn lemma_positive(a: int, b: int)
    requires
        a > 0,
        b > 0,
    ensures
        a * b > 0,
{
    assert(a * b > 0) by (nonlinear_arith)
        requires
            a > 0,
            b > 0,
    ;
}

/// A coefficient in units, by its billionths.
proof fn lemma_constant(coefficient: int, one: int, billionths: int)
    requires
        one > 0,
        -100 * one <= 1_000_000_000 * coefficient - billionths * one <= 100 * one,
    ensures
        -(100 * (one * one)) <= 1_000_000_000 * (coefficient * one) - billionths * (one * one)
            <= 100 * (one * one),
{
    let off = 1_000_000_000 * coefficient - billionths * one;
    assert(-(100 * (one * one)) <= off * one <= 100 * (one * one)) by (nonlinear_arith)
        requires
            -100 * one <= off <= 100 * one,
            one > 0,
    ;
    assert(off * one == 1_000_000_000 * (coefficient * one) - billionths * (one * one))
        by (nonlinear_arith)
        requires
            off == 1_000_000_000 * coefficient - billionths * one,
    ;
}

/// The polynomial of Abramowitz and Stegun 7.1.26, with its coefficients in billionths and its sums
/// scaled by powers of one: what is computed differs from it by less than three millionths.
#[verifier::spinoff_prover]
#[verifier::rlimit(40)]
pub proof fn lemma_polynomial_is_accurate(units: nat)
    requires
        units <= pow2(149),
    ensures
        ({
            let one = pow2(149) as int;
            let t = units as int;
            let second = one * one;
            let third = second * one;
            let fourth = third * one;
            let fifth = fourth * one;
            let sixth = fifth * one;
            let a = 1_061_405_429 * one * t - 1_453_152_027 * second;
            let b = a * t + 1_421_413_741 * third;
            let c = b * t - 284_496_736 * fourth;
            let d = c * t + 254_829_592 * fifth;
            let result = error_polynomial(Real::Finite { negative: false, units });
            let sum = if result->Finite_negative {
                -(result->units as int)
            } else {
                result->units as int
            };
            &&& result is Finite
            &&& result->units <= 2 * one
            &&& -(3000 * sixth) <= 1_000_000_000 * (sum * fifth) - d * t <= 3000 * sixth
        }),
{
    lemma_one();
    lemma_coefficients();
    let format = Format::Single;
    let one = pow2(149) as int;
    let t = units as int;
    let argument = Real::Finite { negative: false, units };
    let second = one * one;
    let third = second * one;
    let fourth = third * one;
    let fifth = fourth * one;
    let sixth = fifth * one;
    let a = 1_061_405_429 * one * t - 1_453_152_027 * second;
    let b = a * t + 1_421_413_741 * third;
    let c = b * t - 284_496_736 * fourth;
    let d = c * t + 254_829_592 * fifth;
    let c5 = units_with_sign(single(ERROR_FIFTH));
    let c4 = units_with_sign(single(ERROR_FOURTH));
    let c3 = units_with_sign(single(ERROR_THIRD));
    let c2 = units_with_sign(single(ERROR_SECOND));
    let c1 = units_with_sign(single(ERROR_FIRST));
    lemma_positive(one, one);
    lemma_positive(second, one);
    lemma_positive(third, one);
    lemma_constant(c4, one, -1_453_152_027);
    lemma_constant(c3, one, 1_421_413_741);
    lemma_constant(c2, one, -284_496_736);
    lemma_constant(c1, one, 254_829_592);
    lemma_shrunk(one, t, c5, 0, 11);
    let h4 = fused(format, single(ERROR_FIFTH), argument, single(ERROR_FOURTH));
    lemma_fused_near(single(ERROR_FIFTH), argument, single(ERROR_FOURTH));
    let s4 = units_with_sign(h4);
    lemma_sum_bounds(one, t, c5, c4, s4, 0, 11);
    lemma_shrunk(one, t, s4, -16, 0);
    let h3 = fused(format, h4, argument, single(ERROR_THIRD));
    lemma_fused_near(h4, argument, single(ERROR_THIRD));
    let s3 = units_with_sign(h3);
    lemma_sum_bounds(one, t, s4, c3, s3, -16, 0);
    lemma_shrunk(one, t, s3, -3, 16);
    let h2 = fused(format, h3, argument, single(ERROR_SECOND));
    lemma_fused_near(h3, argument, single(ERROR_SECOND));
    let s2 = units_with_sign(h2);
    lemma_sum_bounds(one, t, s3, c2, s2, -3, 16);
    lemma_shrunk(one, t, s2, -7, 15);
    let h1 = fused(format, h2, argument, single(ERROR_FIRST));
    lemma_fused_near(h2, argument, single(ERROR_FIRST));
    let s1 = units_with_sign(h1);
    lemma_sum_bounds(one, t, s2, c1, s1, -7, 15);
    lemma_shrunk(one, t, s1, -6, 19);
    assert((-(h1->units as int)) * t == -(h1->units * t)) by (nonlinear_arith);
    let y = product(format, h1, argument);
    lemma_product_near(h1, argument);
    let s0 = units_with_sign(y);
    assert(1 * one == one);
    assert(0 * one == 0);
    lemma_polynomial_step(one, 1, t, c5, 1_061_405_429 * one, c4, -1_453_152_027, s4, 100);
    lemma_polynomial_step(one, one, t, s4, a, c3, 1_421_413_741, s3, 500);
    lemma_polynomial_step(one, second, t, s3, b, c2, -284_496_736, s2, 900);
    lemma_polynomial_step(one, third, t, s2, c, c1, 254_829_592, s1, 1300);
    lemma_polynomial_step(one, fourth, t, s1, d, 0, 0, s0, 1700);
}

/// A rounded difference lies close to the exact one.
proof fn lemma_difference_near(a: Real, b: Real, size: nat)
    requires
        a is Finite,
        b is Finite,
        -size <= units_with_sign(a) - units_with_sign(b) <= size,
        size <= 8 * pow2(149),
    ensures
        ({
            let exact = units_with_sign(a) - units_with_sign(b);
            let result = difference(Format::Single, a, b);
            let moved = units_with_sign(result) - exact;
            &&& result is Finite
            &&& -(size + 0x80_0000) <= 0x100_0000 * moved <= size + 0x80_0000
        }),
{
    lemma_one();
    let exact = units_with_sign(a) - units_with_sign(b);
    assert((8 * pow2(149)) * 1 == 8 * pow2(149));
    lemma_rounds(exact < 0, magnitude(exact), 1, 8);
}

/// One less the error, with the sign of the value: what the polynomial and the exponential give.
#[verifier::spinoff_prover]
#[verifier::rlimit(30)]
proof fn lemma_complement_near(negative: bool, y: Real, exponential: nat)
    requires
        y is Finite,
        y->units <= 2 * pow2(149),
        exponential <= pow2(149),
    ensures
        ({
            let one = pow2(149) as int;
            let format = Format::Single;
            let unit = Real::Finite { negative: false, units: pow2(149) };
            let e = Real::Finite { negative: false, units: exponential };
            let error = difference(format, unit, product(format, y, e));
            let sign = Real::Finite { negative, units: pow2(149) };
            let result = difference(format, unit, product(format, sign, error));
            let tail = units_with_sign(y) * exponential;
            let exact = if negative {
                2 * (one * one) - tail
            } else {
                tail
            };
            &&& result is Finite
            &&& result->units <= 5 * one
            &&& -(one * one) <= 0x10_0000 * (units_with_sign(result) * one - exact) <= one * one
        }),
{
    lemma_one();
    let format = Format::Single;
    let one = pow2(149) as int;
    let square = one * one;
    let e = Real::Finite { negative: false, units: exponential };
    let unit = Real::Finite { negative: false, units: pow2(149) };
    assert(square >= 0x100_0000_0000 * one) by (nonlinear_arith)
        requires
            square == one * one,
            one >= 0x100_0000_0000,
    ;
    assert(y->units * exponential <= 2 * (one * one)) by (nonlinear_arith)
        requires
            y->units <= 2 * one,
            exponential <= one,
            one > 0,
    ;
    lemma_product_near(y, e);
    let m = product(format, y, e);
    let ms = units_with_sign(m);
    lemma_difference_near(unit, m, (3 * one) as nat);
    let error = difference(format, unit, m);
    let es = units_with_sign(error);
    let size = error->units;
    lemma_rounds_scaled(negative != error->Finite_negative, size, 4);
    assert(pow2(149) * size == size * pow2(149)) by (nonlinear_arith);
    let turned = product(format, Real::Finite { negative, units: pow2(149) }, error);
    let ts = units_with_sign(turned);
    assert(turned == rounded(
        format,
        negative != error->Finite_negative,
        size * pow2(149),
        pow2(149),
    ));
    assert(ts <= 4 * one && ts >= -4 * one);
    lemma_difference_near(unit, turned, (5 * one) as nat);
    let result = difference(format, unit, turned);
    let rs = units_with_sign(result);
    let expected = if negative {
        2 * one - ms
    } else {
        ms
    };
    let moved = rs - expected;
    assert(-(12 * one) <= 0x100_0000 * moved <= 12 * one);
    assert(-(12 * square) <= 0x100_0000 * (moved * one) <= 12 * square) by (nonlinear_arith)
        requires
            square == one * one,
            -(12 * one) <= 0x100_0000 * moved <= 12 * one,
            one > 0,
    ;
    assert(moved * one == rs * one - expected * one) by (nonlinear_arith)
        requires
            moved == rs - expected,
    ;
    assert((2 * one - ms) * one == 2 * square - ms * one) by (nonlinear_arith)
        requires
            square == one * one,
    ;
}

/// The complementary error function of a value that is not negative is the polynomial times the
/// exponential; of a negative one it is two less that, to a millionth.
#[verifier::spinoff_prover]
pub proof fn lemma_complement_is_accurate(negative: bool, value: nat, exponential: nat)
    requires
        value <= 0x20_0000 * pow2(149),
        exponential <= pow2(149),
    ensures
        ({
            let one = pow2(149) as int;
            let v = Real::Finite { negative, units: value };
            let y = error_polynomial(error_argument(v));
            let polynomial = if y->Finite_negative {
                -(y->units as int)
            } else {
                y->units as int
            };
            let result = error_complement(v, Real::Finite { negative: false, units: exponential });
            let complement = if result->Finite_negative {
                -(result->units as int)
            } else {
                result->units as int
            };
            let tail = polynomial * exponential;
            let exact = if negative {
                2 * (one * one) - tail
            } else {
                tail
            };
            &&& result is Finite
            &&& result->units <= 5 * one
            &&& -(one * one) <= 0x10_0000 * (complement * one - exact) <= one * one
        }),
{
    let v = Real::Finite { negative, units: value };
    assert(1 * pow2(149) == pow2(149));
    lemma_argument_is_reciprocal(negative, value);
    lemma_polynomial_is_accurate(error_argument(v)->units);
    lemma_complement_near(negative, error_polynomial(error_argument(v)), exponential);
}

} // verus!
