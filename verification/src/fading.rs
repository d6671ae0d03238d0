//! Why the shadow fades: the numbers behind a layer fall from pixel to pixel.
//!
//! Numbers are counted in the units of single precision, and a distance in half pixels. Two pixels
//! are a whole pixel apart, which outweighs every rounding.

use vstd::arithmetic::power2::pow2;
use vstd::prelude::*;

#[allow(unused_imports)]
use crate::binary32::{half_of, lemma_half_exact, lemma_half_negated};
#[allow(unused_imports)]
use crate::falloff::{
    error_argument, error_polynomial, exponent_of, lemma_single, single, tail_of_gaussian,
    tail_value, ERROR_FACTOR, ERROR_FIFTH, ERROR_FIRST, ERROR_FOURTH, ERROR_SECOND, ERROR_THIRD,
    HALF, PRIMARY_RADIUS, SECONDARY_RADIUS, SQRT_2,
};
#[allow(unused_imports)]
use crate::number::{
    absolute, at_least, difference, fused, lemma_difference_ordered, lemma_product_ordered,
    lemma_rounded_at_most, lemma_rounded_near, lemma_rounded_ordered, lemma_rounded_whole,
    lemma_sum_ordered, magnitude, negated, product, quotient, rounded, signed_units, whole, zero,
    Format, Real,
};
#[allow(unused_imports)]
use crate::powers::{lemma_pow2_ordered, lemma_pow2_sum, lemma_pow2_values};

verus! {

/// The longest distance that is looked at, in half pixels.
pub open spec fn farthest() -> int {
    180
}

/// The blur radius is one of the two layers'.
pub open spec fn is_layer(blur_radius: u32) -> bool {
    blur_radius == PRIMARY_RADIUS || blur_radius == SECONDARY_RADIUS
}

/// The distance in blur widths for a layer, at a distance in half pixels.
pub open spec fn value_at(n: int, blur_radius: u32) -> Real {
    tail_value(half_of(n), half_of(2 * blur_radius))
}

/// A number that is finite and not negative.
pub open spec fn is_plain(a: Real) -> bool {
    a matches Real::Finite { negative, .. } && !negative
}

/// The number one, in units.
pub proof fn lemma_one()
    ensures
        Format::Single.one() == pow2(149),
        pow2(149) > 0,
        pow2(149) == 2 * pow2(148),
        pow2(149) == 0x80_0000 * pow2(126),
        pow2(149) == 0x200_0000 * pow2(124),
        pow2(149) >= 0x100_0000_0000,
{
    lemma_pow2_values();
    vstd::arithmetic::power2::lemma2_to64();
    lemma_pow2_sum(1, 148);
    lemma_pow2_sum(23, 126);
    lemma_pow2_sum(25, 124);
    lemma_pow2_ordered(40, 149);
    vstd::arithmetic::power2::lemma2_to64_rest();
}

/// The standard deviation times the square root of two.
spec fn width_of(blur_radius: u32) -> Real {
    product(
        Format::Single,
        product(Format::Single, half_of(2 * blur_radius), single(HALF)),
        single(SQRT_2),
    )
}

/// The standard deviation is half of the blur radius, exactly.
proof fn lemma_deviation(blur_radius: u32)
    requires
        is_layer(blur_radius),
    ensures
        product(Format::Single, half_of(2 * blur_radius), single(HALF)) == half_of(
            blur_radius as int,
        ),
{
    lemma_one();
    lemma_half_exact(2 * blur_radius);
    lemma_half_exact(blur_radius as int);
    lemma_single(HALF, false, 0x80_0000, 125);
    lemma_pow2_values();
    lemma_pow2_sum(23, 125);
    let one = pow2(149);
    let half = pow2(148);
    let times = (blur_radius / 2) as nat;
    assert(((2 * blur_radius) as nat * half) * half == (times * one) * one) by (nonlinear_arith)
        requires
            one == 2 * half,
            blur_radius == 2 * times,
    ;
    assert(blur_radius as nat * half == times * one) by (nonlinear_arith)
        requires
            one == 2 * half,
            blur_radius == 2 * times,
    ;
    lemma_rounded_whole(Format::Single, false, times, one);
}

/// The standard deviation times the square root of two: 33.94 for one layer, 16.97 for the other.
proof fn lemma_width(blur_radius: u32)
    requires
        is_layer(blur_radius),
    ensures
        ({
            let width = width_of(blur_radius);
            let one = pow2(149);
            &&& is_plain(width)
            &&& blur_radius == 48 ==> 33941 * one <= 1000 * width->units <= 33942 * one
            &&& blur_radius == 24 ==> 16970 * one <= 1000 * width->units <= 16971 * one
        }),
{
    lemma_one();
    let one = pow2(149);
    let half = pow2(148);
    lemma_half_exact(blur_radius as int);
    lemma_deviation(blur_radius);
    let root = single(SQRT_2)->units;
    lemma_single(SQRT_2, false, 0xB5_04F3, 126);
    let deviation = blur_radius as nat * half;
    let p = deviation * root;
    let times = (blur_radius / 2) as nat;
    assert(deviation == times * one) by (nonlinear_arith)
        requires
            deviation == blur_radius * half,
            blur_radius == 2 * times,
            one == 2 * half,
    ;
    assert(times * root == if blur_radius == 48 { 24 * root } else { 12 * root })
        by (nonlinear_arith)
        requires
            times == if blur_radius == 48 { 24int } else { 12int },
    ;
    assert(p == (times * root) * one) by (nonlinear_arith)
        requires
            p == deviation * root,
            deviation == times * one,
    ;
    assert(p <= (64 * one) * one) by (nonlinear_arith)
        requires
            p == (times * root) * one,
            times * root <= 64 * one,
            one > 0,
    ;
    lemma_rounded_at_most(Format::Single, false, p, one, 64);
    lemma_rounded_near(Format::Single, false, p, one);
    let width = rounded(Format::Single, false, p, one)->units;
    let exact = times * root;
    let moved = magnitude(width - exact);
    assert(magnitude(width * one - p) == moved * one) by (nonlinear_arith)
        requires
            p == exact * one,
            magnitude(width * one - p) == if width * one - p < 0 {
                p - width * one
            } else {
                width * one - p
            },
            moved == if width - exact < 0 {
                exact - width
            } else {
                width - exact
            },
            one > 0,
    ;
    assert(2 * (moved * one) <= one ==> moved == 0) by (nonlinear_arith)
        requires
            one > 0,
    ;
    assert(0x100_0000 * (moved * one) <= p ==> 0x100_0000 * moved <= exact) by (nonlinear_arith)
        requires
            p == exact * one,
            one > 0,
    ;
}

/// A common factor can be left out.
pub proof fn lemma_cancel(a: int, b: int, factor: int)
    requires
        factor > 0,
        a * factor <= b * factor,
    ensures
        a <= b,
{
    assert(a <= b) by (nonlinear_arith)
        requires
            factor > 0,
            a * factor <= b * factor,
    ;
}

/// A rounded quotient lies close to the exact one.
proof fn lemma_quotient_near(p: nat, q: nat, n: nat)
    requires
        q > 0,
        n < 0x100_0000,
        p <= (n * pow2(149)) * q,
        0x80_0000 * q <= p,
    ensures
        rounded(Format::Single, false, p, q) matches Real::Finite { negative, units } && !negative
            && units <= n * pow2(149) && 0x100_0000 * (units * q - p) <= p && 0x100_0000 * (p
            - units * q) <= p,
{
    lemma_one();
    lemma_rounded_at_most(Format::Single, false, p, q, n);
    lemma_rounded_near(Format::Single, false, p, q);
}

/// The distance in widths, between bounds that grow with it.
#[verifier::spinoff_prover]
proof fn lemma_value(n: int, blur_radius: u32)
    requires
        is_layer(blur_radius),
        1 <= n <= farthest(),
    ensures
        ({
            let value = value_at(n, blur_radius);
            let halves = n * pow2(148);
            &&& is_plain(value)
            &&& blur_radius == 48 ==> 294618 * halves <= 10_000_000 * value->units <= 294630
                * halves
            &&& blur_radius == 24 ==> 589238 * halves <= 10_000_000 * value->units <= 589278
                * halves
        }),
{
    lemma_one();
    lemma_width(blur_radius);
    lemma_half_exact(n);
    let one = pow2(149);
    let half = pow2(148);
    let halves = n as nat * half;
    let width = width_of(blur_radius)->units;
    let p = halves * one;
    assert(half <= halves <= 180 * half) by (nonlinear_arith)
        requires
            halves == n * half,
            1 <= n <= 180,
    ;
    assert(p <= (8 * one) * width) by (nonlinear_arith)
        requires
            p == halves * one,
            halves <= 8 * width,
            one > 0,
    ;
    assert(0x80_0000 * width <= p) by (nonlinear_arith)
        requires
            p == halves * one,
            width <= 34 * one,
            halves >= 0x1100_0000,
    ;
    lemma_quotient_near(p, width, 8);
    let value = rounded(Format::Single, false, p, width)->units;
    if blur_radius == 48 {
        lemma_value_bounds(value, width, halves, one, 33941, 33942);
    } else {
        lemma_value_bounds(value, width, halves, one, 16970, 16971);
    }
}

proof fn lemma_value_bounds(value: nat, width: nat, halves: nat, one: nat, low: int, high: int)
    requires
        one > 0,
        low * one <= 1000 * width <= high * one,
        0x100_0000 * (value * width - halves * one) <= halves * one,
        0x100_0000 * (halves * one - value * width) <= halves * one,
    ensures
        0x100_0000 * (low * value) <= 16_777_217_000 * halves,
        16_777_215_000 * halves <= 0x100_0000 * (high * value),
{
    assert((0x100_0000 * (low * value)) * one <= (16_777_217_000 * halves) * one)
        by (nonlinear_arith)
        requires
            0x100_0000 * (value * width - halves * one) <= halves * one,
            low * one <= 1000 * width,
            value >= 0,
    ;
    lemma_cancel(
        0x100_0000 * (low * value),
        (16_777_217_000 * halves) as int,
        one as int,
    );
    assert((16_777_215_000 * halves) * one <= (0x100_0000 * (high * value)) * one)
        by (nonlinear_arith)
        requires
            0x100_0000 * (halves * one - value * width) <= halves * one,
            1000 * width <= high * one,
            value >= 0,
    ;
    lemma_cancel((16_777_215_000 * halves) as int, 0x100_0000 * (high * value), one as int);
}

/// What the polynomial's argument is one over: one, and about 0.004826 or 0.009652 for each half
/// pixel.
#[verifier::spinoff_prover]
proof fn lemma_widened(n: int, blur_radius: u32)
    requires
        is_layer(blur_radius),
        1 <= n <= farthest(),
    ensures
        ({
            let value = value_at(n, blur_radius);
            let one = pow2(149);
            let widened = fused(
                Format::Single,
                absolute(value),
                single(ERROR_FACTOR),
                whole(Format::Single, 1),
            );
            &&& is_plain(widened)
            &&& blur_radius == 48 ==> 4825 * (n * one) <= 1_000_000 * (widened->units - one) <= 4827
                * (n * one)
            &&& blur_radius == 24 ==> 9650 * (n * one) <= 1_000_000 * (widened->units - one) <= 9653
                * (n * one)
        }),
{
    lemma_one();
    lemma_value(n, blur_radius);
    let one = pow2(149);
    let half = pow2(148);
    let halves = n as nat * half;
    let value = value_at(n, blur_radius)->units;
    lemma_single(ERROR_FACTOR, false, 0xA7_BA05, 124);
    let factor = single(ERROR_FACTOR)->units;
    assert(1 * one == one);
    assert(n * one == 2 * halves) by (nonlinear_arith)
        requires
            one == 2 * half,
            halves == n * half,
    ;
    assert(halves <= 180 * half) by (nonlinear_arith)
        requires
            halves == n * half,
            1 <= n <= 180,
    ;
    assert(half <= halves) by (nonlinear_arith)
        requires
            halves == n * half,
            1 <= n,
    ;
    assert(n * half == halves);
    assert(value <= 6 * one);
    let p = value * factor + one * one;
    assert(value * factor >= 0 && one * one > 0) by (nonlinear_arith)
        requires
            value >= 0,
            factor >= 0,
            one > 0,
    ;
    let exact = 0xA7_BA05 * value + 0x200_0000 * one;
    assert(0x200_0000 * p == exact * one) by (nonlinear_arith)
        requires
            p == value * factor + one * one,
            0x200_0000 * factor == 0xA7_BA05 * one,
            exact == 0xA7_BA05 * value + 0x200_0000 * one,
    ;
    assert(0x200_0000 * p <= 0x200_0000 * ((4 * one) * one)) by (nonlinear_arith)
        requires
            0x200_0000 * p == exact * one,
            exact <= 0x800_0000 * one,
            one > 0,
    ;
    assert(0x80_0000 * one <= p) by (nonlinear_arith)
        requires
            p >= one * one,
            one >= 0x80_0000,
    ;
    lemma_quotient_near(p, one, 4);
    let widened = rounded(Format::Single, false, p, one)->units;
    assert((0x2_0000_0000_0000 * widened) * one <= (0x100_0001 * exact) * one)
        by (nonlinear_arith)
        requires
            0x100_0000 * (widened * one - p) <= p,
            0x200_0000 * p == exact * one,
    ;
    lemma_cancel((0x2_0000_0000_0000 * widened) as int, (0x100_0001 * exact) as int, one as int);
    assert((0xFF_FFFF * exact) * one <= (0x2_0000_0000_0000 * widened) * one)
        by (nonlinear_arith)
        requires
            0x100_0000 * (p - widened * one) <= p,
            0x200_0000 * p == exact * one,
    ;
    lemma_cancel((0xFF_FFFF * exact) as int, (0x2_0000_0000_0000 * widened) as int, one as int);
}

/// The polynomial's argument lies between 0.36 and 0.9955.
#[verifier::spinoff_prover]
proof fn lemma_argument(n: int, blur_radius: u32)
    requires
        is_layer(blur_radius),
        1 <= n <= farthest(),
    ensures
        ({
            let value = value_at(n, blur_radius);
            let one = pow2(149);
            let widened = fused(
                Format::Single,
                absolute(value),
                single(ERROR_FACTOR),
                whole(Format::Single, 1),
            )->units;
            let argument = error_argument(value);
            let together = argument->units * widened;
            &&& is_plain(argument)
            &&& 36 * one <= 100 * argument->units
            &&& 10_000 * argument->units <= 9955 * one
            &&& 0xFF_FFFF * (one * one) <= 0x100_0000 * together <= 0x100_0001 * (one * one)
            &&& one <= widened
            &&& 100 * widened <= 275 * one
        }),
{
    lemma_one();
    lemma_widened(n, blur_radius);
    let one = pow2(149);
    let value = value_at(n, blur_radius);
    let widened = fused(
        Format::Single,
        absolute(value),
        single(ERROR_FACTOR),
        whole(Format::Single, 1),
    )->units;
    assert(one <= n * one <= 180 * one) by (nonlinear_arith)
        requires
            1 <= n <= 180,
    ;
    assert(1 * one == one);
    let p = one * one;
    assert(p <= (1 * one) * widened) by (nonlinear_arith)
        requires
            p == one * one,
            one <= widened,
    ;
    assert(0x80_0000 * widened <= p) by (nonlinear_arith)
        requires
            p == one * one,
            widened <= 3 * one,
            one >= 0x180_0000,
    ;
    assert(p > 0) by (nonlinear_arith)
        requires
            p == one * one,
            one > 0,
    ;
    lemma_quotient_near(p, widened, 1);
    let argument = rounded(Format::Single, false, p, widened)->units;
    let together = argument * widened;
    assert((1_004_825 * argument) * one <= (1_000_001 * one) * one) by (nonlinear_arith)
        requires
            together == argument * widened,
            0x100_0000 * (together - one * one) <= one * one,
            1_004_825 * one <= 1_000_000 * widened,
    ;
    lemma_cancel((1_004_825 * argument) as int, (1_000_001 * one) as int, one as int);
    assert((999_999 * one) * one <= (2_750_000 * argument) * one) by (nonlinear_arith)
        requires
            together == argument * widened,
            0x100_0000 * (one * one - together) <= one * one,
            100 * widened <= 275 * one,
    ;
    lemma_cancel((999_999 * one) as int, (2_750_000 * argument) as int, one as int);
}

/// From pixel to pixel the polynomial's argument falls by a thousandth at least.
#[verifier::spinoff_prover]
proof fn lemma_argument_falls(near: int, far: int, blur_radius: u32)
    requires
        is_layer(blur_radius),
        1 <= near,
        near + 2 <= far <= farthest(),
    ensures
        pow2(149) <= 1024 * (error_argument(value_at(near, blur_radius))->units
            - error_argument(value_at(far, blur_radius))->units),
{
    lemma_one();
    lemma_widened(near, blur_radius);
    lemma_widened(far, blur_radius);
    lemma_argument(near, blur_radius);
    lemma_argument(far, blur_radius);
    let one = pow2(149) as int;
    let a = value_at(near, blur_radius);
    let b = value_at(far, blur_radius);
    let factor = single(ERROR_FACTOR);
    let wa = fused(Format::Single, absolute(a), factor, whole(Format::Single, 1))->units as int;
    let wb = fused(Format::Single, absolute(b), factor, whole(Format::Single, 1))->units as int;
    let ta = error_argument(a)->units as int;
    let tb = error_argument(b)->units as int;
    assert(near * one + 2 * one <= far * one) by (nonlinear_arith)
        requires
            near + 2 <= far,
            one > 0,
    ;
    assert(near * one <= 180 * one) by (nonlinear_arith)
        requires
            near <= 180,
            one > 0,
    ;
    assert(9 * one <= 1000 * (wb - wa));
    lemma_gap(one, wa, wb, ta, tb);
}

proof fn lemma_gap(one: int, wa: int, wb: int, ta: int, tb: int)
    requires
        one > 0,
        one <= wa,
        one <= wb,
        100 * wa <= 275 * one,
        100 * wb <= 275 * one,
        9 * one <= 1000 * (wb - wa),
        0xFF_FFFF * (one * one) <= 0x100_0000 * (ta * wa),
        0x100_0000 * (tb * wb) <= 0x100_0001 * (one * one),
    ensures
        one <= 1024 * (ta - tb),
{
    let square = one * one;
    let gap = ta - tb;
    let both = wa * wb;
    assert(square > 0) by (nonlinear_arith)
        requires
            square == one * one,
            one > 0,
    ;
    let a = ta * wa;
    let b = tb * wb;
    assert(gap * both == a * wb - b * wa) by (nonlinear_arith)
        requires
            gap == ta - tb,
            both == wa * wb,
            a == ta * wa,
            b == tb * wb,
    ;
    assert(0xFF_FFFF * square * wb <= 0x100_0000 * (a * wb)) by (nonlinear_arith)
        requires
            0xFF_FFFF * square <= 0x100_0000 * a,
            wb > 0,
    ;
    assert(0x100_0000 * (b * wa) <= 0x100_0001 * square * wa) by (nonlinear_arith)
        requires
            0x100_0000 * b <= 0x100_0001 * square,
            wa > 0,
    ;
    assert(0xFF_FFFF * square * wb - 0x100_0001 * square * wa == square * (0x100_0000 * (wb - wa)
        - wa - wb)) by (nonlinear_arith);
    assert(square * (150_000 * one) <= square * (0x100_0000 * (wb - wa) - wa - wb))
        by (nonlinear_arith)
        requires
            150_000 * one <= 0x100_0000 * (wb - wa) - wa - wb,
            square > 0,
    ;
    assert(0x100_0000 * (gap * both) >= square * (150_000 * one));
    assert(10_000 * both <= 75_625 * square) by (nonlinear_arith)
        requires
            both == wa * wb,
            square == one * one,
            0 < wa,
            0 < wb,
            100 * wa <= 275 * one,
            100 * wb <= 275 * one,
    ;
    assert(both > 0) by (nonlinear_arith)
        requires
            both == wa * wb,
            wa > 0,
            wb > 0,
    ;
    if 1024 * gap < one {
        assert(1024 * (gap * both) <= one * both) by (nonlinear_arith)
            requires
                1024 * gap < one,
                both > 0,
        ;
        assert(10_000 * (one * both) <= 75_625 * (one * square)) by (nonlinear_arith)
            requires
                10_000 * both <= 75_625 * square,
                one > 0,
        ;
        assert(square * (150_000 * one) == 150_000 * (one * square)) by (nonlinear_arith);
        assert(one * square > 0) by (nonlinear_arith)
            requires
                one > 0,
                square > 0,
        ;
        assert(false);
    }
}

/// The value of a finite number in units, with its sign.
pub open spec fn units_with_sign(a: Real) -> int {
    signed_units(a->Finite_negative, a->units)
}

proof fn lemma_signed_times(negative: bool, a: nat, b: nat)
    ensures
        signed_units(negative, a * b) == signed_units(negative, a) * b,
{
    assert((-(a as int)) * b == -(a * b)) by (nonlinear_arith);
}

/// A product and a sum, rounded once, lie close to the exact ones.
pub proof fn lemma_fused_near(x: Real, t: Real, c: Real)
    requires
        x is Finite,
        is_plain(t),
        c is Finite,
        ({
            let exact = units_with_sign(x) * t->units + units_with_sign(c) * pow2(149);
            -2 * (pow2(149) * pow2(149)) <= exact <= 2 * (pow2(149) * pow2(149))
        }),
    ensures
        ({
            let exact = units_with_sign(x) * t->units + units_with_sign(c) * pow2(149);
            let result = fused(Format::Single, x, t, c);
            let moved = units_with_sign(result) * pow2(149) - exact;
            &&& result is Finite
            &&& -(pow2(149) * pow2(149)) <= 0x40_0000 * moved <= pow2(149) * pow2(149)
        }),
{
    lemma_one();
    let one = pow2(149);
    let square = one * one;
    let exact = units_with_sign(x) * t->units + units_with_sign(c) * one;
    let (ux, ut, uc) = (x->units, t->units, c->units);
    lemma_signed_times(x->Finite_negative, ux, ut);
    lemma_signed_times(c->Finite_negative, uc, one);
    assert(0x40_0000 * one <= square) by (nonlinear_arith)
        requires
            square == one * one,
            one >= 0x40_0000,
    ;
    assert(0 * one == 0);
    let p = magnitude(exact);
    assert((2 * one) * one == 2 * square) by (nonlinear_arith)
        requires
            square == one * one,
    ;
    if exact != 0 {
        lemma_rounded_at_most(Format::Single, exact < 0, p, one, 2);
        lemma_rounded_near(Format::Single, exact < 0, p, one);
        let units = rounded(Format::Single, exact < 0, p, one)->units;
        assert((-units) * one == -(units * one)) by (nonlinear_arith);
    }
}

/// The polynomial down to the fourth power's sum, the third's and the second's.
spec fn partial_sums(t: Real) -> (Real, Real, Real) {
    let fourth = fused(Format::Single, single(ERROR_FIFTH), t, single(ERROR_FOURTH));
    let third = fused(Format::Single, fourth, t, single(ERROR_THIRD));
    let second = fused(Format::Single, third, t, single(ERROR_SECOND));
    (fourth, third, second)
}

/// The coefficients of the polynomial, in units.
pub proof fn lemma_coefficients()
    ensures
        ({
            let one = pow2(149);
            &&& is_plain(single(ERROR_FIFTH))
            &&& single(ERROR_FOURTH) is Finite
            &&& single(ERROR_FOURTH)->Finite_negative
            &&& is_plain(single(ERROR_THIRD))
            &&& single(ERROR_SECOND) is Finite
            &&& single(ERROR_SECOND)->Finite_negative
            &&& is_plain(single(ERROR_FIRST))
            &&& 0x80_0000 * single(ERROR_FIFTH)->units == 0x87_DC22 * one
            &&& 0x80_0000 * single(ERROR_FOURTH)->units == 0xBA_00E3 * one
            &&& 0x80_0000 * single(ERROR_THIRD)->units == 0xB5_F0E3 * one
            &&& 0x200_0000 * single(ERROR_SECOND)->units == 0x91_A98E * one
            &&& 0x200_0000 * single(ERROR_FIRST)->units == 0x82_7906 * one
        }),
{
    lemma_one();
    lemma_single(ERROR_FIFTH, false, 0x87_DC22, 126);
    lemma_single(ERROR_FOURTH, true, 0xBA_00E3, 126);
    lemma_single(ERROR_THIRD, false, 0xB5_F0E3, 126);
    lemma_single(ERROR_SECOND, true, 0x91_A98E, 124);
    lemma_single(ERROR_FIRST, false, 0x82_7906, 124);
}

/// How the partial sums, counted in units, follow from each other, up to rounding.
spec fn follow(one: int, t: int, fourth: int, third: int, second: int) -> bool {
    let square = one * one;
    &&& 0x87_DC22 * t - 0xBA_00E5 * one <= 0x80_0000 * fourth <= 0x87_DC22 * t - 0xBA_00E1 * one
    &&& 0x80_0000 * (fourth * t) + 0xB5_F0E1 * square <= 0x80_0000 * (third * one) <= 0x80_0000 * (
    fourth * t) + 0xB5_F0E5 * square
    &&& 0x200_0000 * (third * t) - 0x91_A996 * square <= 0x200_0000 * (second * one) <= 0x200_0000
        * (third * t) - 0x91_A986 * square
}

/// The third power's sum lies close to one.
proof fn lemma_third_bounds(one: int, t: int, fourth: int, third: int)
    requires
        one > 0,
        36 * one <= 100 * t,
        t <= one,
        0x87_DC22 * t - 0xBA_00E5 * one <= 0x80_0000 * fourth <= 0x87_DC22 * t - 0xBA_00E1 * one,
        0x80_0000 * (fourth * t) + 0xB5_F0E1 * (one * one) <= 0x80_0000 * (third * one) <= 0x80_0000
            * (fourth * t) + 0xB5_F0E5 * (one * one),
    ensures
        924 * one <= 1000 * third <= 1040 * one,
{
    let square = one * one;
    let tt = t * t;
    let mixed = one * t;
    assert(0x80_0000 * (fourth * t) >= 0x87_DC22 * tt - 0xBA_00E5 * mixed) by (nonlinear_arith)
        requires
            0x87_DC22 * t - 0xBA_00E5 * one <= 0x80_0000 * fourth,
            t >= 0,
            tt == t * t,
            mixed == one * t,
    ;
    assert(0x80_0000 * (fourth * t) <= 0x87_DC22 * tt - 0xBA_00E1 * mixed) by (nonlinear_arith)
        requires
            0x80_0000 * fourth <= 0x87_DC22 * t - 0xBA_00E1 * one,
            t >= 0,
            tt == t * t,
            mixed == one * t,
    ;
    // The square of twice the first factor times t, less the second.
    assert(0x10F_B844 * (0x10F_B844 * tt) - 0x21F_7088 * (0xBA_00E5 * mixed) + 0xBA_00E5 * (
    0xBA_00E5
        * square) >= 0) by (nonlinear_arith)
        requires
            tt == t * t,
            mixed == one * t,
            square == one * one,
    {
        let d = 0x10F_B844 * t - 0xBA_00E5 * one;
        assert(d * d >= 0);
        assert(d * d == 0x10F_B844 * (0x10F_B844 * tt) - 0x21F_7088 * (0xBA_00E5 * mixed)
            + 0xBA_00E5 * (0xBA_00E5 * square));
    }
    assert(square > 0) by (nonlinear_arith)
        requires
            square == one * one,
            one > 0,
    ;
    assert(100 * tt <= 136 * mixed - 36 * square) by (nonlinear_arith)
        requires
            tt == t * t,
            mixed == one * t,
            square == one * one,
            36 * one <= 100 * t,
            t <= one,
    {
        assert((100 * t - 36 * one) * (one - t) >= 0);
    }
    assert(mixed >= 0) by (nonlinear_arith)
        requires
            mixed == one * t,
            one > 0,
            t >= 0,
    ;
    assert((924 * one) * one <= (1000 * third) * one) by (nonlinear_arith)
        requires
            square == one * one,
            924 * square <= 1000 * (third * one),
    ;
    assert((1000 * third) * one <= (1040 * one) * one) by (nonlinear_arith)
        requires
            square == one * one,
            1000 * (third * one) <= 1040 * square,
    ;
    lemma_cancel(924 * one, 1000 * third, one);
    lemma_cancel(1000 * third, 1040 * one, one);
}

/// The second power's sum is positive, and at most 0.752.
proof fn lemma_second_bounds(one: int, t: int, third: int, second: int)
    requires
        one > 0,
        36 * one <= 100 * t,
        10_000 * t <= 9955 * one,
        924 * one <= 1000 * third <= 1040 * one,
        0x200_0000 * (third * t) - 0x91_A996 * (one * one) <= 0x200_0000 * (second * one)
            <= 0x200_0000 * (third * t) - 0x91_A986 * (one * one),
    ensures
        0 < second,
        1000 * second <= 752 * one,
{
    let square = one * one;
    assert(square > 0) by (nonlinear_arith)
        requires
            square == one * one,
            one > 0,
    ;
    assert(100_000 * (third * t) >= 33_264 * square) by (nonlinear_arith)
        requires
            square == one * one,
            36 * one <= 100 * t,
            924 * one <= 1000 * third,
            one > 0,
    ;
    assert(10_000_000 * (third * t) <= 10_353_200 * square) by (nonlinear_arith)
        requires
            square == one * one,
            0 <= t,
            10_000 * t <= 9955 * one,
            1000 * third <= 1040 * one,
            one > 0,
    ;
    assert(second * one > 0);
    assert(second > 0) by (nonlinear_arith)
        requires
            second * one > 0,
            one > 0,
    ;
    assert((1000 * second) * one <= (752 * one) * one) by (nonlinear_arith)
        requires
            square == one * one,
            1000 * (second * one) <= 752 * square,
    ;
    lemma_cancel(1000 * second, 752 * one, one);
}

/// The argument is one that the polynomial is taken at.
spec fn is_argument(t: Real) -> bool {
    &&& is_plain(t)
    &&& 36 * pow2(149) <= 100 * t->units
    &&& 10_000 * t->units <= 9955 * pow2(149)
}

#[verifier::spinoff_prover]
proof fn lemma_partial_sums(t: Real)
    requires
        is_argument(t),
    ensures
        ({
            let (fourth, third, second) = partial_sums(t);
            let one = pow2(149) as int;
            &&& fourth is Finite
            &&& third is Finite
            &&& is_plain(second)
            &&& follow(
                one,
                t->units as int,
                units_with_sign(fourth),
                units_with_sign(third),
                second->units as int,
            )
            &&& 0 < second->units
            &&& 1000 * second->units <= 752 * one
        }),
{
    lemma_one();
    lemma_coefficients();
    let one = pow2(149) as int;
    let square = one * one;
    let u = t->units as int;
    let (fourth, third, second) = partial_sums(t);
    let c5 = single(ERROR_FIFTH)->units as int;
    let c4 = single(ERROR_FOURTH)->units as int;
    let c3 = single(ERROR_THIRD)->units as int;
    let c2 = single(ERROR_SECOND)->units as int;
    assert(square > 0) by (nonlinear_arith)
        requires
            square == one * one,
            one > 0,
    ;
    assert((-c4) * one == -(c4 * one) && (-c2) * one == -(c2 * one)) by (nonlinear_arith);
    let first_line = 0x87_DC22 * u - 0xBA_00E3 * one;
    assert(0x80_0000 * (c5 * u - c4 * one) == first_line * one) by (nonlinear_arith)
        requires
            0x80_0000 * c5 == 0x87_DC22 * one,
            0x80_0000 * c4 == 0xBA_00E3 * one,
            first_line == 0x87_DC22 * u - 0xBA_00E3 * one,
    ;
    assert(-0xBA_00E3 * square <= first_line * one <= 0) by (nonlinear_arith)
        requires
            first_line == 0x87_DC22 * u - 0xBA_00E3 * one,
            0 <= u <= one,
            square == one * one,
    ;
    lemma_fused_near(single(ERROR_FIFTH), t, single(ERROR_FOURTH));
    let r1 = units_with_sign(fourth);
    lemma_near_line(r1, c5 * u - c4 * one, first_line, one);
    assert(0x80_0000 * (c3 * one) == 0xB5_F0E3 * square) by (nonlinear_arith)
        requires
            0x80_0000 * c3 == 0xB5_F0E3 * one,
            square == one * one,
    ;
    assert(-0xBA_00E5 * square <= 0x80_0000 * (r1 * u) <= 0) by (nonlinear_arith)
        requires
            -0xBA_00E5 * one <= 0x80_0000 * r1 <= 0,
            0 <= u <= one,
            square == one * one,
    ;
    lemma_fused_near(fourth, t, single(ERROR_THIRD));
    let r2 = units_with_sign(third);
    lemma_third_bounds(one, u, r1, r2);
    assert(0x200_0000 * (c2 * one) == 0x91_A98E * square) by (nonlinear_arith)
        requires
            0x200_0000 * c2 == 0x91_A98E * one,
            square == one * one,
    ;
    assert(0 <= r2 * u) by (nonlinear_arith)
        requires
            0 <= r2,
            0 <= u,
    ;
    assert(1000 * (r2 * u) <= 1040 * square) by (nonlinear_arith)
        requires
            1000 * r2 <= 1040 * one,
            0 <= r2,
            0 <= u <= one,
            square == one * one,
    ;
    lemma_fused_near(third, t, single(ERROR_SECOND));
    let r3 = units_with_sign(second);
    lemma_second_bounds(one, u, r2, r3);
}

proof fn lemma_near_line(result: int, exact: int, line: int, one: int)
    requires
        one > 0,
        0x80_0000 * exact == line * one,
        -(one * one) <= 0x40_0000 * (result * one - exact) <= one * one,
    ensures
        line - 2 * one <= 0x80_0000 * result <= line + 2 * one,
{
    assert((line - 2 * one) * one <= (0x80_0000 * result) * one) by (nonlinear_arith)
        requires
            0x80_0000 * exact == line * one,
            -(one * one) <= 0x40_0000 * (result * one - exact),
    ;
    assert((0x80_0000 * result) * one <= (line + 2 * one) * one) by (nonlinear_arith)
        requires
            0x80_0000 * exact == line * one,
            0x40_0000 * (result * one - exact) <= one * one,
    ;
    lemma_cancel(line - 2 * one, 0x80_0000 * result, one);
    lemma_cancel(0x80_0000 * result, line + 2 * one, one);
}

/// The second power's sum rises with an argument that rises by a thousandth or more: its slope is
/// at least 0.7, which outweighs the roundings.
#[verifier::spinoff_prover]
proof fn lemma_second_rises(
    one: int,
    a: int,
    b: int,
    fourth_a: int,
    third_a: int,
    second_a: int,
    fourth_b: int,
    third_b: int,
    second_b: int,
)
    requires
        one > 0,
        0 <= b <= one,
        0 <= a <= one,
        one <= 1024 * (a - b),
        follow(one, a, fourth_a, third_a, second_a),
        follow(one, b, fourth_b, third_b, second_b),
    ensures
        second_b < second_a,
{
    let square = one * one;
    let gap = a - b;
    let fourths = fourth_a - fourth_b;
    let thirds = third_a - third_b;
    let seconds = second_a - second_b;
    assert(square > 0) by (nonlinear_arith)
        requires
            square == one * one,
            one > 0,
    ;
    assert(0x80_0000 * fourths >= 0x87_DC22 * gap - 4 * one);
    assert(fourth_a * a - fourth_b * b == fourth_a * gap + b * fourths) by (nonlinear_arith)
        requires
            gap == a - b,
            fourths == fourth_a - fourth_b,
    ;
    assert(thirds * one == third_a * one - third_b * one) by (nonlinear_arith)
        requires
            thirds == third_a - third_b,
    ;
    assert(0x80_0000 * (thirds * one) >= 0x80_0000 * (fourth_a * gap + b * fourths) - 4 * square);
    assert(third_a * a - third_b * b == third_a * gap + b * thirds) by (nonlinear_arith)
        requires
            gap == a - b,
            thirds == third_a - third_b,
    ;
    assert(seconds * one == second_a * one - second_b * one) by (nonlinear_arith)
        requires
            seconds == second_a - second_b,
    ;
    assert(0x80_0000 * (seconds * one) >= 0x80_0000 * (third_a * gap + b * thirds) - 4 * square);
    // One power of the unit more.
    assert(0x80_0000 * (b * fourths) >= 0x87_DC22 * (b * gap) - 4 * square) by (nonlinear_arith)
        requires
            0x80_0000 * fourths >= 0x87_DC22 * gap - 4 * one,
            0 <= b <= one,
            square == one * one,
            one > 0,
    ;
    let slope_third = 0x80_0000 * fourth_a + 0x87_DC22 * b;
    assert(0x80_0000 * (fourth_a * gap) + 0x87_DC22 * (b * gap) == slope_third * gap)
        by (nonlinear_arith)
        requires
            slope_third == 0x80_0000 * fourth_a + 0x87_DC22 * b,
    ;
    assert(0x80_0000 * (thirds * one) >= slope_third * gap - 8 * square);
    assert(0x80_0000 * ((b * thirds) * one) >= (slope_third * b) * gap - 8 * (square * one))
        by (nonlinear_arith)
        requires
            0x80_0000 * (thirds * one) >= slope_third * gap - 8 * square,
            0 <= b <= one,
            square > 0,
    ;
    let slope = 0x80_0000 * (third_a * one) + slope_third * b;
    assert(0x80_0000 * ((third_a * gap) * one) + (slope_third * b) * gap == slope * gap)
        by (nonlinear_arith)
        requires
            slope == 0x80_0000 * (third_a * one) + slope_third * b,
    ;
    let rest = 0x80_0000 * ((b * thirds) * one) - 4 * (square * one);
    assert(0x80_0000 * ((seconds * one) * one) >= 0x80_0000 * ((third_a * gap) * one) + rest)
        by (nonlinear_arith)
        requires
            0x80_0000 * (seconds * one) >= 0x80_0000 * (third_a * gap + b * thirds) - 4 * square,
            rest == 0x80_0000 * ((b * thirds) * one) - 4 * (square * one),
            one > 0,
    ;
    assert(0x80_0000 * ((seconds * one) * one) >= slope * gap - 12 * (square * one));
    lemma_slope(one, a, b, fourth_a, third_a);
    assert(6_000_000 * (square * one) <= 1024 * (slope * gap)) by (nonlinear_arith)
        requires
            slope >= 6_000_000 * square,
            one <= 1024 * gap,
            square > 0,
            one > 0,
    ;
    assert(square * one > 0) by (nonlinear_arith)
        requires
            square > 0,
            one > 0,
    ;
    assert((seconds * one) * one > 0);
    assert(seconds > 0) by (nonlinear_arith)
        requires
            (seconds * one) * one > 0,
            one > 0,
    ;
}

proof fn lemma_slope(one: int, a: int, b: int, fourth: int, third: int)
    requires
        one > 0,
        0 <= a <= one,
        0 <= b <= one,
        0x87_DC22 * a - 0xBA_00E5 * one <= 0x80_0000 * fourth,
        0x80_0000 * (fourth * a) + 0xB5_F0E1 * (one * one) <= 0x80_0000 * (third * one),
    ensures
        0x80_0000 * (third * one) + (0x80_0000 * fourth + 0x87_DC22 * b) * b >= 6_000_000 * (one
            * one),
{
    let square = one * one;
    let both = a + b;
    let squares = a * a + a * b + b * b;
    assert(0x80_0000 * (fourth * a) >= 0x87_DC22 * (a * a) - 0xBA_00E5 * (one * a))
        by (nonlinear_arith)
        requires
            0x87_DC22 * a - 0xBA_00E5 * one <= 0x80_0000 * fourth,
            a >= 0,
    ;
    assert(0x80_0000 * (fourth * b) >= 0x87_DC22 * (a * b) - 0xBA_00E5 * (one * b))
        by (nonlinear_arith)
        requires
            0x87_DC22 * a - 0xBA_00E5 * one <= 0x80_0000 * fourth,
            b >= 0,
    ;
    assert((0x80_0000 * fourth + 0x87_DC22 * b) * b == 0x80_0000 * (fourth * b) + 0x87_DC22 * (b
        * b)) by (nonlinear_arith);
    assert(4 * squares >= 3 * (both * both)) by (nonlinear_arith)
        requires
            both == a + b,
            squares == a * a + a * b + b * b,
    {
        assert((a - b) * (a - b) >= 0);
    }
    assert(one * a + one * b == one * both) by (nonlinear_arith)
        requires
            both == a + b,
    ;
    let mixed = one * both;
    let total = both * both;
    // The square of three halves of the first factor times the sum, less the second.
    assert(13_355_571 * (13_355_571 * total) - 26_711_142 * (0xBA_00E5 * mixed) + 0xBA_00E5 * (
    0xBA_00E5 * square) >= 0) by (nonlinear_arith)
        requires
            total == both * both,
            mixed == one * both,
            square == one * one,
    {
        let d = 13_355_571 * both - 0xBA_00E5 * one;
        assert(d * d >= 0);
        assert(d * d == 13_355_571 * (13_355_571 * total) - 26_711_142 * (0xBA_00E5 * mixed)
            + 0xBA_00E5 * (0xBA_00E5 * square));
    }
    assert(square > 0) by (nonlinear_arith)
        requires
            square == one * one,
            one > 0,
    ;
}

/// The polynomial lies between zero and one.
#[verifier::spinoff_prover]
proof fn lemma_polynomial(t: Real)
    requires
        is_argument(t),
    ensures
        is_plain(fused(Format::Single, partial_sums(t).2, t, single(ERROR_FIRST))),
        is_plain(error_polynomial(t)),
        error_polynomial(t)->units <= pow2(149),
{
    lemma_one();
    lemma_coefficients();
    lemma_partial_sums(t);
    let one = pow2(149) as int;
    let square = one * one;
    let u = t->units as int;
    let second = partial_sums(t).2;
    let r3 = second->units as int;
    let c1 = single(ERROR_FIRST)->units as int;
    assert(square > 0) by (nonlinear_arith)
        requires
            square == one * one,
            one > 0,
    ;
    assert(0x200_0000 * (c1 * one) == 0x82_7906 * square) by (nonlinear_arith)
        requires
            0x200_0000 * c1 == 0x82_7906 * one,
            square == one * one,
    ;
    assert(10_000_000 * (r3 * u) <= 7_486_160 * square) by (nonlinear_arith)
        requires
            0 <= r3,
            0 <= u,
            1000 * r3 <= 752 * one,
            10_000 * u <= 9955 * one,
            square == one * one,
    ;
    assert(0 <= r3 * u) by (nonlinear_arith)
        requires
            0 <= r3,
            0 <= u,
    ;
    lemma_fused_near(second, t, single(ERROR_FIRST));
    let first = fused(Format::Single, second, t, single(ERROR_FIRST));
    let r4 = units_with_sign(first);
    assert(10_000 * (r4 * one) <= 10_040 * square);
    assert((10_000 * r4) * one <= (10_040 * one) * one) by (nonlinear_arith)
        requires
            10_000 * (r4 * one) <= 10_040 * square,
            square == one * one,
    ;
    lemma_cancel(10_000 * r4, 10_040 * one, one);
    assert(r4 * one >= 0);
    assert(r4 >= 0) by (nonlinear_arith)
        requires
            r4 * one >= 0,
            one > 0,
    ;
    assert(first->units * t->units <= (1 * pow2(149)) * pow2(149)) by (nonlinear_arith)
        requires
            10_000 * first->units <= 10_040 * pow2(149),
            10_000 * t->units <= 9955 * pow2(149),
    ;
    assert(1 * pow2(149) == pow2(149));
    lemma_rounded_at_most(
        Format::Single,
        false,
        first->units * t->units,
        pow2(149),
        1,
    );
}

/// The polynomial falls with the distance.
#[verifier::spinoff_prover]
proof fn lemma_polynomial_rises(a: Real, b: Real)
    requires
        is_argument(a),
        is_argument(b),
        pow2(149) <= 1024 * (a->units - b->units),
    ensures
        error_polynomial(b)->units <= error_polynomial(a)->units,
{
    lemma_one();
    lemma_coefficients();
    lemma_partial_sums(a);
    lemma_partial_sums(b);
    lemma_polynomial(a);
    lemma_polynomial(b);
    let one = pow2(149);
    let (fourth_a, third_a, second_a) = partial_sums(a);
    let (fourth_b, third_b, second_b) = partial_sums(b);
    lemma_second_rises(
        one as int,
        a->units as int,
        b->units as int,
        units_with_sign(fourth_a),
        units_with_sign(third_a),
        second_a->units as int,
        units_with_sign(fourth_b),
        units_with_sign(third_b),
        second_b->units as int,
    );
    let c1 = single(ERROR_FIRST)->units;
    let pa = second_a->units * a->units + c1 * one;
    let pb = second_b->units * b->units + c1 * one;
    assert(pb <= pa && pb > 0) by (nonlinear_arith)
        requires
            pa == second_a->units * a->units + c1 * one,
            pb == second_b->units * b->units + c1 * one,
            0 <= second_b->units <= second_a->units,
            0 <= b->units <= a->units,
            c1 > 0,
            one > 0,
    ;
    assert(pb * one <= pa * one) by (nonlinear_arith)
        requires
            pb <= pa,
    ;
    lemma_rounded_ordered(Format::Single, pb, one, pa, one);
    let first_a = fused(Format::Single, second_a, a, single(ERROR_FIRST));
    let first_b = fused(Format::Single, second_b, b, single(ERROR_FIRST));
    assert(first_a == rounded(Format::Single, false, pa, one));
    assert(first_b == rounded(Format::Single, false, pb, one));
    let (qa, qb) = (first_a->units * a->units, first_b->units * b->units);
    assert(qb * one <= qa * one) by (nonlinear_arith)
        requires
            qa == first_a->units * a->units,
            qb == first_b->units * b->units,
            0 <= first_b->units <= first_a->units,
            0 <= b->units <= a->units,
    ;
    lemma_rounded_ordered(Format::Single, qb, one, qa, one);
}

/// The polynomial for a layer at a distance in half pixels.
pub open spec fn polynomial_at(n: int, blur_radius: u32) -> Real {
    error_polynomial(error_argument(value_at(n, blur_radius)))
}

/// Farther out the value is larger and the polynomial smaller, and both are plain numbers.
pub proof fn lemma_layer_falls(near: int, far: int, blur_radius: u32)
    requires
        is_layer(blur_radius),
        1 <= near,
        near == far || near + 2 <= far,
        far <= farthest(),
    ensures
        is_plain(value_at(near, blur_radius)),
        is_plain(value_at(far, blur_radius)),
        value_at(near, blur_radius)->units <= value_at(far, blur_radius)->units,
        is_plain(polynomial_at(near, blur_radius)),
        is_plain(polynomial_at(far, blur_radius)),
        polynomial_at(far, blur_radius)->units <= polynomial_at(near, blur_radius)->units,
        polynomial_at(near, blur_radius)->units <= Format::Single.one(),
{
    lemma_one();
    lemma_argument(near, blur_radius);
    lemma_argument(far, blur_radius);
    lemma_value(near, blur_radius);
    lemma_value(far, blur_radius);
    let a = error_argument(value_at(near, blur_radius));
    let b = error_argument(value_at(far, blur_radius));
    lemma_polynomial(a);
    lemma_polynomial(b);
    if near < far {
        lemma_argument_falls(near, far, blur_radius);
        lemma_polynomial_rises(a, b);
        let half = pow2(148);
        assert(near * half + 2 * half <= far * half && near * half <= 180 * half)
            by (nonlinear_arith)
            requires
                near + 2 <= far <= 180,
                half >= 0,
        ;
    }
}

/// A number between zero and one.
pub open spec fn is_unit(a: Real) -> bool {
    is_plain(a) && a->units <= Format::Single.one()
}

/// The error function, given the polynomial and the exponential.
spec fn error_of(polynomial: Real, exponential: Real) -> Real {
    difference(
        Format::Single,
        whole(Format::Single, 1),
        product(Format::Single, polynomial, exponential),
    )
}

/// One less the error function with the sign of the value.
#[verifier::opaque]
spec fn complement_of(negative: bool, error: Real) -> Real {
    let one = whole(Format::Single, 1);
    let sign = Real::Finite { negative, units: Format::Single.one() };
    difference(Format::Single, one, product(Format::Single, sign, error))
}

/// One less a number between zero and one is such a number.
proof fn lemma_one_less(a: Real)
    requires
        is_unit(a),
    ensures
        is_unit(difference(Format::Single, whole(Format::Single, 1), a)),
{
    lemma_one();
    let one = pow2(149);
    assert(1 * one == one);
    let p = (one - a->units) as nat;
    assert((1 * one) * 1 == one);
    lemma_rounded_at_most(Format::Single, false, p, 1, 1);
}

/// The product of two numbers between zero and one is such a number.
proof fn lemma_unit_product(a: Real, b: Real)
    requires
        is_unit(a),
        is_unit(b),
    ensures
        is_unit(product(Format::Single, a, b)),
{
    lemma_one();
    let one = pow2(149);
    assert(1 * one == one);
    let (ua, ub) = (a->units, b->units);
    assert(ua * ub <= (1 * one) * one) by (nonlinear_arith)
        requires
            0 <= ua <= one,
            0 <= ub <= one,
    ;
    lemma_rounded_at_most(Format::Single, false, ua * ub, one, 1);
}

proof fn lemma_error_falls(
    polynomial: Real,
    exponential: Real,
    lower_polynomial: Real,
    lower_exponential: Real,
)
    requires
        is_unit(polynomial),
        is_unit(exponential),
        is_unit(lower_polynomial),
        is_unit(lower_exponential),
        lower_polynomial->units <= polynomial->units,
        lower_exponential->units <= exponential->units,
    ensures
        is_unit(error_of(polynomial, exponential)),
        is_unit(error_of(lower_polynomial, lower_exponential)),
        at_least(
            error_of(lower_polynomial, lower_exponential),
            error_of(polynomial, exponential),
        ),
{
    let format = Format::Single;
    lemma_one();
    let one = pow2(149);
    let (pa, ea) = (polynomial->units, exponential->units);
    let (pb, eb) = (lower_polynomial->units, lower_exponential->units);
    lemma_unit_product(polynomial, exponential);
    lemma_unit_product(lower_polynomial, lower_exponential);
    let (qa, qb) = (pa * ea, pb * eb);
    assert(qb * one <= qa * one) by (nonlinear_arith)
        requires
            qa == pa * ea,
            qb == pb * eb,
            0 <= pb <= pa,
            0 <= eb <= ea,
    ;
    lemma_rounded_ordered(format, qb, one, qa, one);
    let xa = product(format, polynomial, exponential);
    let xb = product(format, lower_polynomial, lower_exponential);
    lemma_one_less(xa);
    lemma_one_less(xb);
    lemma_difference_ordered(format, whole(format, 1), xb, xa);
}

/// Beyond the edge the complement is at most one, before it at least one.
proof fn lemma_complement(error: Real)
    requires
        is_unit(error),
    ensures
        is_unit(complement_of(false, error)),
        is_plain(complement_of(true, error)),
        Format::Single.one() <= complement_of(true, error)->units <= 2 * Format::Single.one(),
{
    let format = Format::Single;
    lemma_one();
    let one = pow2(149);
    assert(1 * one == one && (2 * one) * 1 == 2 * one && (1 * one) * 1 == one);
    reveal(complement_of);
    let unit = Real::Finite { negative: false, units: one };
    lemma_unit_product(unit, error);
    let plain = product(format, unit, error);
    lemma_one_less(plain);
    let p = one + plain->units;
    lemma_rounded_at_most(format, false, p, 1, 2);
    lemma_rounded_whole(format, false, 1, 1);
    lemma_rounded_ordered(format, one, 1, p, 1);
}

proof fn lemma_complement_ordered(low: Real, high: Real)
    requires
        is_unit(low),
        is_unit(high),
        at_least(high, low),
    ensures
        at_least(complement_of(false, low), complement_of(false, high)),
        at_least(complement_of(true, high), complement_of(true, low)),
{
    let format = Format::Single;
    lemma_one();
    let one = whole(format, 1);
    let units = format.one();
    let unit = Real::Finite { negative: false, units };
    lemma_complement(low);
    lemma_complement(high);
    reveal(complement_of);
    lemma_product_ordered(format, units, low, high);
    let a = product(format, unit, low);
    let b = product(format, unit, high);
    lemma_unit_product(unit, low);
    lemma_unit_product(unit, high);
    lemma_difference_ordered(format, one, a, b);
    lemma_sum_ordered(format, one, a, one, b);
}

/// Half of a complement, which is a layer's darkness.
proof fn lemma_halved(low: Real, high: Real)
    requires
        is_plain(low),
        is_plain(high),
        low->units <= high->units <= 2 * Format::Single.one(),
    ensures
        is_unit(product(Format::Single, single(HALF), low)),
        is_unit(product(Format::Single, single(HALF), high)),
        at_least(
            product(Format::Single, single(HALF), high),
            product(Format::Single, single(HALF), low),
        ),
{
    let format = Format::Single;
    lemma_one();
    let one = pow2(149);
    lemma_single(HALF, false, 0x80_0000, 125);
    lemma_pow2_sum(24, 125);
    lemma_pow2_values();
    let half = single(HALF)->units;
    assert(1 * one == one);
    let (a, b) = (half * low->units, half * high->units);
    assert(a <= (1 * one) * one && b <= (1 * one) * one) by (nonlinear_arith)
        requires
            a == half * low->units,
            b == half * high->units,
            2 * half == one,
            0 <= low->units <= high->units <= 2 * one,
    ;
    lemma_rounded_at_most(format, false, a, one, 1);
    lemma_rounded_at_most(format, false, b, one, 1);
    lemma_product_ordered(format, half, low, high);
}

/// The other side of the edge has the value with the other sign.
proof fn lemma_value_negated(n: int, blur_radius: u32)
    requires
        is_layer(blur_radius),
        1 <= n <= farthest(),
    ensures
        value_at(-n, blur_radius) == negated(value_at(n, blur_radius)),
{
    lemma_half_negated(n);
    lemma_half_exact(n);
    lemma_width(blur_radius);
    lemma_value(n, blur_radius);
}

/// A function that behaves as an exponential does for numbers that are not positive: it lies
/// between zero and one and does not fall as its argument grows.
pub open spec fn is_decay(exponential: spec_fn(Real) -> Real) -> bool {
    &&& forall|a: Real|
        at_least(zero(), a) ==> is_unit(#[trigger] exponential(a))
    &&& forall|a: Real, b: Real|
        at_least(zero(), a) && at_least(a, b) ==> at_least(
            #[trigger] exponential(a),
            #[trigger] exponential(b),
        )
}

/// A layer's darkness at a distance in half pixels.
#[verifier::opaque]
pub open spec fn darkness_at(
    n: int,
    blur_radius: u32,
    exponential: spec_fn(Real) -> Real,
) -> Real {
    tail_of_gaussian(
        half_of(n),
        half_of(2 * blur_radius),
        exponential(exponent_of(value_at(n, blur_radius))),
    )
}

/// The exponential at a distance falls as the distance grows.
proof fn lemma_exponential_falls(
    near: int,
    far: int,
    blur_radius: u32,
    exponential: spec_fn(Real) -> Real,
)
    requires
        is_layer(blur_radius),
        1 <= near,
        near == far || near + 2 <= far,
        far <= farthest(),
        is_decay(exponential),
    ensures
        ({
            let a = exponential(exponent_of(value_at(near, blur_radius)));
            let b = exponential(exponent_of(value_at(far, blur_radius)));
            is_unit(a) && is_unit(b) && b->units <= a->units
        }),
{
    lemma_one();
    lemma_layer_falls(near, far, blur_radius);
    let a = value_at(near, blur_radius);
    let b = value_at(far, blur_radius);
    let one = pow2(149);
    let (pa, pb) = (a->units * a->units, b->units * b->units);
    assert(pa * one <= pb * one) by (nonlinear_arith)
        requires
            pa == a->units * a->units,
            pb == b->units * b->units,
            0 <= a->units <= b->units,
    ;
    lemma_rounded_ordered(Format::Single, pa, one, pb, one);
    assert(at_least(zero(), exponent_of(a)));
    assert(at_least(zero(), exponent_of(b)));
    assert(at_least(exponential(exponent_of(a)), exponential(exponent_of(b))));
}

/// The error function of a layer at a distance.
#[verifier::opaque]
spec fn error_at(n: int, blur_radius: u32, exponential: spec_fn(Real) -> Real) -> Real {
    error_of(
        polynomial_at(n, blur_radius),
        exponential(exponent_of(value_at(n, blur_radius))),
    )
}

proof fn lemma_darkness(n: int, blur_radius: u32, exponential: spec_fn(Real) -> Real)
    requires
        is_layer(blur_radius),
        1 <= n <= farthest(),
    ensures
        darkness_at(n, blur_radius, exponential) == product(
            Format::Single,
            single(HALF),
            complement_of(false, error_at(n, blur_radius, exponential)),
        ),
        darkness_at(-n, blur_radius, exponential) == product(
            Format::Single,
            single(HALF),
            complement_of(true, error_at(n, blur_radius, exponential)),
        ),
{
    reveal(tail_of_gaussian);
    reveal(darkness_at);
    reveal(complement_of);
    reveal(error_at);
    lemma_value(n, blur_radius);
    lemma_value_negated(n, blur_radius);
    let value = value_at(n, blur_radius);
    assert(absolute(negated(value)) == absolute(value));
    assert(exponent_of(negated(value)) == exponent_of(value));
    assert(error_argument(negated(value)) == error_argument(value));
}

proof fn lemma_errors_rise(
    near: int,
    far: int,
    blur_radius: u32,
    exponential: spec_fn(Real) -> Real,
)
    requires
        is_layer(blur_radius),
        1 <= near,
        near == far || near + 2 <= far,
        far <= farthest(),
        is_decay(exponential),
    ensures
        is_unit(error_at(near, blur_radius, exponential)),
        is_unit(error_at(far, blur_radius, exponential)),
        at_least(
            error_at(far, blur_radius, exponential),
            error_at(near, blur_radius, exponential),
        ),
{
    reveal(error_at);
    lemma_layer_falls(near, far, blur_radius);
    lemma_exponential_falls(near, far, blur_radius, exponential);
    lemma_error_falls(
        polynomial_at(near, blur_radius),
        exponential(exponent_of(value_at(near, blur_radius))),
        polynomial_at(far, blur_radius),
        exponential(exponent_of(value_at(far, blur_radius))),
    );
}

/// A layer is no darker a pixel or more farther out.
pub proof fn lemma_darkness_falls(
    near: int,
    far: int,
    blur_radius: u32,
    exponential: spec_fn(Real) -> Real,
)
    requires
        is_layer(blur_radius),
        near % 2 == 1,
        far % 2 == 1,
        -farthest() <= near < far <= farthest(),
        is_decay(exponential),
    ensures
        is_unit(darkness_at(near, blur_radius, exponential)),
        is_unit(darkness_at(far, blur_radius, exponential)),
        at_least(
            darkness_at(near, blur_radius, exponential),
            darkness_at(far, blur_radius, exponential),
        ),
{
    let (a, b) = (magnitude(near) as int, magnitude(far) as int);
    let (low, high) = if a <= b {
        (a, b)
    } else {
        (b, a)
    };
    lemma_errors_rise(low, high, blur_radius, exponential);
    lemma_darkness(a, blur_radius, exponential);
    lemma_darkness(b, blur_radius, exponential);
    let error_low = error_at(low, blur_radius, exponential);
    let error_high = error_at(high, blur_radius, exponential);
    lemma_complement(error_low);
    lemma_complement(error_high);
    lemma_complement_ordered(error_low, error_high);
    if 0 < near {
        lemma_halved(complement_of(false, error_high), complement_of(false, error_low));
    } else if far < 0 {
        lemma_halved(complement_of(true, error_low), complement_of(true, error_high));
    } else {
        lemma_halved(
            complement_of(false, error_at(b, blur_radius, exponential)),
            complement_of(true, error_at(a, blur_radius, exponential)),
        );
    }
}

} // verus!
