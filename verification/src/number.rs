//! What floating-point arithmetic computes.
//!
//! Every finite number of a format is a whole number of units: of 2 to the power -149 in single
//! precision, of 2 to the power -1074 in double precision. The model of a number is its sign and
//! that count, and the model of an operation is the exact result, rounded to the nearest number.

use vstd::arithmetic::power2::pow2;
use vstd::prelude::*;

#[allow(unused_imports)]
use crate::powers::{lemma_pow2_ordered, lemma_pow2_sum, lemma_pow2_values};

verus! {

/// The formats in which numbers are kept.
#[derive(Debug, Copy, Clone, PartialEq, Eq, Structural)]
pub enum Format {
    Single,
    Double,
}

impl Format {
    /// Two to the power of the number of digits in a significand.
    pub open spec fn end(self) -> nat {
        match self {
            Format::Single => 0x100_0000,
            Format::Double => 0x20_0000_0000_0000,
        }
    }

    /// The number one, in units.
    pub open spec fn one(self) -> nat {
        match self {
            Format::Single => pow2(149),
            Format::Double => pow2(1074),
        }
    }

    /// Where the finite numbers end, in units.
    pub open spec fn limit(self) -> nat {
        match self {
            Format::Single => pow2(277),
            Format::Double => pow2(2098),
        }
    }
}

/// What a number stands for.
pub enum Real {
    /// The result of an invalid operation.
    Nan,
    /// Beyond every finite number.
    Infinite { negative: bool },
    /// The sign, and the magnitude counted in the units of the format.
    Finite { negative: bool, units: nat },
}

/// The quotient `p / q` rounded to a whole number, halves to the even one.
pub open spec fn nearest_even(p: nat, q: nat) -> nat {
    let floor = p / q;
    let rest = p % q;
    if 2 * rest < q || (2 * rest == q && floor % 2 == 0) {
        floor
    } else {
        floor + 1
    }
}

/// The least `k` for which `p / q`, divided by `pow2(k)`, lies below `end`.
pub open spec fn binade(end: nat, p: nat, q: nat) -> nat
    decreases p - q,
{
    if q == 0 || end < 2 || p < q * end {
        0
    } else {
        proof {
            assert(q * 2 <= q * end) by (nonlinear_arith)
                requires
                    2 <= end,
                    q > 0,
            ;
        }
        1 + binade(end, p, 2 * q)
    }
}

/// The number nearest to `p / q` units, ties to the even significand; infinite where that would
/// lie beyond the finite numbers.
pub open spec fn rounded(format: Format, negative: bool, p: nat, q: nat) -> Real {
    let scale = pow2(binade(format.end(), p, q));
    let units = nearest_even(p, q * scale) * scale;
    if units < format.limit() {
        Real::Finite { negative, units }
    } else {
        Real::Infinite { negative }
    }
}

/// The magnitude of a whole number.
pub open spec fn magnitude(value: int) -> nat {
    if value < 0 {
        (-value) as nat
    } else {
        value as nat
    }
}

/// The number nearest to `p / q` units, with the sign of a zero told apart.
pub open spec fn signed_rounded(format: Format, p: int, q: nat, zero_negative: bool) -> Real {
    if p == 0 {
        Real::Finite { negative: zero_negative, units: 0 }
    } else {
        rounded(format, p < 0, magnitude(p), q)
    }
}

/// The value of a finite number in units, with its sign.
pub open spec fn signed_units(negative: bool, units: nat) -> int {
    if negative {
        -(units as int)
    } else {
        units as int
    }
}

/// `a < b`; false where either is invalid.
pub open spec fn less(a: Real, b: Real) -> bool {
    match (a, b) {
        (Real::Nan, _) => false,
        (_, Real::Nan) => false,
        (Real::Infinite { negative: na }, Real::Infinite { negative: nb }) => na && !nb,
        (Real::Infinite { negative: na }, Real::Finite { .. }) => na,
        (Real::Finite { .. }, Real::Infinite { negative: nb }) => !nb,
        (
            Real::Finite { negative: na, units: ua },
            Real::Finite { negative: nb, units: ub },
        ) => signed_units(na, ua) < signed_units(nb, ub),
    }
}

/// `a >= b`; false where either is invalid.
pub open spec fn at_least(a: Real, b: Real) -> bool {
    !(a is Nan) && !(b is Nan) && !less(a, b)
}

/// Zero, with a positive sign.
pub open spec fn zero() -> Real {
    Real::Finite { negative: false, units: 0 }
}

/// A whole number.
pub open spec fn whole(format: Format, n: nat) -> Real {
    Real::Finite { negative: false, units: n * format.one() }
}

/// The same number with the other sign.
pub open spec fn negated(a: Real) -> Real {
    match a {
        Real::Nan => Real::Nan,
        Real::Infinite { negative } => Real::Infinite { negative: !negative },
        Real::Finite { negative, units } => Real::Finite { negative: !negative, units },
    }
}

/// The same number without its sign.
pub open spec fn absolute(a: Real) -> Real {
    match a {
        Real::Nan => Real::Nan,
        Real::Infinite { .. } => Real::Infinite { negative: false },
        Real::Finite { units, .. } => Real::Finite { negative: false, units },
    }
}

/// One with the sign of the number, also for a zero.
pub open spec fn sign_of(format: Format, a: Real) -> Real {
    match a {
        Real::Nan => Real::Nan,
        Real::Infinite { negative } => Real::Finite { negative, units: format.one() },
        Real::Finite { negative, .. } => Real::Finite { negative, units: format.one() },
    }
}

/// `a` multiplied by a whole number and rounded.
pub open spec fn multiple(format: Format, a: Real, factor: nat) -> Real {
    match a {
        Real::Nan => Real::Nan,
        Real::Infinite { negative } => if factor == 0 {
            Real::Nan
        } else {
            Real::Infinite { negative }
        },
        Real::Finite { negative, units } => rounded(format, negative, factor * units, 1),
    }
}

/// `a + b`, rounded. An exact zero is positive unless both are negative.
pub open spec fn sum(format: Format, a: Real, b: Real) -> Real {
    match (a, b) {
        (Real::Nan, _) => Real::Nan,
        (_, Real::Nan) => Real::Nan,
        (Real::Infinite { negative: na }, Real::Infinite { negative: nb }) => if na == nb {
            a
        } else {
            Real::Nan
        },
        (Real::Infinite { .. }, Real::Finite { .. }) => a,
        (Real::Finite { .. }, Real::Infinite { .. }) => b,
        (
            Real::Finite { negative: na, units: ua },
            Real::Finite { negative: nb, units: ub },
        ) => signed_rounded(format, signed_units(na, ua) + signed_units(nb, ub), 1, na && nb),
    }
}

/// `a - b`, rounded.
pub open spec fn difference(format: Format, a: Real, b: Real) -> Real {
    sum(format, a, negated(b))
}

/// `a * b`, rounded.
pub open spec fn product(format: Format, a: Real, b: Real) -> Real {
    match (a, b) {
        (Real::Nan, _) => Real::Nan,
        (_, Real::Nan) => Real::Nan,
        (Real::Infinite { negative: na }, Real::Infinite { negative: nb }) => Real::Infinite {
            negative: na != nb,
        },
        (Real::Infinite { negative: na }, Real::Finite { negative: nb, units }) => if units == 0 {
            Real::Nan
        } else {
            Real::Infinite { negative: na != nb }
        },
        (Real::Finite { negative: na, units }, Real::Infinite { negative: nb }) => if units == 0 {
            Real::Nan
        } else {
            Real::Infinite { negative: na != nb }
        },
        (
            Real::Finite { negative: na, units: ua },
            Real::Finite { negative: nb, units: ub },
        ) => rounded(format, na != nb, ua * ub, format.one()),
    }
}

/// `a * b + c`, rounded once.
pub open spec fn fused(format: Format, a: Real, b: Real, c: Real) -> Real {
    match (a, b) {
        (
            Real::Finite { negative: na, units: ua },
            Real::Finite { negative: nb, units: ub },
        ) => match c {
            Real::Finite { negative: nc, units: uc } => signed_rounded(
                format,
                signed_units(na != nb, ua * ub) + signed_units(nc, uc * format.one()),
                format.one(),
                na != nb && nc,
            ),
            other => other,
        },
        _ => sum(format, product(format, a, b), c),
    }
}

/// `a / b`, rounded.
pub open spec fn quotient(format: Format, a: Real, b: Real) -> Real {
    match (a, b) {
        (Real::Nan, _) => Real::Nan,
        (_, Real::Nan) => Real::Nan,
        (Real::Infinite { .. }, Real::Infinite { .. }) => Real::Nan,
        (Real::Infinite { negative: na }, Real::Finite { negative: nb, .. }) => Real::Infinite {
            negative: na != nb,
        },
        (Real::Finite { negative: na, .. }, Real::Infinite { negative: nb }) => Real::Finite {
            negative: na != nb,
            units: 0,
        },
        (
            Real::Finite { negative: na, units: ua },
            Real::Finite { negative: nb, units: ub },
        ) => if ub > 0 {
            rounded(format, na != nb, ua * format.one(), ub)
        } else if ua == 0 {
            Real::Nan
        } else {
            Real::Infinite { negative: na != nb }
        },
    }
}

/// The larger of `a` and zero; zero where `a` is invalid.
pub open spec fn or_zero(a: Real) -> Real {
    if less(zero(), a) {
        a
    } else {
        zero()
    }
}

/// `a` brought between zero and one.
pub open spec fn clamped(format: Format, a: Real) -> Real {
    if less(a, zero()) {
        zero()
    } else if less(whole(format, 1), a) {
        whole(format, 1)
    } else {
        a
    }
}

/// `a` rounded to a whole number, halves away from zero, and brought into `low..=high`; `invalid`
/// where `a` is invalid.
pub open spec fn whole_between(
    format: Format,
    a: Real,
    low: nat,
    high: nat,
    invalid: nat,
) -> nat {
    match a {
        Real::Nan => invalid,
        Real::Infinite { negative } => if negative {
            low
        } else {
            high
        },
        Real::Finite { negative, units } => {
            let nearest = (2 * units + format.one()) / (2 * format.one());
            if negative || nearest < low {
                low
            } else if nearest > high {
                high
            } else {
                nearest
            }
        },
    }
}

/// The exponent that the rounding of `p / q` uses is the one with all digits before the point.
pub proof fn lemma_binade(end: nat, p: nat, q: nat, k: nat)
    requires
        end > 0,
        end % 2 == 0,
        p < q * pow2(k) * end,
        k == 0 || q * pow2(k) * (end / 2) <= p,
    ensures
        binade(end, p, q) == k,
    decreases k,
{
    lemma_pow2_values();
    assert(q > 0) by (nonlinear_arith)
        requires
            0 <= p < q * pow2(k) * end,
    ;
    if k == 0 {
        assert(q * pow2(k) == q) by (nonlinear_arith)
            requires
                pow2(k) == 1,
        ;
    } else {
        let below = (k - 1) as nat;
        let start = end / 2;
        vstd::arithmetic::power2::lemma_pow2_unfold(k);
        lemma_pow2_ordered(0, below);
        assert(q * pow2(k) == (2 * q) * pow2(below)) by (nonlinear_arith)
            requires
                pow2(k) == 2 * pow2(below),
        ;
        assert(q * end <= q * pow2(k) * start) by (nonlinear_arith)
            requires
                pow2(k) == 2 * pow2(below),
                pow2(below) >= 1,
                end == 2 * start,
        ;
        lemma_binade(end, p, 2 * q, below);
    }
}

proof fn lemma_binade_bounds(end: nat, p: nat, q: nat)
    requires
        end >= 2,
        end % 2 == 0,
        q > 0,
    ensures
        p < q * pow2(binade(end, p, q)) * end,
        binade(end, p, q) == 0 || q * pow2(binade(end, p, q)) * (end / 2) <= p,
    decreases p - q,
{
    lemma_pow2_values();
    if p < q * end {
        assert(q * pow2(0) == q) by (nonlinear_arith)
            requires
                pow2(0) == 1,
        ;
    } else {
        assert(q * 2 <= q * end) by (nonlinear_arith)
            requires
                2 <= end,
                q > 0,
        ;
        lemma_binade_bounds(end, p, 2 * q);
        let below = binade(end, p, 2 * q);
        vstd::arithmetic::power2::lemma_pow2_unfold(below + 1);
        assert(q * pow2(below + 1) == (2 * q) * pow2(below)) by (nonlinear_arith)
            requires
                pow2(below + 1) == 2 * pow2(below),
        ;
        if below == 0 {
            assert((2 * q) * pow2(0) == 2 * q) by (nonlinear_arith)
                requires
                    pow2(0) == 1,
            ;
            assert((2 * q) * (end / 2) == q * end) by (nonlinear_arith)
                requires
                    end % 2 == 0,
            ;
        }
    }
}

/// The exact multiple of what it is divided by rounds to itself.
proof fn lemma_nearest_even_exact(n: nat, q: nat)
    requires
        q > 0,
    ensures
        nearest_even(n * q, q) == n,
{
    vstd::arithmetic::div_mod::lemma_fundamental_div_mod_converse(
        (n * q) as int,
        q as int,
        n as int,
        0,
    );
}

/// A number of the format rounds to itself.
pub proof fn lemma_rounded_exact(
    format: Format,
    negative: bool,
    significand: nat,
    shift: nat,
    q: nat,
)
    requires
        q > 0,
        significand < format.end(),
        significand * pow2(shift) < format.limit(),
    ensures
        rounded(format, negative, (significand * pow2(shift)) * q, q) == (Real::Finite {
            negative,
            units: significand * pow2(shift),
        }),
{
    let end = format.end();
    let start = end / 2;
    let units = significand * pow2(shift);
    let p = units * q;
    let k = binade(end, p, q);
    lemma_binade_bounds(end, p, q);
    lemma_pow2_values();
    lemma_pow2_ordered(0, k);
    lemma_pow2_ordered(0, shift);
    if k == 0 {
        assert(q * pow2(0) == q) by (nonlinear_arith)
            requires
                pow2(0) == 1,
        ;
        lemma_nearest_even_exact(units, q);
        assert(units * pow2(0) == units) by (nonlinear_arith)
            requires
                pow2(0) == 1,
        ;
    } else {
        if k > shift {
            vstd::arithmetic::power2::lemma_pow2_unfold(shift + 1);
            lemma_pow2_ordered(shift + 1, k);
            assert(p < q * pow2(k) * start) by (nonlinear_arith)
                requires
                    p == (significand * pow2(shift)) * q,
                    significand < 2 * start,
                    2 * pow2(shift) <= pow2(k),
                    pow2(shift) > 0,
                    q > 0,
            ;
        }
        let more = (shift - k) as nat;
        lemma_pow2_sum(more, k);
        let kept = significand * pow2(more);
        assert(p == kept * (q * pow2(k))) by (nonlinear_arith)
            requires
                p == (significand * pow2(shift)) * q,
                kept == significand * pow2(more),
                pow2(shift) == pow2(more) * pow2(k),
        ;
        assert(q * pow2(k) > 0) by (nonlinear_arith)
            requires
                q > 0,
                pow2(k) > 0,
        ;
        lemma_nearest_even_exact(kept, q * pow2(k));
        assert(kept * pow2(k) == units) by (nonlinear_arith)
            requires
                kept == significand * pow2(more),
                units == significand * pow2(shift),
                pow2(shift) == pow2(more) * pow2(k),
        ;
    }
}

proof fn lemma_nearest_even_bounds(p: nat, q: nat)
    requires
        q > 0,
    ensures
        p == q * (p / q) + p % q,
        0 <= p % q < q,
        p / q <= nearest_even(p, q) <= p / q + 1,
{
    vstd::arithmetic::div_mod::lemma_fundamental_div_mod(p as int, q as int);
}

/// Rounding to a whole number keeps the order.
proof fn lemma_nearest_even_ordered(pa: nat, qa: nat, pb: nat, qb: nat)
    requires
        qa > 0,
        qb > 0,
        pa * qb <= pb * qa,
    ensures
        nearest_even(pa, qa) <= nearest_even(pb, qb),
{
    lemma_nearest_even_bounds(pa, qa);
    lemma_nearest_even_bounds(pb, qb);
    let fa = pa / qa;
    let ra = pa % qa;
    let fb = pb / qb;
    let rb = pb % qb;
    assert(fa <= fb) by (nonlinear_arith)
        requires
            pa == qa * fa + ra,
            pb == qb * fb + rb,
            0 <= ra,
            rb < qb,
            pa * qb <= pb * qa,
            qa > 0,
            qb > 0,
    ;
    if fa == fb {
        assert(ra * qb <= rb * qa) by (nonlinear_arith)
            requires
                pa == qa * fa + ra,
                pb == qb * fa + rb,
                pa * qb <= pb * qa,
        ;
        assert(2 * ra > qa ==> 2 * rb > qb) by (nonlinear_arith)
            requires
                ra * qb <= rb * qa,
                qa > 0,
                qb > 0,
        ;
        assert(2 * ra >= qa ==> 2 * rb >= qb) by (nonlinear_arith)
            requires
                ra * qb <= rb * qa,
                qa > 0,
                qb > 0,
        ;
    }
}

/// The units that rounding gives before it looks for the end of the finite numbers.
spec fn rounded_units(end: nat, p: nat, q: nat) -> nat {
    let scale = pow2(binade(end, p, q));
    nearest_even(p, q * scale) * scale
}

proof fn lemma_rounded_units_ordered(end: nat, pa: nat, qa: nat, pb: nat, qb: nat)
    requires
        end >= 2,
        end % 2 == 0,
        qa > 0,
        qb > 0,
        pa * qb <= pb * qa,
    ensures
        rounded_units(end, pa, qa) <= rounded_units(end, pb, qb),
{
    let start = end / 2;
    let ka = binade(end, pa, qa);
    let kb = binade(end, pb, qb);
    let sa = pow2(ka);
    let sb = pow2(kb);
    lemma_binade_bounds(end, pa, qa);
    lemma_binade_bounds(end, pb, qb);
    lemma_pow2_ordered(0, ka);
    lemma_pow2_ordered(0, kb);
    assert(qa * sa > 0 && qb * sb > 0) by (nonlinear_arith)
        requires
            qa > 0,
            qb > 0,
            sa > 0,
            sb > 0,
    ;
    if ka > kb {
        vstd::arithmetic::power2::lemma_pow2_unfold(kb + 1);
        lemma_pow2_ordered(kb + 1, ka);
        assert(false) by (nonlinear_arith)
            requires
                qa * sa * start <= pa,
                pb < qb * sb * (2 * start),
                2 * sb <= sa,
                pa * qb <= pb * qa,
                qa > 0,
                qb > 0,
                start > 0,
        ;
    } else if ka == kb {
        assert(pa * (qb * sb) <= pb * (qa * sa)) by (nonlinear_arith)
            requires
                pa * qb <= pb * qa,
                sa == sb,
                sa > 0,
        ;
        lemma_nearest_even_ordered(pa, qa * sa, pb, qb * sb);
        let na = nearest_even(pa, qa * sa);
        let nb = nearest_even(pb, qb * sb);
        assert(na * sa <= nb * sb) by (nonlinear_arith)
            requires
                na <= nb,
                sa == sb,
        ;
    } else {
        vstd::arithmetic::power2::lemma_pow2_unfold(ka + 1);
        lemma_pow2_ordered(ka + 1, kb);
        lemma_nearest_even_bounds(pa, qa * sa);
        lemma_nearest_even_bounds(pb, qb * sb);
        let na = nearest_even(pa, qa * sa);
        let nb = nearest_even(pb, qb * sb);
        let fa = pa / (qa * sa);
        let fb = pb / (qb * sb);
        assert(fa < end) by (nonlinear_arith)
            requires
                pa == (qa * sa) * fa + pa % (qa * sa),
                pa % (qa * sa) >= 0,
                pa < qa * sa * end,
                qa * sa > 0,
        ;
        assert(fb >= start) by (nonlinear_arith)
            requires
                pb == (qb * sb) * fb + pb % (qb * sb),
                pb % (qb * sb) < qb * sb,
                qb * sb * start <= pb,
                qb * sb > 0,
        ;
        assert(na * sa <= nb * sb) by (nonlinear_arith)
            requires
                na <= 2 * start,
                nb >= start,
                2 * sa <= sb,
        ;
    }
}

/// Rounding keeps the order.
pub proof fn lemma_rounded_ordered(format: Format, pa: nat, qa: nat, pb: nat, qb: nat)
    requires
        qa > 0,
        qb > 0,
        pa * qb <= pb * qa,
    ensures
        at_least(rounded(format, false, pb, qb), rounded(format, false, pa, qa)),
        at_least(rounded(format, true, pa, qa), rounded(format, true, pb, qb)),
{
    lemma_rounded_units_ordered(format.end(), pa, qa, pb, qb);
}

/// Rounding keeps the order of numbers with their signs.
pub proof fn lemma_signed_rounded_ordered(format: Format, a: int, b: int, na: bool, nb: bool)
    requires
        a <= b,
    ensures
        at_least(signed_rounded(format, b, 1, nb), signed_rounded(format, a, 1, na)),
{
    if 0 < a {
        lemma_rounded_ordered(format, magnitude(a), 1, magnitude(b), 1);
    } else if b < 0 {
        lemma_rounded_ordered(format, magnitude(b), 1, magnitude(a), 1);
    }
}

/// More is never more after it is taken away: the difference falls as what is taken away grows.
pub proof fn lemma_difference_ordered(format: Format, a: Real, b: Real, c: Real)
    requires
        at_least(c, b),
    ensures
        ({
            let first = difference(format, a, b);
            let second = difference(format, a, c);
            first is Nan || second is Nan || at_least(first, second)
        }),
{
    match (a, b, c) {
        (
            Real::Finite { negative: na, units: ua },
            Real::Finite { negative: nb, units: ub },
            Real::Finite { negative: nc, units: uc },
        ) => {
            lemma_signed_rounded_ordered(
                format,
                signed_units(na, ua) + signed_units(!nc, uc),
                signed_units(na, ua) + signed_units(!nb, ub),
                na && !nc,
                na && !nb,
            );
        },
        _ => {},
    }
}

/// Multiples of a number that is not negative grow with the factor.
pub proof fn lemma_multiple_ordered(format: Format, a: Real, small: nat, large: nat)
    requires
        0 < small <= large,
        at_least(a, zero()),
    ensures
        at_least(multiple(format, a, large), multiple(format, a, small)),
        at_least(multiple(format, a, small), zero()),
{
    match a {
        Real::Finite { negative, units } => {
            assert(small * units <= large * units) by (nonlinear_arith)
                requires
                    small <= large,
                    units >= 0,
            ;
            if negative {
                assert(small * 0 == 0 && large * 0 == 0);
            }
            lemma_rounded_ordered(format, small * units, 1, large * units, 1);
            lemma_rounded_zero(format, negative);
        },
        _ => {},
    }
}

/// Zero rounds to zero.
proof fn lemma_rounded_zero(format: Format, negative: bool)
    ensures
        rounded(format, negative, 0, 1) == (Real::Finite { negative, units: 0 }),
{
    lemma_pow2_values();
    lemma_pow2_ordered(0, 277);
    lemma_pow2_ordered(0, 2098);
    assert(0 * pow2(0) == 0);
    lemma_rounded_exact(format, negative, 0, 0, 1);
}

/// Whole numbers below this are numbers of the format.
pub open spec fn is_short(format: Format, n: nat) -> bool {
    n < format.end()
}

proof fn lemma_whole_fits(format: Format, n: nat)
    requires
        is_short(format, n),
    ensures
        n * format.one() < format.limit(),
        format.one() > 0,
{
    lemma_pow2_values();
    let end = format.end();
    let one = format.one();
    match format {
        Format::Single => {
            lemma_pow2_sum(24, 149);
            lemma_pow2_ordered(173, 277);
        },
        Format::Double => {
            lemma_pow2_sum(53, 1074);
            lemma_pow2_ordered(1127, 2098);
        },
    }
    assert(n * one < end * one) by (nonlinear_arith)
        requires
            n < end,
            one > 0,
    ;
}

/// A whole number with few enough digits is its own rounding.
pub proof fn lemma_rounded_whole(format: Format, negative: bool, n: nat, q: nat)
    requires
        is_short(format, n),
        q > 0,
    ensures
        rounded(format, negative, (n * format.one()) * q, q) == (Real::Finite {
            negative,
            units: n * format.one(),
        }),
{
    lemma_whole_fits(format, n);
    match format {
        Format::Single => lemma_rounded_exact(format, negative, n, 149, q),
        Format::Double => lemma_rounded_exact(format, negative, n, 1074, q),
    }
}

/// Whole numbers are ordered as numbers.
pub proof fn lemma_whole_ordered(format: Format, a: nat, b: nat)
    ensures
        less(whole(format, a), whole(format, b)) <==> a < b,
        at_least(whole(format, a), whole(format, b)) <==> a >= b,
{
    lemma_pow2_ordered(0, 149);
    lemma_pow2_ordered(0, 1074);
    let one = format.one();
    assert(a * one < b * one <==> a < b) by (nonlinear_arith)
        requires
            one > 0,
    ;
}

/// The multiple of a whole number is whole.
pub proof fn lemma_whole_multiple(format: Format, a: nat, factor: nat)
    requires
        is_short(format, factor * a),
    ensures
        multiple(format, whole(format, a), factor) == whole(format, factor * a),
{
    let one = format.one();
    assert(factor * (a * one) == ((factor * a) * one) * 1) by (nonlinear_arith);
    lemma_rounded_whole(format, false, factor * a, 1);
}

/// The difference of whole numbers is whole.
pub proof fn lemma_whole_difference(format: Format, a: nat, b: nat)
    requires
        is_short(format, a),
        is_short(format, b),
    ensures
        difference(format, whole(format, a), whole(format, b)) == if a >= b {
            whole(format, (a - b) as nat)
        } else {
            Real::Finite { negative: true, units: (b - a) as nat * format.one() }
        },
{
    lemma_pow2_ordered(0, 149);
    lemma_pow2_ordered(0, 1074);
    let one = format.one();
    let gap = magnitude(a - b);
    assert(a * one - b * one == (a - b) * one) by (nonlinear_arith);
    assert((-(a - b)) * one == -((a - b) * one)) by (nonlinear_arith);
    assert(a > b ==> (a - b) * one > 0) by (nonlinear_arith)
        requires
            one > 0,
    ;
    assert(a < b ==> (a - b) * one < 0) by (nonlinear_arith)
        requires
            one > 0,
    ;
    lemma_rounded_whole(format, a < b, gap, 1);
    assert((gap * one) * 1 == gap * one);
    if a == b {
        assert(0 * one == 0);
    }
}

/// A whole number rounds to itself.
pub proof fn lemma_whole_between(format: Format, n: nat, low: nat, high: nat, invalid: nat)
    requires
        low <= n <= high,
    ensures
        whole_between(format, whole(format, n), low, high, invalid) == n,
{
    lemma_pow2_ordered(0, 149);
    lemma_pow2_ordered(0, 1074);
    let one = format.one();
    assert(2 * (n * one) + one == n * (2 * one) + one) by (nonlinear_arith);
    vstd::arithmetic::div_mod::lemma_fundamental_div_mod_converse(
        (2 * (n * one) + one) as int,
        (2 * one) as int,
        n as int,
        one as int,
    );
}

/// Rounding to whole numbers keeps the order.
pub proof fn lemma_whole_between_ordered(
    format: Format,
    a: Real,
    b: Real,
    low: nat,
    high: nat,
    invalid: nat,
)
    requires
        at_least(b, a),
        low <= high,
    ensures
        whole_between(format, a, low, high, invalid) <= whole_between(
            format,
            b,
            low,
            high,
            invalid,
        ),
{
    match (a, b) {
        (Real::Finite { units: ua, .. }, Real::Finite { units: ub, .. }) => {
            lemma_pow2_ordered(0, 149);
            lemma_pow2_ordered(0, 1074);
            let one = format.one();
            if ua <= ub {
                vstd::arithmetic::div_mod::lemma_div_is_ordered(
                    (2 * ua + one) as int,
                    (2 * ub + one) as int,
                    (2 * one) as int,
                );
            }
            vstd::arithmetic::div_mod::lemma_basic_div(one as int, (2 * one) as int);
        },
        _ => {},
    }
}

/// No number but zero rounds to zero, and rounding keeps its sign.
pub proof fn lemma_signed_rounded_sign(format: Format, p: int, zero_negative: bool)
    ensures
        less(signed_rounded(format, p, 1, zero_negative), zero()) <==> p < 0,
        less(zero(), signed_rounded(format, p, 1, zero_negative)) <==> p > 0,
{
    if p != 0 {
        lemma_pow2_values();
        lemma_pow2_ordered(1, 277);
        lemma_pow2_ordered(1, 2098);
        assert(1 * pow2(0) == 1) by (nonlinear_arith)
            requires
                pow2(0) == 1,
        ;
        lemma_rounded_exact(format, false, 1, 0, 1);
        lemma_rounded_ordered(format, 1, 1, magnitude(p), 1);
    }
}

/// A difference is below zero where what is taken away is larger.
pub proof fn lemma_difference_sign(format: Format, a: Real, b: Real)
    requires
        a is Finite,
        b is Finite,
    ensures
        less(difference(format, a, b), zero()) <==> less(a, b),
{
    match (a, b) {
        (
            Real::Finite { negative: na, units: ua },
            Real::Finite { negative: nb, units: ub },
        ) => {
            lemma_signed_rounded_sign(
                format,
                signed_units(na, ua) + signed_units(!nb, ub),
                na && !nb,
            );
        },
        _ => {},
    }
}

/// Sums grow with what is added.
pub proof fn lemma_sum_ordered(format: Format, a: Real, b: Real, c: Real, d: Real)
    requires
        at_least(c, a),
        at_least(d, b),
    ensures
        ({
            let first = sum(format, a, b);
            let second = sum(format, c, d);
            first is Nan || second is Nan || at_least(second, first)
        }),
{
    match (a, b, c, d) {
        (
            Real::Finite { negative: na, units: ua },
            Real::Finite { negative: nb, units: ub },
            Real::Finite { negative: nc, units: uc },
            Real::Finite { negative: nd, units: ud },
        ) => {
            lemma_signed_rounded_ordered(
                format,
                signed_units(na, ua) + signed_units(nb, ub),
                signed_units(nc, uc) + signed_units(nd, ud),
                na && nb,
                nc && nd,
            );
        },
        _ => {},
    }
}

/// Products with a factor that is not negative grow with the other factor.
pub proof fn lemma_product_ordered(format: Format, factor: nat, a: Real, b: Real)
    requires
        at_least(b, a),
        a is Finite,
        b is Finite,
    ensures
        ({
            let factor = Real::Finite { negative: false, units: factor };
            at_least(product(format, factor, b), product(format, factor, a))
        }),
{
    lemma_pow2_ordered(0, 149);
    lemma_pow2_ordered(0, 1074);
    let one = format.one();
    let (ua, ub) = (a->units, b->units);
    let (pa, pb) = (factor * ua, factor * ub);
    if ua <= ub {
        assert(pa * one <= pb * one) by (nonlinear_arith)
            requires
                pa == factor * ua,
                pb == factor * ub,
                ua <= ub,
                one > 0,
        ;
        lemma_rounded_ordered(format, pa, one, pb, one);
    }
    if ub <= ua {
        assert(pb * one <= pa * one) by (nonlinear_arith)
            requires
                pa == factor * ua,
                pb == factor * ub,
                ub <= ua,
                one > 0,
        ;
        lemma_rounded_ordered(format, pb, one, pa, one);
    }
    if a->Finite_negative && ua == 0 || b->Finite_negative && ub == 0 {
        assert(factor * 0 == 0);
        assert(0 * one == 0);
        lemma_rounded_whole(format, true, 0, one);
        lemma_rounded_whole(format, false, 0, one);
    }
}

/// The product of a number of the format with a factor of at most one is finite.
pub proof fn lemma_product_finite(format: Format, factor: nat, negative: bool, units: nat)
    requires
        factor <= format.one(),
        rounded(format, negative, units, 1) is Finite,
    ensures
        product(
            format,
            Real::Finite { negative: false, units: factor },
            Real::Finite { negative, units },
        ) is Finite,
{
    lemma_pow2_ordered(0, 149);
    lemma_pow2_ordered(0, 1074);
    let one = format.one();
    assert((factor * units) * 1 <= units * one) by (nonlinear_arith)
        requires
            factor <= one,
            units >= 0,
    ;
    lemma_rounded_ordered(format, factor * units, one, units, 1);
}

/// The two are one number with both signs, or both are invalid; a zero may have either sign.
pub open spec fn opposite(a: Real, b: Real) -> bool {
    match (a, b) {
        (Real::Nan, Real::Nan) => true,
        (Real::Infinite { negative: na }, Real::Infinite { negative: nb }) => na != nb,
        (
            Real::Finite { negative: na, units: ua },
            Real::Finite { negative: nb, units: ub },
        ) => ua == ub && (na != nb || ua == 0),
        _ => false,
    }
}

/// The sum of opposite numbers is the opposite of the sum.
pub proof fn lemma_sum_opposite(format: Format, a: Real, b: Real, c: Real, d: Real)
    requires
        opposite(a, c),
        opposite(b, d),
    ensures
        opposite(sum(format, a, b), sum(format, c, d)),
{
}

/// A number that is its own rounding, taken from zero, is the number with the other sign.
pub proof fn lemma_negated_rounded(format: Format, negative: bool, units: nat)
    requires
        rounded(format, negative, units, 1) == (Real::Finite { negative, units }),
    ensures
        ({
            let number = Real::Finite { negative, units };
            let result = difference(format, zero(), number);
            &&& result is Finite
            &&& at_least(result, negated(number))
            &&& at_least(negated(number), result)
        }),
{
}

/// The order of what is added does not matter.
pub proof fn lemma_sum_commutes(format: Format, a: Real, b: Real)
    ensures
        sum(format, a, b) == sum(format, b, a),
{
}

/// What lies no higher than a number is, less that number, not above zero.
pub proof fn lemma_not_above(format: Format, a: Real, b: Real)
    requires
        a is Finite,
        b is Finite,
        at_least(b, a),
    ensures
        !less(zero(), difference(format, a, b)),
        !(difference(format, a, b) is Nan),
{
    let (na, ua) = (a->Finite_negative, a->units);
    let (nb, ub) = (b->Finite_negative, b->units);
    lemma_signed_rounded_sign(format, signed_units(na, ua) + signed_units(!nb, ub), na && !nb);
}

/// What rounding a number leaves: digits, with all of them before the point unless it is small,
/// and the power of two that scales them.
pub proof fn lemma_rounded_digits(format: Format, p: nat) -> (result: (nat, nat))
    requires
        p >= format.end(),
    ensures
        ({
            let (digits, shift) = result;
            let value = rounded(format, false, p, 1);
            &&& format.end() / 2 <= digits < format.end()
            &&& p < pow2(shift) * format.end()
            &&& digits * pow2(shift) < format.limit() ==> value == (Real::Finite {
                negative: false,
                units: digits * pow2(shift),
            })
            &&& digits * pow2(shift) >= format.limit() ==> value is Infinite
        }),
{
    let end = format.end();
    let k = binade(end, p, 1);
    let scale = pow2(k);
    lemma_binade_bounds(end, p, 1);
    lemma_pow2_ordered(0, k);
    lemma_nearest_even_bounds(p, scale);
    let n = nearest_even(p, scale);
    let floor = p / scale;
    assert(1 * scale == scale);
    assert(floor < end) by (nonlinear_arith)
        requires
            p == scale * floor + p % scale,
            p % scale >= 0,
            p < scale * end,
            scale > 0,
    ;
    assert(k >= 1);
    assert(floor >= end / 2) by (nonlinear_arith)
        requires
            p == scale * floor + p % scale,
            p % scale < scale,
            scale * (end / 2) <= p,
            scale > 0,
    ;
    if n < end {
        (n, k)
    } else {
        vstd::arithmetic::power2::lemma_pow2_unfold(k + 1);
        let start = (end / 2) as nat;
        assert(n * scale == start * pow2(k + 1)) by (nonlinear_arith)
            requires
                n == 2 * start,
                pow2(k + 1) == 2 * scale,
        ;
        assert(scale * end <= pow2(k + 1) * end) by (nonlinear_arith)
            requires
                pow2(k + 1) == 2 * scale,
        ;
        (start, k + 1)
    }
}

/// Adding less than half of the last digit changes nothing.
pub proof fn lemma_rounded_absorbs(format: Format, digits: nat, shift: nat, more: nat)
    requires
        format.end() / 2 <= digits < format.end(),
        2 * more < pow2(shift),
        digits * pow2(shift) < format.limit(),
    ensures
        rounded(format, false, digits * pow2(shift) + more, 1) == (Real::Finite {
            negative: false,
            units: digits * pow2(shift),
        }),
{
    let end = format.end();
    let scale = pow2(shift);
    let p = digits * scale + more;
    assert(1 * scale == scale);
    assert(p < scale * end && scale * (end / 2) <= p) by (nonlinear_arith)
        requires
            p == digits * scale + more,
            more < scale,
            end / 2 <= digits,
            digits + 1 <= end,
    ;
    lemma_binade(end, p, 1, shift);
    vstd::arithmetic::div_mod::lemma_fundamental_div_mod_converse(
        p as int,
        scale as int,
        digits as int,
        more as int,
    );
}

/// Rounding moves a number by half a unit at most, or by half of its last digit.
pub proof fn lemma_rounded_near(format: Format, negative: bool, p: nat, q: nat)
    requires
        q > 0,
    ensures
        rounded(format, negative, p, q) matches Real::Finite { units, .. } ==> {
            let moved = magnitude(units * q - p);
            2 * moved <= q || format.end() * moved <= p
        },
{
    let end = format.end();
    let scale = pow2(binade(end, p, q));
    let unit = q * scale;
    lemma_binade_bounds(end, p, q);
    lemma_pow2_ordered(0, binade(end, p, q));
    lemma_pow2_values();
    assert(unit > 0) by (nonlinear_arith)
        requires
            unit == q * scale,
            q > 0,
            scale > 0,
    ;
    lemma_nearest_even_bounds(p, unit);
    let n = nearest_even(p, unit);
    let moved = magnitude(n * unit - p);
    assert(n * unit == (n * scale) * q) by (nonlinear_arith)
        requires
            unit == q * scale,
    ;
    let floor = p / unit;
    assert((floor + 1) * unit == unit * floor + unit) by (nonlinear_arith);
    assert(floor * unit == unit * floor) by (nonlinear_arith);
    assert(2 * moved <= unit);
    if binade(end, p, q) == 0 {
        assert(q * 1 == q);
    } else {
        assert(end * moved <= p) by (nonlinear_arith)
            requires
                2 * moved <= unit,
                unit * (end / 2) <= p,
                end % 2 == 0,
        ;
    }
}

/// What is at most a whole number rounds to at most that.
pub proof fn lemma_rounded_at_most(format: Format, negative: bool, p: nat, q: nat, n: nat)
    requires
        q > 0,
        is_short(format, n),
        p <= (n * format.one()) * q,
    ensures
        rounded(format, negative, p, q) matches Real::Finite { negative: sign, units } && sign
            == negative && units <= n * format.one(),
{
    lemma_rounded_whole(format, negative, n, q);
    let whole = (n * format.one()) * q;
    assert(p * q <= whole * q) by (nonlinear_arith)
        requires
            p <= whole,
    ;
    lemma_rounded_ordered(format, p, q, whole, q);
}

/// Twice a number.
pub open spec fn doubled(a: Real) -> Real {
    match a {
        Real::Finite { negative, units } => Real::Finite { negative, units: 2 * units },
        other => other,
    }
}

/// A number of no more than 2 to the given power of units, whatever its sign.
pub open spec fn is_below_power(a: Real, power: nat) -> bool {
    a matches Real::Finite { units, .. } && units <= pow2(power)
}

/// Doubling an exact result doubles its rounding, away from the end of the finite numbers.
pub proof fn lemma_rounded_doubled(format: Format, negative: bool, p: nat)
    requires
        rounded(format, negative, p, 1) matches Real::Finite { units, .. } && 2 * units
            < format.limit(),
    ensures
        rounded(format, negative, 2 * p, 1) == doubled(rounded(format, negative, p, 1)),
{
    let end = format.end();
    let k = binade(end, p, 1);
    let scale = pow2(k);
    lemma_pow2_values();
    lemma_pow2_ordered(0, k);
    lemma_binade_bounds(end, p, 1);
    assert(1 * scale == scale);
    vstd::arithmetic::power2::lemma_pow2_unfold(k + 1);
    if k == 0 {
        lemma_nearest_even_exact(p, 1);
        assert(p * 1 == p && p * 2 == 2 * p && (p * pow2(1)) * 1 == 2 * p);
        lemma_rounded_exact(format, negative, p, 1, 1);
    } else {
        assert(2 * p < 1 * pow2(k + 1) * end && 1 * pow2(k + 1) * (end / 2) <= 2 * p)
            by (nonlinear_arith)
            requires
                pow2(k + 1) == 2 * scale,
                p < scale * end,
                scale * (end / 2) <= p,
        ;
        lemma_binade(end, 2 * p, 1, k + 1);
        lemma_nearest_even_bounds(p, scale);
        let floor = p / scale;
        assert((2 * scale) * floor == 2 * (scale * floor)) by (nonlinear_arith);
        assert(floor * (2 * scale) == (2 * scale) * floor) by (nonlinear_arith);
        vstd::arithmetic::div_mod::lemma_fundamental_div_mod_converse(
            (2 * p) as int,
            (2 * scale) as int,
            floor as int,
            (2 * (p % scale)) as int,
        );
        let n = nearest_even(p, scale);
        assert(n * (2 * scale) == 2 * (n * scale)) by (nonlinear_arith);
    }
}

/// Rounding does not pass a power of two.
pub proof fn lemma_rounded_below_power(format: Format, negative: bool, p: nat, power: nat)
    requires
        p <= pow2(power),
        pow2(power) < format.limit(),
    ensures
        is_below_power(rounded(format, negative, p, 1), power),
{
    lemma_pow2_ordered(0, power);
    assert(1 * pow2(power) == pow2(power) && (1 * pow2(power)) * 1 == pow2(power));
    lemma_rounded_exact(format, negative, 1, power, 1);
    lemma_rounded_ordered(format, p, 1, pow2(power), 1);
}

/// Multiples of twice a number are twice the multiples.
pub proof fn lemma_multiple_doubled(a: Real, factor: nat, power: nat)
    requires
        is_below_power(a, power),
        factor <= 128,
        power + 7 <= 2096,
    ensures
        multiple(Format::Double, doubled(a), factor) == doubled(
            multiple(Format::Double, a, factor),
        ),
        is_below_power(multiple(Format::Double, a, factor), power + 7),
{
    let format = Format::Double;
    let (negative, units) = (a->Finite_negative, a->units);
    vstd::arithmetic::power2::lemma2_to64();
    lemma_pow2_sum(7, power);
    lemma_pow2_ordered(power + 7, 2096);
    vstd::arithmetic::power2::lemma_pow2_unfold(2097);
    vstd::arithmetic::power2::lemma_pow2_unfold(2098);
    assert(factor * units <= 128 * pow2(power)) by (nonlinear_arith)
        requires
            factor <= 128,
            0 <= units <= pow2(power),
    ;
    lemma_rounded_below_power(format, negative, factor * units, power + 7);
    lemma_rounded_doubled(format, negative, factor * units);
    assert(factor * (2 * units) == 2 * (factor * units)) by (nonlinear_arith);
}

/// The difference of doubled numbers is twice the difference.
pub proof fn lemma_difference_doubled(a: Real, b: Real, power: nat)
    requires
        is_below_power(a, power),
        is_below_power(b, power),
        power + 1 <= 2096,
    ensures
        difference(Format::Double, doubled(a), doubled(b)) == doubled(
            difference(Format::Double, a, b),
        ),
        is_below_power(difference(Format::Double, a, b), power + 1),
{
    let format = Format::Double;
    lemma_pow2_ordered(power + 1, 2096);
    vstd::arithmetic::power2::lemma_pow2_unfold(power + 1);
    vstd::arithmetic::power2::lemma_pow2_unfold(2097);
    vstd::arithmetic::power2::lemma_pow2_unfold(2098);
    let p = signed_units(a->Finite_negative, a->units) + signed_units(
        !b->Finite_negative,
        b->units,
    );
    if p != 0 {
        lemma_rounded_below_power(format, p < 0, magnitude(p), power + 1);
        lemma_rounded_doubled(format, p < 0, magnitude(p));
    }
}

/// Doubling keeps the order.
pub proof fn lemma_doubled_ordered(a: Real, b: Real)
    ensures
        less(doubled(a), doubled(b)) == less(a, b),
        at_least(doubled(a), doubled(b)) == at_least(a, b),
        or_zero(doubled(a)) == doubled(or_zero(a)),
        less(doubled(a), zero()) == less(a, zero()),
{
}

/// A whole number nearest to a quotient is no farther from it than any other whole number.
proof fn lemma_nearest_even_is_nearest(p: nat, q: nat, other: int)
    requires
        q > 0,
    ensures
        magnitude(nearest_even(p, q) * q - p) <= magnitude(other * q - p),
{
    lemma_nearest_even_bounds(p, q);
    let floor = (p / q) as int;
    let rest = (p % q) as int;
    assert(floor * q == q * floor) by (nonlinear_arith);
    assert((floor + 1) * q == q * floor + q) by (nonlinear_arith);
    if other <= floor {
        assert(other * q <= floor * q) by (nonlinear_arith)
            requires
                other <= floor,
                q > 0,
        ;
    } else {
        assert((floor + 1) * q <= other * q) by (nonlinear_arith)
            requires
                floor + 1 <= other,
                q > 0,
        ;
    }
}

/// Rounding finds the nearest number: no number of the format, with whatever digits and scale, lies
/// closer to the exact quotient. Its sign is kept.
pub proof fn lemma_rounded_is_nearest(
    format: Format,
    negative: bool,
    p: nat,
    q: nat,
    digits: nat,
    shift: nat,
)
    requires
        q > 0,
        digits < format.end(),
    ensures
        rounded(format, negative, p, q) matches Real::Finite { negative: sign, units } ==> sign
            == negative && magnitude(units * q - p) <= magnitude(digits * pow2(shift) * q - p),
{
    let end = format.end();
    let k = binade(end, p, q);
    let scale = pow2(k);
    let unit = q * scale;
    let other = digits * pow2(shift);
    lemma_binade_bounds(end, p, q);
    lemma_pow2_ordered(0, k);
    lemma_pow2_ordered(0, shift);
    assert(unit > 0) by (nonlinear_arith)
        requires
            unit == q * scale,
            q > 0,
            scale > 0,
    ;
    let n = nearest_even(p, unit);
    assert(n * unit == (n * scale) * q) by (nonlinear_arith)
        requires
            unit == q * scale,
    ;
    if shift >= k {
        let more = (shift - k) as nat;
        lemma_pow2_sum(more, k);
        let times = digits * pow2(more);
        assert(other * q == times * unit) by (nonlinear_arith)
            requires
                other == digits * pow2(shift),
                pow2(shift) == pow2(more) * scale,
                times == digits * pow2(more),
                unit == q * scale,
        ;
        lemma_nearest_even_is_nearest(p, unit, times as int);
    } else {
        let start = (end / 2) as nat;
        vstd::arithmetic::power2::lemma_pow2_unfold(shift + 1);
        lemma_pow2_ordered(shift + 1, k);
        assert(other * q <= start * unit) by (nonlinear_arith)
            requires
                other == digits * pow2(shift),
                digits < 2 * start,
                2 * pow2(shift) <= scale,
                pow2(shift) > 0,
                unit == q * scale,
        ;
        assert(unit * start == start * unit) by (nonlinear_arith);
        lemma_nearest_even_is_nearest(p, unit, start as int);
    }
}

/// Halfway between two numbers rounding takes the one whose last digit is even.
pub proof fn lemma_rounded_ties(format: Format, negative: bool, digits: nat, shift: nat)
    requires
        format.end() / 2 <= digits < format.end(),
        (digits + 1) * pow2(shift) < format.limit(),
    ensures
        rounded(format, negative, (2 * digits + 1) * pow2(shift), 2) == (Real::Finite {
            negative,
            units: (if digits % 2 == 0 {
                digits
            } else {
                digits + 1
            }) * pow2(shift),
        }),
{
    let end = format.end();
    let scale = pow2(shift);
    let p = (2 * digits + 1) * scale;
    lemma_pow2_ordered(0, shift);
    assert(p < 2 * scale * end && 2 * scale * (end / 2) <= p && p == digits * (2 * scale) + scale
        && digits * scale <= (digits + 1) * scale) by (nonlinear_arith)
        requires
            p == (2 * digits + 1) * scale,
            end / 2 <= digits < end,
            scale > 0,
    ;
    lemma_binade(end, p, 2, shift);
    vstd::arithmetic::div_mod::lemma_fundamental_div_mod_converse(
        p as int,
        (2 * scale) as int,
        digits as int,
        scale as int,
    );
}

/// Up to the largest number of the format a number stays finite; from the next power of two on it
/// does not. Its sign is kept.
pub proof fn lemma_rounded_range(format: Format, negative: bool, p: nat, q: nat)
    requires
        q > 0,
    ensures
        ({
            let (limit, step) = match format {
                Format::Single => (pow2(277), pow2(253)),
                Format::Double => (pow2(2098), pow2(2045)),
            };
            &&& p <= (limit - step) * q ==> rounded(format, negative, p, q) is Finite
            &&& p >= limit * q ==> rounded(format, negative, p, q) == (Real::Infinite { negative })
        }),
{
    let shift = match format {
        Format::Single => 253nat,
        Format::Double => 2045nat,
    };
    let end = format.end();
    let limit = format.limit();
    let step = pow2(shift);
    lemma_pow2_values();
    lemma_pow2_sum(24, 253);
    lemma_pow2_sum(53, 2045);
    lemma_pow2_ordered(0, shift);
    vstd::arithmetic::power2::lemma_pow2_unfold(shift + 1);
    assert(limit == end * step);
    let largest = (end - 1) as nat * step;
    assert(largest == limit - step) by (nonlinear_arith)
        requires
            limit == end * step,
            largest == (end - 1) * step,
    ;
    lemma_rounded_exact(format, false, (end - 1) as nat, shift, q);
    let most = largest * q;
    if p <= most {
        assert(p * q <= most * q) by (nonlinear_arith)
            requires
                p <= most,
        ;
        lemma_rounded_ordered(format, p, q, most, q);
    }
    let start = (end / 2) as nat;
    let double = pow2(shift + 1);
    let least = limit * q;
    assert(least == (q * double) * start && q * double > 0) by (nonlinear_arith)
        requires
            least == limit * q,
            limit == end * step,
            end == 2 * start,
            double == 2 * step,
            step > 0,
            q > 0,
    ;
    assert(least < q * double * end) by (nonlinear_arith)
        requires
            least == (q * double) * start,
            q * double > 0,
            start < end,
    ;
    lemma_binade(end, least, q, shift + 1);
    vstd::arithmetic::div_mod::lemma_fundamental_div_mod_converse(
        least as int,
        (q * double) as int,
        start as int,
        0,
    );
    assert(start * double == limit) by (nonlinear_arith)
        requires
            limit == end * step,
            end == 2 * start,
            double == 2 * step,
    ;
    if p >= least {
        assert(least * q <= p * q) by (nonlinear_arith)
            requires
                least <= p,
        ;
        lemma_rounded_ordered(format, least, q, p, q);
    }
}

/// Each operation on finite numbers is the exact result, rounded: the exact one is counted in
/// units, a product in units of units.
pub proof fn lemma_operations_are_exact(
    format: Format,
    na: bool,
    ua: nat,
    nb: bool,
    ub: nat,
    nc: bool,
    uc: nat,
    factor: nat,
)
    ensures
        ({
            let a = Real::Finite { negative: na, units: ua };
            let b = Real::Finite { negative: nb, units: ub };
            let c = Real::Finite { negative: nc, units: uc };
            let sa = if na { -(ua as int) } else { ua as int };
            let sb = if nb { -(ub as int) } else { ub as int };
            let sc = if nc { -(uc as int) } else { uc as int };
            let one = format.one();
            let sums = sa * sb + sc * one;
            &&& less(a, b) <==> sa < sb
            &&& at_least(a, b) <==> sa >= sb
            &&& sa + sb != 0 ==> sum(format, a, b) == rounded(
                format,
                sa + sb < 0,
                magnitude(sa + sb),
                1,
            )
            &&& sa - sb != 0 ==> difference(format, a, b) == rounded(
                format,
                sa - sb < 0,
                magnitude(sa - sb),
                1,
            )
            &&& sa == sb ==> difference(format, a, b) is Finite && difference(format, a, b)->units
                == 0
            &&& product(format, a, b) == rounded(format, na != nb, ua * ub, one)
            &&& ub > 0 ==> quotient(format, a, b) == rounded(format, na != nb, ua * one, ub)
            &&& multiple(format, a, factor) == rounded(format, na, factor * ua, 1)
            &&& sums != 0 ==> fused(format, a, b, c) == rounded(
                format,
                sums < 0,
                magnitude(sums),
                one,
            )
        }),
{
    let (ia, ib, ic, one) = (ua as int, ub as int, uc as int, format.one() as int);
    assert((-ia) * ib == -(ia * ib) && ia * (-ib) == -(ia * ib) && (-ia) * (-ib) == ia * ib
        && (-ic) * one == -(ic * one)) by (nonlinear_arith);
}

/// An invalid operand makes every result invalid. An infinite one carries through, but for what has
/// no answer: infinities that cancel, an infinity times zero, and one infinity over another.
pub proof fn lemma_operations_at_the_ends(
    format: Format,
    a: Real,
    negative: bool,
    other: bool,
    sign: bool,
    units: nat,
)
    ensures
        ({
            let infinite = Real::Infinite { negative };
            let finite = Real::Finite { negative: sign, units };
            let turned = Real::Infinite { negative: negative != sign };
            &&& sum(format, Real::Nan, a) is Nan && sum(format, a, Real::Nan) is Nan
            &&& difference(format, Real::Nan, a) is Nan && difference(format, a, Real::Nan) is Nan
            &&& product(format, Real::Nan, a) is Nan && product(format, a, Real::Nan) is Nan
            &&& quotient(format, Real::Nan, a) is Nan && quotient(format, a, Real::Nan) is Nan
            &&& !less(Real::Nan, a) && !less(a, Real::Nan)
            &&& !at_least(Real::Nan, a) && !at_least(a, Real::Nan)
            &&& sum(format, infinite, finite) == infinite && sum(format, finite, infinite)
                == infinite
            &&& sum(format, infinite, Real::Infinite { negative: other }) == if negative == other {
                infinite
            } else {
                Real::Nan
            }
            &&& difference(format, infinite, finite) == infinite
            &&& product(format, infinite, finite) == if units == 0 {
                Real::Nan
            } else {
                turned
            }
            &&& product(format, finite, infinite) == product(format, infinite, finite)
            &&& product(format, infinite, Real::Infinite { negative: other }) == (Real::Infinite {
                negative: negative != other,
            })
            &&& quotient(format, infinite, finite) == turned
            &&& quotient(format, finite, infinite) == (Real::Finite {
                negative: negative != sign,
                units: 0,
            })
            &&& quotient(format, infinite, Real::Infinite { negative: other }) is Nan
            &&& quotient(format, finite, Real::Finite { negative: other, units: 0 }) == if units
                == 0 {
                Real::Nan
            } else {
                Real::Infinite { negative: sign != other }
            }
            &&& less(infinite, finite) == negative && less(finite, infinite) == !negative
            &&& less(infinite, Real::Infinite { negative: other }) == (negative && !other)
            &&& or_zero(a) == if less(Real::Finite { negative: false, units: 0 }, a) {
                a
            } else {
                Real::Finite { negative: false, units: 0 }
            }
        }),
{
}

/// A whole number is so many ones. Signs are turned, left out and told apart without touching the
/// size, and bringing a number between zero and one changes only what lies beyond them.
pub proof fn lemma_signs(format: Format, negative: bool, units: nat)
    ensures
        ({
            let a = Real::Finite { negative, units };
            let one = Real::Finite { negative: false, units: format.one() };
            &&& whole(format, units) == (Real::Finite {
                negative: false,
                units: units * (match format {
                    Format::Single => pow2(149),
                    Format::Double => pow2(1074),
                }),
            })
            &&& negated(a) == (Real::Finite { negative: !negative, units })
            &&& absolute(a) == (Real::Finite { negative: false, units })
            &&& sign_of(format, a) == (Real::Finite { negative, units: format.one() })
            &&& negated(Real::Infinite { negative }) == (Real::Infinite { negative: !negative })
            &&& absolute(Real::Infinite { negative }) == (Real::Infinite { negative: false })
            &&& sign_of(format, Real::Infinite { negative }) == (Real::Finite {
                negative,
                units: format.one(),
            })
            &&& negated(Real::Nan) is Nan && absolute(Real::Nan) is Nan && sign_of(
                format,
                Real::Nan,
            ) is Nan
            &&& negative && units > 0 ==> clamped(format, a) == (Real::Finite {
                negative: false,
                units: 0,
            })
            &&& !negative && units > format.one() ==> clamped(format, a) == one
            &&& !negative && units <= format.one() ==> clamped(format, a) == a
            &&& clamped(format, Real::Infinite { negative: false }) == one
            &&& clamped(format, Real::Infinite { negative: true }) == (Real::Finite {
                negative: false,
                units: 0,
            })
            &&& clamped(format, Real::Nan) is Nan
        }),
{
    assert(1 * format.one() == format.one());
}

/// A number brought between two whole ones is the whole number nearest to it there, halves away
/// from zero; below the range it is the lower end, above it the upper one.
pub proof fn lemma_whole_between_is_nearest(
    format: Format,
    units: nat,
    low: nat,
    high: nat,
    invalid: nat,
)
    requires
        low <= high,
    ensures
        ({
            let one = format.one();
            let a = Real::Finite { negative: false, units };
            let result = whole_between(format, a, low, high, invalid);
            &&& low <= result <= high
            &&& low < result ==> 2 * (result * one) <= 2 * units + one
            &&& result < high ==> 2 * units < 2 * (result * one) + one
            &&& whole_between(
                format,
                Real::Finite { negative: true, units },
                low,
                high,
                invalid,
            ) == low
            &&& whole_between(format, Real::Nan, low, high, invalid) == invalid
            &&& whole_between(format, Real::Infinite { negative: false }, low, high, invalid)
                == high
            &&& whole_between(format, Real::Infinite { negative: true }, low, high, invalid) == low
        }),
{
    lemma_pow2_ordered(0, 149);
    lemma_pow2_ordered(0, 1074);
    let one = format.one() as int;
    let all = 2 * units + one;
    let nearest = all / (2 * one);
    vstd::arithmetic::div_mod::lemma_fundamental_div_mod(all, 2 * one);
    let result = whole_between(
        format,
        Real::Finite { negative: false, units },
        low,
        high,
        invalid,
    ) as int;
    assert((2 * one) * nearest == 2 * (nearest * one)) by (nonlinear_arith);
    if result <= nearest {
        assert(result * one <= nearest * one) by (nonlinear_arith)
            requires
                result <= nearest,
                one > 0,
        ;
    }
    if nearest <= result {
        assert(nearest * one <= result * one) by (nonlinear_arith)
            requires
                nearest <= result,
                one > 0,
        ;
    }
}

} // verus!
