//! Floating-point numbers as bit patterns, computed on with integers.
//!
//! A pattern holds a sign bit, an exponent and a fraction. It decodes to a significand and the
//! power of two that scales it; a result is rounded and encoded again.

use vstd::arithmetic::power2::pow2;
use vstd::prelude::*;

#[allow(unused_imports)]
use crate::number::{
    absolute, binade, difference, fused, lemma_rounded_exact, less, magnitude, multiple,
    nearest_even, negated, product, quotient, rounded, signed_units, sum, whole_between, zero, Real,
};
use crate::number::Format;
#[allow(unused_imports)]
use crate::powers::{lemma_pow2_ordered, lemma_pow2_sum, lemma_pow2_values};
use crate::rounding::{combine, cut, round, Rounded, Sum, Tail, LONGEST_SIGNIFICAND};
#[allow(unused_imports)]
use crate::rounding::{
    lemma_cut_scaled, lemma_splits_positive, lemma_splits_scaled, splits,
};

verus! {

impl Format {
    /// The exponent of the patterns that are not finite.
    pub open spec fn top(self) -> nat {
        match self {
            Format::Single => 255,
            Format::Double => 2047,
        }
    }

    /// Where the significand of a normal number starts.
    pub open spec fn start(self) -> nat {
        match self {
            Format::Single => 0x80_0000,
            Format::Double => 0x10_0000_0000_0000,
        }
    }

    /// The sign bit.
    pub open spec fn sign(self) -> nat {
        match self {
            Format::Single => 0x8000_0000,
            Format::Double => 0x8000_0000_0000_0000,
        }
    }

    /// The pattern of positive infinity.
    pub open spec fn infinite(self) -> nat {
        match self {
            Format::Single => 0x7F80_0000,
            Format::Double => 0x7FF0_0000_0000_0000,
        }
    }

    /// The binary digits of a significand.
    pub open spec fn digits(self) -> nat {
        match self {
            Format::Single => 24,
            Format::Double => 53,
        }
    }

    /// The exponent of the units: one is two to this power of them.
    pub open spec fn unit_shift(self) -> nat {
        match self {
            Format::Single => 149,
            Format::Double => 1074,
        }
    }

    fn exec_end(self) -> (result: u64)
        ensures
            result == self.end(),
    {
        match self {
            Format::Single => 0x100_0000,
            Format::Double => 0x20_0000_0000_0000,
        }
    }

    fn exec_top(self) -> (result: u64)
        ensures
            result == self.top(),
    {
        match self {
            Format::Single => 255,
            Format::Double => 2047,
        }
    }

    fn exec_sign(self) -> (result: u64)
        ensures
            result == self.sign(),
    {
        match self {
            Format::Single => 0x8000_0000,
            Format::Double => 0x8000_0000_0000_0000,
        }
    }

    fn exec_infinite(self) -> (result: u64)
        ensures
            result == self.infinite(),
    {
        match self {
            Format::Single => 0x7F80_0000,
            Format::Double => 0x7FF0_0000_0000_0000,
        }
    }

    fn exec_unit_shift(self) -> (result: i32)
        ensures
            result == self.unit_shift(),
    {
        match self {
            Format::Single => 149,
            Format::Double => 1074,
        }
    }
}

/// Magnitude bits of a pattern: all but the sign.
pub open spec fn magnitude_bits(format: Format, bits: u64) -> nat {
    bits as nat % format.sign()
}

/// Significand of a finite pattern.
pub open spec fn significand_of(format: Format, bits: u64) -> nat {
    let magnitude = magnitude_bits(format, bits);
    if magnitude < format.start() {
        magnitude
    } else {
        magnitude % format.start() + format.start()
    }
}

/// Power of two that scales the significand of a finite pattern, in units.
pub open spec fn shift_of(format: Format, bits: u64) -> nat {
    let magnitude = magnitude_bits(format, bits);
    if magnitude < format.start() {
        0
    } else {
        (magnitude / format.start() - 1) as nat
    }
}

/// Magnitude of a finite pattern, in units.
pub open spec fn units_of(format: Format, bits: u64) -> nat {
    significand_of(format, bits) * pow2(shift_of(format, bits))
}

/// The number that a pattern stands for.
pub open spec fn value_of(format: Format, bits: u64) -> Real {
    let magnitude = magnitude_bits(format, bits);
    let negative = bits >= format.sign();
    if magnitude > format.infinite() {
        Real::Nan
    } else if magnitude == format.infinite() {
        Real::Infinite { negative }
    } else {
        Real::Finite { negative, units: units_of(format, bits) }
    }
}

/// The pattern has no bits beyond its format.
pub open spec fn is_pattern(format: Format, bits: u64) -> bool {
    bits < 2 * format.sign()
}

proof fn lemma_layout(format: Format)
    ensures
        format.end() == 2 * format.start(),
        format.end() == pow2(format.digits()),
        format.end() <= LONGEST_SIGNIFICAND,
        format.start() > 1,
        format.sign() == format.infinite() + format.start(),
        format.infinite() == format.top() * format.start(),
        format.infinite() > format.start(),
        2 * format.sign() <= 0x1_0000_0000_0000_0000,
        format.one() == pow2(format.unit_shift()),
        format.limit() == pow2((format.top() - 2 + format.digits()) as nat),
        255 <= format.top() <= 2047,
{
    lemma_pow2_values();
    let (top, start, infinite) = (format.top(), format.start(), format.infinite());
    if format is Single {
        assert(infinite == top * start) by (nonlinear_arith)
            requires
                top == 255,
                start == 0x80_0000,
                infinite == 0x7F80_0000,
        ;
    } else {
        assert(infinite == top * start) by (nonlinear_arith)
            requires
                top == 2047,
                start == 0x10_0000_0000_0000,
                infinite == 0x7FF0_0000_0000_0000,
        ;
    }
}

/// A sign, a power of two and a significand, put together, decode to their product.
pub proof fn lemma_encoded(format: Format, negative: bool, shift: nat, significand: nat, bits: u64)
    requires
        shift <= format.top() - 2,
        significand <= format.end(),
        shift == 0 || format.start() <= significand,
        bits == (if negative { format.sign() as int } else { 0 }) + shift * format.start()
            + significand,
    ensures
        is_pattern(format, bits),
        value_of(format, bits) == if significand * pow2(shift) < format.limit() {
            Real::Finite { negative, units: significand * pow2(shift) }
        } else {
            Real::Infinite { negative }
        },
{
    lemma_layout(format);
    let start = format.start();
    let end = format.end();
    let top = format.top();
    let together = shift * start + significand;
    assert(shift * start + 2 * start <= top * start) by (nonlinear_arith)
        requires
            shift + 2 <= top,
    ;
    vstd::arithmetic::div_mod::lemma_fundamental_div_mod_converse(
        bits as int,
        format.sign() as int,
        if negative { 1 } else { 0 },
        together as int,
    );
    assert(magnitude_bits(format, bits) == together);
    lemma_pow2_sum(shift, format.digits());
    let last = (top - 2) as nat;
    assert(pow2(shift) * end == pow2(shift + format.digits()));
    assert(significand * pow2(shift) <= end * pow2(shift)) by (nonlinear_arith)
        requires
            significand <= end,
    ;
    assert(end * pow2(shift) == pow2(shift) * end) by (nonlinear_arith);
    if significand == end {
        vstd::arithmetic::power2::lemma_pow2_unfold(shift + 1);
        assert(end * pow2(shift) == start * pow2(shift + 1)) by (nonlinear_arith)
            requires
                end == 2 * start,
                pow2(shift + 1) == 2 * pow2(shift),
        ;
        assert(together == (shift + 2) * start) by (nonlinear_arith)
            requires
                together == shift * start + 2 * start,
        ;
        if shift < last {
            assert((shift + 2) * start < top * start) by (nonlinear_arith)
                requires
                    shift + 2 < top,
                    start > 0,
            ;
            assert((shift + 2) * start >= start) by (nonlinear_arith)
                requires
                    start > 0,
                    shift >= 0,
            ;
            vstd::arithmetic::div_mod::lemma_fundamental_div_mod_converse(
                together as int,
                start as int,
                shift as int + 2,
                0,
            );
            vstd::arithmetic::power2::lemma_pow2_strictly_increases(
                shift + format.digits(),
                last + format.digits(),
            );
        }
    } else {
        assert(significand * pow2(shift) < end * pow2(shift)) by (nonlinear_arith)
            requires
                significand < end,
                pow2(shift) > 0,
        ;
        lemma_pow2_ordered(shift + format.digits(), last + format.digits());
        if significand >= start {
            assert(together == (shift + 1) * start + (significand - start)) by (nonlinear_arith)
                requires
                    together == shift * start + significand,
            ;
            vstd::arithmetic::div_mod::lemma_fundamental_div_mod_converse(
                together as int,
                start as int,
                shift as int + 1,
                significand - start,
            );
            assert(shift * start >= 0) by (nonlinear_arith);
        } else {
            assert(shift * start == 0) by (nonlinear_arith)
                requires
                    shift == 0,
            ;
        }
    }
}

/// A finite pattern decodes to a significand within the format, short only at the smallest power
/// of two.
proof fn lemma_decoded(format: Format, bits: u64)
    requires
        magnitude_bits(format, bits) < format.infinite(),
    ensures
        significand_of(format, bits) < format.end() <= LONGEST_SIGNIFICAND,
        shift_of(format, bits) <= format.top() - 2,
        shift_of(format, bits) == 0 || significand_of(format, bits) >= format.start(),
        magnitude_bits(format, bits) == shift_of(format, bits) * format.start() + significand_of(
            format,
            bits,
        ),
        significand_of(format, bits) == 0 ==> shift_of(format, bits) == 0,
        units_of(format, bits) == 0 <==> significand_of(format, bits) == 0,
        units_of(format, bits) == 0 <==> magnitude_bits(format, bits) == 0,
{
    lemma_layout(format);
    let start = format.start() as int;
    let mag = magnitude_bits(format, bits) as int;
    let top = format.top() as int;
    if mag >= start {
        vstd::arithmetic::div_mod::lemma_fundamental_div_mod(mag, start);
        let high = mag / start;
        let low = mag % start;
        assert(high < top) by (nonlinear_arith)
            requires
                mag == start * high + low,
                0 <= low,
                mag < top * start,
                start > 0,
        ;
        assert(high >= 1) by (nonlinear_arith)
            requires
                mag == start * high + low,
                low < start,
                mag >= start,
                start > 0,
        ;
        assert(mag == (high - 1) * start + (low + start)) by (nonlinear_arith)
            requires
                mag == start * high + low,
        ;
    } else {
        assert(0 * start == 0);
    }
    let k = shift_of(format, bits);
    let m = significand_of(format, bits);
    lemma_pow2_ordered(0, k);
    assert(m * pow2(k) == 0 <==> m == 0) by (nonlinear_arith)
        requires
            pow2(k) > 0,
    ;
}

/// The number of a pattern is its own rounding.
pub proof fn lemma_value_is_rounded(format: Format, bits: u64)
    requires
        value_of(format, bits) is Finite,
    ensures
        ({
            let value = value_of(format, bits);
            rounded(format, value->Finite_negative, value->units, 1) == value
        }),
{
    lemma_layout(format);
    lemma_decoded(format, bits);
    let significand = significand_of(format, bits);
    let shift = shift_of(format, bits);
    let last = (format.top() - 2) as nat;
    lemma_pow2_ordered(shift, last);
    lemma_pow2_sum(last, format.digits());
    assert(significand * pow2(shift) < pow2(last) * format.end()) by (nonlinear_arith)
        requires
            significand < format.end(),
            0 < pow2(shift) <= pow2(last),
    ;
    lemma_rounded_exact(format, bits >= format.sign(), significand, shift, 1);
    assert((significand * pow2(shift)) * 1 == significand * pow2(shift));
}

/// Magnitudes are ordered as their patterns are.
proof fn lemma_magnitudes_ordered(format: Format, a: u64, b: u64)
    requires
        magnitude_bits(format, a) < magnitude_bits(format, b) < format.infinite(),
    ensures
        units_of(format, a) < units_of(format, b),
{
    lemma_layout(format);
    lemma_decoded(format, a);
    lemma_decoded(format, b);
    let start = format.start();
    let (ma, ka) = (significand_of(format, a), shift_of(format, a));
    let (mb, kb) = (significand_of(format, b), shift_of(format, b));
    lemma_pow2_ordered(0, ka);
    if ka == kb {
        assert(ma * pow2(ka) < mb * pow2(kb)) by (nonlinear_arith)
            requires
                ma < mb,
                pow2(ka) > 0,
                ka == kb,
        ;
    } else if ka < kb {
        vstd::arithmetic::power2::lemma_pow2_unfold(ka + 1);
        lemma_pow2_ordered(ka + 1, kb);
        assert(ma * pow2(ka) < mb * pow2(kb)) by (nonlinear_arith)
            requires
                ma < 2 * start,
                mb >= start,
                pow2(ka) > 0,
                2 * pow2(ka) <= pow2(kb),
        ;
    } else {
        assert(ka * start + ma >= kb * start + mb) by (nonlinear_arith)
            requires
                ka >= kb + 1,
                ma >= start,
                mb < 2 * start,
        ;
    }
}

proof fn lemma_encoded_special(format: Format, negative: bool)
    ensures
        ({
            let sign = if negative { format.sign() } else { 0 };
            &&& value_of(format, sign as u64) == (Real::Finite { negative, units: 0 })
            &&& is_pattern(format, sign as u64)
            &&& value_of(format, (sign + format.infinite()) as u64) == (Real::Infinite {
                negative,
            })
            &&& is_pattern(format, (sign + format.infinite()) as u64)
            &&& value_of(format, (format.infinite() + format.start() / 2) as u64) is Nan
            &&& is_pattern(format, (format.infinite() + format.start() / 2) as u64)
        }),
{
    lemma_layout(format);
    let sign = format.sign() as int;
    let high = if negative {
        1int
    } else {
        0
    };
    vstd::arithmetic::div_mod::lemma_fundamental_div_mod_converse(high * sign, sign, high, 0);
    vstd::arithmetic::div_mod::lemma_fundamental_div_mod_converse(
        high * sign + format.infinite(),
        sign,
        high,
        format.infinite() as int,
    );
    vstd::arithmetic::div_mod::lemma_fundamental_div_mod_converse(
        (format.infinite() + format.start() / 2) as int,
        sign,
        0,
        (format.infinite() + format.start() / 2) as int,
    );
    assert(0 * pow2(0) == 0) by (nonlinear_arith);
}

/// Whether the pattern stands for no number.
pub fn is_nan(format: Format, bits: u64) -> (result: bool)
    ensures
        result == (value_of(format, bits) is Nan),
{
    bits % format.exec_sign() > format.exec_infinite()
}

fn is_infinite(format: Format, bits: u64) -> (result: bool)
    ensures
        result == (value_of(format, bits) is Infinite),
{
    bits % format.exec_sign() == format.exec_infinite()
}

fn is_negative(format: Format, bits: u64) -> (result: bool)
    ensures
        result == (bits >= format.sign()),
{
    bits >= format.exec_sign()
}

/// The significand of a finite pattern and the power of two that scales it.
fn decode(format: Format, bits: u64) -> (result: (u64, i32))
    requires
        magnitude_bits(format, bits) < format.infinite(),
    ensures
        result.0 == significand_of(format, bits),
        result.1 == shift_of(format, bits),
        result.0 < LONGEST_SIGNIFICAND,
        0 <= result.1 <= 2045,
        result.0 > 0 || result.1 == 0,
{
    let mag: u64 = bits % format.exec_sign();
    let start: u64 = format.exec_end() / 2;
    proof {
        lemma_layout(format);
        lemma_decoded(format, bits);
    }
    if mag < start {
        (mag, 0)
    } else {
        let significand: u64 = mag % start + start;
        let shift: u64 = mag / start - 1;
        (significand, shift as i32)
    }
}

/// The pattern of a zero.
fn zero_pattern(format: Format, negative: bool) -> (bits: u64)
    ensures
        value_of(format, bits) == (Real::Finite { negative, units: 0 }),
        is_pattern(format, bits),
{
    proof {
        lemma_encoded_special(format, negative);
        lemma_layout(format);
    }
    if negative {
        format.exec_sign()
    } else {
        0
    }
}

/// The pattern of an infinity.
fn infinite_pattern(format: Format, negative: bool) -> (bits: u64)
    ensures
        value_of(format, bits) == (Real::Infinite { negative }),
        is_pattern(format, bits),
{
    proof {
        lemma_encoded_special(format, negative);
        lemma_layout(format);
    }
    if negative {
        format.exec_sign() + format.exec_infinite()
    } else {
        format.exec_infinite()
    }
}

/// The pattern of an invalid operation, a quiet one.
fn nan_pattern(format: Format) -> (bits: u64)
    ensures
        value_of(format, bits) is Nan,
        is_pattern(format, bits),
{
    proof {
        lemma_encoded_special(format, false);
        lemma_layout(format);
    }
    format.exec_infinite() + format.exec_end() / 4
}

/// The pattern of a rounded number.
fn encode(
    format: Format,
    negative: bool,
    number: Rounded,
    Ghost(p): Ghost<nat>,
    Ghost(q): Ghost<nat>,
) -> (bits: u64)
    requires
        0 <= number.shift,
        number.shift == binade(format.end(), p, q),
        number.significand == nearest_even(p, q * pow2(number.shift as nat)),
        number.significand <= format.end(),
        number.shift == 0 || number.significand >= format.start(),
    ensures
        value_of(format, bits) == rounded(format, negative, p, q),
        is_pattern(format, bits),
{
    proof {
        lemma_layout(format);
    }
    if number.shift as u64 > format.exec_top() - 2 {
        proof {
            let digits = format.digits();
            let shift = number.shift as nat;
            let last = (format.top() - 1) as nat;
            lemma_pow2_ordered(last, shift);
            lemma_pow2_sum((digits - 1) as nat, last);
            vstd::arithmetic::power2::lemma_pow2_unfold(digits);
            assert(format.limit() <= number.significand * pow2(shift)) by (nonlinear_arith)
                requires
                    format.limit() == pow2((digits - 1) as nat) * pow2(last),
                    pow2((digits - 1) as nat) <= number.significand,
                    pow2(last) <= pow2(shift),
            ;
        }
        return infinite_pattern(format, negative);
    }
    let start: u64 = format.exec_end() / 2;
    let shift: u64 = number.shift as u64;
    let sign: u64 = if negative { format.exec_sign() } else { 0 };
    proof {
        assert(shift * start + 2 * start <= format.top() * start) by (nonlinear_arith)
            requires
                shift + 2 <= format.top(),
        ;
        assert(shift * start >= 0) by (nonlinear_arith)
            requires
                shift >= 0,
                start >= 0,
        ;
    }
    let bits: u64 = sign + (shift * start + number.significand);
    proof {
        lemma_encoded(format, negative, shift as nat, number.significand as nat, bits);
    }
    bits
}

/// Whether the first number lies below the second one.
pub fn less_than(format: Format, a: u64, b: u64) -> (result: bool)
    requires
        is_pattern(format, a),
        is_pattern(format, b),
    ensures
        result == less(value_of(format, a), value_of(format, b)),
{
    if is_nan(format, a) || is_nan(format, b) {
        return false;
    }
    let ma: u64 = a % format.exec_sign();
    let mb: u64 = b % format.exec_sign();
    proof {
        if ma < format.infinite() {
            lemma_decoded(format, a);
        }
        if mb < format.infinite() {
            lemma_decoded(format, b);
        }
        if ma < mb < format.infinite() {
            lemma_magnitudes_ordered(format, a, b);
        }
        if mb < ma < format.infinite() {
            lemma_magnitudes_ordered(format, b, a);
        }
    }
    if is_negative(format, a) {
        if is_negative(format, b) {
            mb < ma
        } else {
            ma > 0 || mb > 0
        }
    } else {
        !is_negative(format, b) && ma < mb
    }
}

/// The number with the other sign.
pub fn negate(format: Format, a: u64) -> (bits: u64)
    requires
        is_pattern(format, a),
    ensures
        value_of(format, bits) == negated(value_of(format, a)),
        is_pattern(format, bits),
{
    let sign: u64 = format.exec_sign();
    proof {
        lemma_layout(format);
    }
    let bits: u64 = if a >= sign {
        a - sign
    } else {
        a + sign
    };
    proof {
        let s = sign as int;
        let rest = if a >= sign {
            a - sign
        } else {
            a as int
        };
        vstd::arithmetic::div_mod::lemma_fundamental_div_mod_converse(
            a as int,
            s,
            if a >= sign { 1 } else { 0 },
            rest,
        );
        vstd::arithmetic::div_mod::lemma_fundamental_div_mod_converse(
            bits as int,
            s,
            if a >= sign { 0 } else { 1 },
            rest,
        );
    }
    bits
}

/// The number without its sign.
pub fn without_sign(format: Format, a: u64) -> (bits: u64)
    requires
        is_pattern(format, a),
    ensures
        value_of(format, bits) == absolute(value_of(format, a)),
        is_pattern(format, bits),
{
    if is_negative(format, a) {
        negate(format, a)
    } else {
        a
    }
}

/// The sum of two numbers.
pub fn plus(format: Format, a: u64, b: u64) -> (bits: u64)
    requires
        is_pattern(format, a),
        is_pattern(format, b),
    ensures
        value_of(format, bits) == sum(format, value_of(format, a), value_of(format, b)),
        is_pattern(format, bits),
{
    if is_nan(format, a) || is_nan(format, b) {
        return nan_pattern(format);
    }
    let na: bool = is_negative(format, a);
    let nb: bool = is_negative(format, b);
    if is_infinite(format, a) {
        return if is_infinite(format, b) && na != nb {
            nan_pattern(format)
        } else {
            a
        };
    }
    if is_infinite(format, b) {
        return b;
    }
    let (ma, ka) = decode(format, a);
    let (mb, kb) = decode(format, b);
    let exact: Sum = combine(na, ma, ka, nb, mb, kb);
    let ghost total = signed_units(na, units_of(format, a)) + signed_units(
        nb,
        units_of(format, b),
    );
    if exact_zero(&exact, Ghost(magnitude(total))) {
        return zero_pattern(format, na && nb);
    }
    let ghost p = magnitude(total);
    proof {
        lemma_layout(format);
        lemma_pow2_values();
        assert(p * pow2(0) == p) by (nonlinear_arith)
            requires
                pow2(0) == 1,
        ;
        assert(1 * pow2(exact.shift as nat) == pow2(exact.shift as nat));
    }
    let number: Rounded = round(
        format.exec_end(),
        exact.kept,
        exact.tail,
        exact.shift,
        Ghost(p),
        Ghost(1),
        Ghost(0),
    );
    encode(format, exact.negative, number, Ghost(p), Ghost(1))
}

/// Whether a sum is zero.
fn exact_zero(sum: &Sum, Ghost(total): Ghost<nat>) -> (result: bool)
    requires
        splits(total, pow2(sum.shift as nat), sum.kept as nat, sum.tail),
        sum.kept >= LONGEST_SIGNIFICAND || sum.tail is Zero,
    ensures
        result == (total == 0),
{
    proof {
        let unit = pow2(sum.shift as nat);
        lemma_splits_positive(total, unit, sum.kept as nat, sum.tail);
        assert(sum.kept == 0 ==> sum.kept * unit == 0) by (nonlinear_arith);
        assert(sum.kept > 0 ==> sum.kept * unit > 0) by (nonlinear_arith)
            requires
                unit > 0,
        ;
    }
    sum.kept == 0
}

/// The first number less the second one.
pub fn minus(format: Format, a: u64, b: u64) -> (bits: u64)
    requires
        is_pattern(format, a),
        is_pattern(format, b),
    ensures
        value_of(format, bits) == difference(format, value_of(format, a), value_of(format, b)),
        is_pattern(format, bits),
{
    plus(format, a, negate(format, b))
}

/// The number multiplied by a whole number.
pub fn times_whole(format: Format, a: u64, factor: u32) -> (bits: u64)
    requires
        is_pattern(format, a),
    ensures
        value_of(format, bits) == multiple(format, value_of(format, a), factor as nat),
        is_pattern(format, bits),
{
    if is_nan(format, a) {
        return a;
    }
    if is_infinite(format, a) {
        return if factor == 0 {
            nan_pattern(format)
        } else {
            a
        };
    }
    let negative: bool = is_negative(format, a);
    let (significand, shift) = decode(format, a);
    proof {
        assert(0 <= significand * factor <= LONGEST_SIGNIFICAND * u32::MAX) by (nonlinear_arith)
            requires
                0 <= significand < LONGEST_SIGNIFICAND,
                0 <= factor <= u32::MAX,
        ;
    }
    let kept: u128 = significand as u128 * factor as u128;
    let ghost p = (factor * units_of(format, a)) as nat;
    proof {
        let unit = pow2(shift as nat);
        lemma_layout(format);
        lemma_pow2_values();
        lemma_pow2_ordered(0, shift as nat);
        assert(kept * unit == p) by (nonlinear_arith)
            requires
                kept == significand * factor,
                p == factor * (significand * unit),
        ;
        assert((kept + 1) * unit == kept * unit + unit) by (nonlinear_arith);
        assert(p * pow2(0) == p);
        assert(1 * unit == unit);
    }
    let number: Rounded = round(
        format.exec_end(),
        kept,
        Tail::Zero,
        shift,
        Ghost(p),
        Ghost(1),
        Ghost(0),
    );
    encode(format, negative, number, Ghost(p), Ghost(1))
}

/// The product of two numbers.
pub fn times(format: Format, a: u64, b: u64) -> (bits: u64)
    requires
        is_pattern(format, a),
        is_pattern(format, b),
    ensures
        value_of(format, bits) == product(format, value_of(format, a), value_of(format, b)),
        is_pattern(format, bits),
{
    if is_nan(format, a) || is_nan(format, b) {
        return nan_pattern(format);
    }
    let negative: bool = is_negative(format, a) != is_negative(format, b);
    if is_infinite(format, a) || is_infinite(format, b) {
        proof {
            if value_of(format, a) is Finite {
                lemma_decoded(format, a);
            }
            if value_of(format, b) is Finite {
                lemma_decoded(format, b);
            }
        }
        return if a % format.exec_sign() == 0 || b % format.exec_sign() == 0 {
            nan_pattern(format)
        } else {
            infinite_pattern(format, negative)
        };
    }
    let (ma, ka) = decode(format, a);
    let (mb, kb) = decode(format, b);
    let unit_shift: i32 = format.exec_unit_shift();
    proof {
        assert(0 <= ma * mb <= LONGEST_SIGNIFICAND * LONGEST_SIGNIFICAND) by (nonlinear_arith)
            requires
                0 <= ma < LONGEST_SIGNIFICAND,
                0 <= mb < LONGEST_SIGNIFICAND,
        ;
    }
    let kept: u128 = ma as u128 * mb as u128;
    let ghost p = units_of(format, a) * units_of(format, b);
    let ghost q = format.one();
    let ghost offset = format.unit_shift();
    let shift: i32 = ka + kb - unit_shift;
    proof {
        lemma_layout(format);
        lemma_splits_product(ma as nat, ka as nat, mb as nat, kb as nat);
        lemma_pow2_ordered(0, offset);
        lemma_splits_scaled(p, pow2((ka + kb) as nat), kept as nat, Tail::Zero, pow2(offset));
        assert(q * pow2((shift + offset) as nat) == pow2((ka + kb) as nat) * pow2(offset))
            by (nonlinear_arith)
            requires
                q == pow2(offset),
                shift + offset == ka + kb,
        ;
    }
    let number: Rounded = round(
        format.exec_end(),
        kept,
        Tail::Zero,
        shift,
        Ghost(p),
        Ghost(q),
        Ghost(offset),
    );
    encode(format, negative, number, Ghost(p), Ghost(q))
}

/// A product of two magnitudes is the product of their significands, scaled by both powers.
proof fn lemma_splits_product(ma: nat, ka: nat, mb: nat, kb: nat)
    ensures
        (ma * pow2(ka)) * (mb * pow2(kb)) == (ma * mb) * pow2(ka + kb),
        splits((ma * pow2(ka)) * (mb * pow2(kb)), pow2(ka + kb), ma * mb, Tail::Zero),
{
    lemma_pow2_sum(ka, kb);
    lemma_pow2_ordered(0, ka + kb);
    let kept = ma * mb;
    let unit = pow2(ka + kb);
    assert((ma * pow2(ka)) * (mb * pow2(kb)) == kept * unit) by (nonlinear_arith)
        requires
            kept == ma * mb,
            unit == pow2(ka) * pow2(kb),
    ;
    assert((kept + 1) * unit == kept * unit + unit) by (nonlinear_arith);
}

/// The product of two numbers plus a third one, rounded once. The significands of the format
/// are short enough for their product to be one.
pub fn times_plus(format: Format, a: u64, b: u64, c: u64) -> (bits: u64)
    requires
        format is Single,
        is_pattern(format, a),
        is_pattern(format, b),
        is_pattern(format, c),
    ensures
        value_of(format, bits) == fused(
            format,
            value_of(format, a),
            value_of(format, b),
            value_of(format, c),
        ),
        is_pattern(format, bits),
{
    if is_nan(format, a) || is_nan(format, b) || is_infinite(format, a) || is_infinite(format, b) {
        return plus(format, times(format, a, b), c);
    }
    if is_nan(format, c) || is_infinite(format, c) {
        return c;
    }
    let negative: bool = is_negative(format, a) != is_negative(format, b);
    let nc: bool = is_negative(format, c);
    let (ma, ka) = decode(format, a);
    let (mb, kb) = decode(format, b);
    let (mc, kc) = decode(format, c);
    let unit_shift: i32 = format.exec_unit_shift();
    let ghost ua = units_of(format, a);
    let ghost ub = units_of(format, b);
    let ghost uc = units_of(format, c);
    let ghost one = format.one();
    let ghost total = signed_units(negative, ua * ub) + signed_units(nc, uc * one);
    proof {
        lemma_layout(format);
        lemma_pow2_values();
        lemma_decoded(format, a);
        lemma_decoded(format, b);
        lemma_decoded(format, c);
        assert(0 <= ma * mb < LONGEST_SIGNIFICAND) by (nonlinear_arith)
            requires
                0 <= ma < 0x100_0000,
                0 <= mb < 0x100_0000,
                LONGEST_SIGNIFICAND == 0x20_0000_0000_0000,
        ;
        lemma_splits_product(ma as nat, ka as nat, mb as nat, kb as nat);
        lemma_pow2_sum(kc as nat, format.unit_shift());
        assert(uc * one == mc * pow2((kc + unit_shift) as nat)) by (nonlinear_arith)
            requires
                uc == mc * pow2(kc as nat),
                one == pow2(unit_shift as nat),
                pow2((kc + unit_shift) as nat) == pow2(kc as nat) * pow2(unit_shift as nat),
        ;
        assert(0 * pow2((ka + kb) as nat) == 0);
        assert(0 * pow2((kc + unit_shift) as nat) == 0);
        assert(0 * pow2(0) == 0);
    }
    let mp: u64 = ma * mb;
    let kp: i32 = if mp == 0 { 0 } else { ka + kb };
    let km: i32 = if mc == 0 { 0 } else { kc + unit_shift };
    let exact: Sum = combine(negative, mp, kp, nc, mc, km);
    proof {
        assert(mp * pow2(kp as nat) == ua * ub);
        assert(mc * pow2(km as nat) == uc * one);
    }
    if exact_zero(&exact, Ghost(magnitude(total))) {
        return zero_pattern(format, negative && nc);
    }
    let ghost p = magnitude(total);
    let shift: i32 = exact.shift - unit_shift;
    let ghost offset = format.unit_shift();
    proof {
        lemma_pow2_ordered(0, offset);
        lemma_splits_scaled(
            p,
            pow2(exact.shift as nat),
            exact.kept as nat,
            exact.tail,
            pow2(offset),
        );
        assert(one * pow2((shift + offset) as nat) == pow2(exact.shift as nat) * pow2(offset))
            by (nonlinear_arith)
            requires
                one == pow2(offset),
                shift + offset == exact.shift,
        ;
    }
    let number: Rounded = round(
        format.exec_end(),
        exact.kept,
        exact.tail,
        shift,
        Ghost(p),
        Ghost(one),
        Ghost(offset),
    );
    encode(format, exact.negative, number, Ghost(p), Ghost(one))
}

/// The first number divided by the second one.
pub fn over(format: Format, a: u64, b: u64) -> (bits: u64)
    requires
        is_pattern(format, a),
        is_pattern(format, b),
    ensures
        value_of(format, bits) == quotient(format, value_of(format, a), value_of(format, b)),
        is_pattern(format, bits),
{
    if is_nan(format, a) || is_nan(format, b) {
        return nan_pattern(format);
    }
    let negative: bool = is_negative(format, a) != is_negative(format, b);
    if is_infinite(format, a) {
        return if is_infinite(format, b) {
            nan_pattern(format)
        } else {
            infinite_pattern(format, negative)
        };
    }
    if is_infinite(format, b) {
        return zero_pattern(format, negative);
    }
    let (ma, ka) = decode(format, a);
    let (mb, kb) = decode(format, b);
    proof {
        lemma_layout(format);
        lemma_decoded(format, a);
        lemma_decoded(format, b);
        lemma_pow2_ordered(0, format.unit_shift());
    }
    if mb == 0 {
        return if ma == 0 {
            nan_pattern(format)
        } else {
            infinite_pattern(format, negative)
        };
    }
    let ghost p = units_of(format, a) * format.one();
    let ghost q = units_of(format, b);
    if ma == 0 {
        proof {
            lemma_pow2_values();
            assert(p == 0) by (nonlinear_arith)
                requires
                    p == 0 * format.one(),
            ;
            assert(0 < q * format.end()) by (nonlinear_arith)
                requires
                    q > 0,
                    format.end() > 0,
            ;
            assert(binade(format.end(), 0, q) == 0);
            assert(q * pow2(0) == q) by (nonlinear_arith)
                requires
                    pow2(0) == 1,
            ;
            vstd::arithmetic::div_mod::lemma_fundamental_div_mod_converse(0, q as int, 0, 0);
            assert(nearest_even(0, q) == 0);
            lemma_pow2_ordered(0, (format.top() - 2 + format.digits()) as nat);
        }
        return zero_pattern(format, negative);
    }
    let number: Rounded = divide(format, ma, ka, mb, kb);
    encode(format, negative, number, Ghost(p), Ghost(q))
}

/// The quotient of two magnitudes, rounded.
fn divide(format: Format, ma: u64, ka: i32, mb: u64, kb: i32) -> (number: Rounded)
    requires
        0 < ma < LONGEST_SIGNIFICAND,
        0 < mb < LONGEST_SIGNIFICAND,
        0 <= ka <= 2045,
        0 <= kb <= 2045,
    ensures
        ({
            let p = (ma as nat * pow2(ka as nat)) * format.one();
            let q = mb as nat * pow2(kb as nat);
            &&& number.shift == binade(format.end(), p, q)
            &&& number.significand == nearest_even(p, q * pow2(number.shift as nat))
        }),
        0 <= number.shift,
        number.significand <= format.end(),
        number.shift == 0 || number.significand >= format.start(),
{
    let mut high: u128 = ma as u128;
    let mut count: i32 = 0;
    proof {
        lemma_layout(format);
        lemma_pow2_values();
        assert(ma * pow2(0) == ma) by (nonlinear_arith)
            requires
                pow2(0) == 1,
        ;
    }
    while high < 0x8000_0000_0000_0000_0000_0000_0000_0000
        invariant
            0 <= count <= 127,
            ma > 0,
            high == ma * pow2(count as nat),
        decreases 127 - count,
    {
        proof {
            lemma_pow2_values();
            vstd::arithmetic::power2::lemma_pow2_unfold((count + 1) as nat);
            assert(ma * pow2((count + 1) as nat) == 2 * (ma * pow2(count as nat)))
                by (nonlinear_arith)
                requires
                    pow2((count + 1) as nat) == 2 * pow2(count as nat),
            ;
            if count == 127 {
                vstd::arithmetic::power2::lemma_pow2_unfold(128);
                assert(ma * pow2(127) >= pow2(127)) by (nonlinear_arith)
                    requires
                        ma >= 1,
                ;
            }
        }
        high = 2 * high;
        count = count + 1;
    }
    let kept: u128 = high / mb as u128;
    let rest: u128 = high % mb as u128;
    let missing: u128 = mb as u128 - rest;
    let tail: Tail = if rest == 0 {
        Tail::Zero
    } else if rest < missing {
        Tail::BelowHalf
    } else if rest == missing {
        Tail::Half
    } else {
        Tail::AboveHalf
    };
    let shift: i32 = ka + format.exec_unit_shift() - count - kb;
    let ghost p = (ma as nat * pow2(ka as nat)) * format.one();
    let ghost q = mb as nat * pow2(kb as nat);
    let ghost offset: nat = 2500;
    proof {
        let m = mb as nat;
        vstd::arithmetic::div_mod::lemma_fundamental_div_mod(high as int, m as int);
        assert(kept * m == m * kept) by (nonlinear_arith);
        assert((kept + 1) * m == kept * m + m) by (nonlinear_arith);
        assert(splits(high as nat, m, kept as nat, tail));
        assert(kept >= LONGEST_SIGNIFICAND) by (nonlinear_arith)
            requires
                high == m * kept + rest,
                rest < m,
                m < LONGEST_SIGNIFICAND,
                LONGEST_SIGNIFICAND == 0x20_0000_0000_0000,
                high >= 0x8000_0000_0000_0000_0000_0000_0000_0000,
        ;
        // Both sides are scaled so that the power of two stays a whole number.
        let unit_shift = format.unit_shift();
        let power = (ka + unit_shift - count + offset) as nat;
        lemma_pow2_ordered(0, power);
        lemma_splits_scaled(high as nat, m, kept as nat, tail, pow2(power));
        lemma_pow2_sum(count as nat, power);
        lemma_pow2_sum((ka + unit_shift) as nat, offset);
        lemma_pow2_sum(ka as nat, unit_shift);
        assert(high * pow2(power) == p * pow2(offset)) by (nonlinear_arith)
            requires
                high == ma * pow2(count as nat),
                pow2(count as nat) * pow2(power) == (pow2(ka as nat) * pow2(unit_shift)) * pow2(
                    offset,
                ),
                p == (ma * pow2(ka as nat)) * pow2(unit_shift),
        ;
        lemma_pow2_sum(kb as nat, (shift + offset) as nat);
        assert(m * pow2(power) == q * pow2((shift + offset) as nat)) by (nonlinear_arith)
            requires
                pow2(power) == pow2(kb as nat) * pow2((shift + offset) as nat),
                q == m * pow2(kb as nat),
        ;
    }
    round(format.exec_end(), kept, tail, shift, Ghost(p), Ghost(q), Ghost(offset))
}

/// The number rounded to a whole number and brought into `low..=high`.
pub fn whole(format: Format, a: u64, low: u32, high: u32, invalid: u32) -> (result: u32)
    requires
        is_pattern(format, a),
        low <= high,
    ensures
        result == whole_between(
            format,
            value_of(format, a),
            low as nat,
            high as nat,
            invalid as nat,
        ),
{
    if is_nan(format, a) {
        return invalid;
    }
    if is_negative(format, a) {
        return low;
    }
    if is_infinite(format, a) {
        return high;
    }
    let (significand, shift) = decode(format, a);
    let unit_shift: i32 = format.exec_unit_shift();
    let ghost units = units_of(format, a);
    let ghost one = format.one();
    proof {
        lemma_layout(format);
        lemma_pow2_ordered(0, format.unit_shift());
    }
    if shift >= unit_shift + 32 {
        proof {
            lemma_decoded(format, a);
            lemma_pow2_values();
            lemma_pow2_ordered((unit_shift + 32) as nat, shift as nat);
            lemma_pow2_sum(unit_shift as nat, 32);
            assert(units >= one * 0x1_0000_0000) by (nonlinear_arith)
                requires
                    units == significand * pow2(shift as nat),
                    significand >= 1,
                    pow2(shift as nat) >= one * 0x1_0000_0000,
            ;
            assert((2 * units + one) / (2 * one) >= 0x1_0000_0000) by (nonlinear_arith)
                requires
                    units >= one * 0x1_0000_0000,
                    one > 0,
            ;
        }
        return high;
    }
    let (kept, tail): (u128, Tail) = if shift >= unit_shift {
        (crate::rounding::doubled(significand, shift - unit_shift), Tail::Zero)
    } else {
        cut(significand, unit_shift - shift)
    };
    let up: bool = match tail {
        Tail::Half => true,
        Tail::AboveHalf => true,
        _ => false,
    };
    proof {
        if shift >= unit_shift {
            lemma_pow2_sum((shift - unit_shift) as nat, unit_shift as nat);
            assert(kept * one == units) by (nonlinear_arith)
                requires
                    kept == significand * pow2((shift - unit_shift) as nat),
                    units == significand * pow2(shift as nat),
                    pow2(shift as nat) == pow2((shift - unit_shift) as nat) * one,
            ;
            assert((kept + 1) * one == kept * one + one) by (nonlinear_arith);
        } else {
            lemma_cut_scaled(
                significand as nat,
                (unit_shift - shift) as nat,
                shift as nat,
                kept as nat,
                tail,
            );
        }
        assert(splits(units, one, kept as nat, tail));
    }
    let nearest: u128 = kept + if up { 1 } else { 0 };
    proof {
        let rest = 2 * (units - kept * one) + one - if up { 2 * one as int } else { 0 };
        assert((kept + 1) * one == kept * one + one) by (nonlinear_arith);
        assert(2 * units + one == nearest * (2 * one) + rest) by (nonlinear_arith)
            requires
                rest == 2 * (units - kept * one) + one - if up { 2 * one as int } else { 0 },
                nearest == kept + if up { 1int } else { 0 },
        ;
        vstd::arithmetic::div_mod::lemma_fundamental_div_mod_converse(
            (2 * units + one) as int,
            2 * one as int,
            nearest as int,
            rest,
        );
    }
    if nearest < low as u128 {
        low
    } else if nearest > high as u128 {
        high
    } else {
        nearest as u32
    }
}

/// The number nearest to `value` times 2 to the power `shift`, in units.
pub fn from_scaled(format: Format, negative: bool, value: u64, shift: i32) -> (bits: u64)
    requires
        0 <= shift <= 4000,
    ensures
        value_of(format, bits) == rounded(
            format,
            negative,
            value as nat * pow2(shift as nat),
            1,
        ),
        is_pattern(format, bits),
{
    let ghost p = value as nat * pow2(shift as nat);
    proof {
        let unit = pow2(shift as nat);
        lemma_layout(format);
        lemma_pow2_values();
        lemma_pow2_ordered(0, shift as nat);
        assert((value + 1) * unit == value * unit + unit) by (nonlinear_arith);
        assert(p * pow2(0) == p) by (nonlinear_arith)
            requires
                pow2(0) == 1,
        ;
        assert(1 * unit == unit);
    }
    let number: Rounded = round(
        format.exec_end(),
        value as u128,
        Tail::Zero,
        shift,
        Ghost(p),
        Ghost(1),
        Ghost(0),
    );
    encode(format, negative, number, Ghost(p), Ghost(1))
}

/// The pattern of all zeros is zero.
pub proof fn lemma_zero_pattern(format: Format)
    ensures
        value_of(format, 0) == zero(),
{
    lemma_encoded_special(format, false);
}

/// The pattern with the lowest exponent bits but one is one.
pub proof fn lemma_one_pattern(format: Format, bits: u64)
    requires
        bits == if format is Single {
            0x3F80_0000u64
        } else {
            0x3FF0_0000_0000_0000u64
        },
    ensures
        value_of(format, bits) == crate::number::whole(format, 1),
{
    lemma_layout(format);
    lemma_pow2_values();
    if format is Single {
        assert(significand_of(format, bits) == 0x80_0000);
        assert(shift_of(format, bits) == 126);
        lemma_pow2_sum(23, 126);
    } else {
        assert(significand_of(format, bits) == 0x10_0000_0000_0000);
        assert(shift_of(format, bits) == 1022);
        lemma_pow2_sum(52, 1022);
    }
}

/// What the patterns stand for. In single precision a sign, eight bits of exponent and 23 of
/// fraction follow each other, in double precision a sign, eleven bits and 52: the number is the
/// fraction, with a leading digit before it, scaled by a power of two; an exponent of zero leaves
/// that digit out. An exponent of all ones is infinite without a fraction and invalid with one.
pub proof fn lemma_pattern_values(negative: bool, exponent: nat, fraction: nat, bits: u64)
    ensures
        exponent <= 255 && fraction < 0x80_0000 && bits == (if negative {
            0x8000_0000int
        } else {
            0
        }) + exponent * 0x80_0000 + fraction ==> value_of(Format::Single, bits) == if exponent
            == 255 {
            if fraction == 0 {
                Real::Infinite { negative }
            } else {
                Real::Nan
            }
        } else if exponent == 0 {
            Real::Finite { negative, units: fraction }
        } else {
            Real::Finite {
                negative,
                units: (0x80_0000 + fraction) * pow2((exponent - 1) as nat),
            }
        },
        exponent <= 2047 && fraction < 0x10_0000_0000_0000 && bits == (if negative {
            0x8000_0000_0000_0000int
        } else {
            0
        }) + exponent * 0x10_0000_0000_0000 + fraction ==> value_of(Format::Double, bits) == if
            exponent == 2047 {
            if fraction == 0 {
                Real::Infinite { negative }
            } else {
                Real::Nan
            }
        } else if exponent == 0 {
            Real::Finite { negative, units: fraction }
        } else {
            Real::Finite {
                negative,
                units: (0x10_0000_0000_0000 + fraction) * pow2((exponent - 1) as nat),
            }
        },
{
    lemma_pow2_values();
    assert(fraction * 1 == fraction);
    assert(fraction * pow2(0) == fraction);
}

} // verus!
