//! Rounding by integers: digits are cut off one by one, with a note of what was lost.

use vstd::arithmetic::power2::pow2;
use vstd::prelude::*;

#[allow(unused_imports)]
use crate::number::{binade, lemma_binade, magnitude, nearest_even, signed_units};
#[allow(unused_imports)]
use crate::powers::{lemma_pow2_ordered, lemma_pow2_sum, lemma_pow2_values};

verus! {

/// Two to the power 53: no significand of any format is longer.
pub const LONGEST_SIGNIFICAND: u64 = 0x20_0000_0000_0000;

/// What was cut off below the last digit kept, against half of that digit.
#[derive(Copy, Clone)]
pub enum Tail {
    Zero,
    BelowHalf,
    Half,
    AboveHalf,
}

/// How a rest below one unit compares with half of the unit.
pub open spec fn tail_of(rest: int, unit: nat) -> Tail {
    if rest == 0 {
        Tail::Zero
    } else if 2 * rest < unit {
        Tail::BelowHalf
    } else if 2 * rest == unit {
        Tail::Half
    } else {
        Tail::AboveHalf
    }
}

/// `kept` whole units lie in `p`, and `tail` tells what is left.
pub open spec fn splits(p: nat, unit: nat, kept: nat, tail: Tail) -> bool {
    &&& kept * unit <= p < (kept + 1) * unit
    &&& tail == tail_of(p - kept * unit, unit)
}

/// Only a positive unit splits anything.
pub proof fn lemma_splits_positive(p: nat, unit: nat, kept: nat, tail: Tail)
    requires
        splits(p, unit, kept, tail),
    ensures
        unit > 0,
{
    assert(kept * unit < (kept + 1) * unit ==> unit > 0) by (nonlinear_arith);
}

/// Halving what is kept doubles the unit.
pub proof fn lemma_splits_halved(p: nat, unit: nat, kept: nat, tail: Tail)
    requires
        splits(p, unit, kept, tail),
    ensures
        splits(p, 2 * unit, kept / 2, halved_tail(kept % 2 == 1, tail)),
{
    lemma_splits_positive(p, unit, kept, tail);
    let half = kept / 2;
    let bit = kept % 2;
    assert(kept == 2 * half + bit);
    assert(kept * unit == half * (2 * unit) + bit * unit) by (nonlinear_arith)
        requires
            kept == 2 * half + bit,
    ;
    assert((kept + 1) * unit == kept * unit + unit) by (nonlinear_arith);
    assert((half + 1) * (2 * unit) == half * (2 * unit) + 2 * unit) by (nonlinear_arith);
    assert(bit == 0 || bit == 1);
    assert(bit * unit == if bit == 0 { 0 } else { unit as int }) by (nonlinear_arith)
        requires
            bit == 0 || bit == 1,
    ;
}

/// The tail after one more digit is cut off.
pub open spec fn halved_tail(odd: bool, tail: Tail) -> Tail {
    if odd {
        if tail is Zero {
            Tail::Half
        } else {
            Tail::AboveHalf
        }
    } else if tail is Zero {
        Tail::Zero
    } else {
        Tail::BelowHalf
    }
}

/// Splitting does not change when both sides are scaled.
pub proof fn lemma_splits_scaled(p: nat, unit: nat, kept: nat, tail: Tail, factor: nat)
    requires
        factor > 0,
    ensures
        splits(p, unit, kept, tail) <==> splits(p * factor, unit * factor, kept, tail),
{
    let rest = p - kept * unit;
    assert(kept * (unit * factor) == (kept * unit) * factor) by (nonlinear_arith);
    assert((kept + 1) * (unit * factor) == ((kept + 1) * unit) * factor) by (nonlinear_arith);
    assert(p * factor - (kept * unit) * factor == rest * factor) by (nonlinear_arith)
        requires
            rest == p - kept * unit,
    ;
    assert(kept * unit <= p <==> (kept * unit) * factor <= p * factor) by (nonlinear_arith)
        requires
            factor > 0,
    ;
    assert(p < (kept + 1) * unit <==> p * factor < ((kept + 1) * unit) * factor)
        by (nonlinear_arith)
        requires
            factor > 0,
    ;
    assert(rest == 0 <==> rest * factor == 0) by (nonlinear_arith)
        requires
            factor > 0,
    ;
    assert(2 * rest < unit <==> 2 * (rest * factor) < unit * factor) by (nonlinear_arith)
        requires
            factor > 0,
    ;
    assert(2 * rest == unit <==> 2 * (rest * factor) == unit * factor) by (nonlinear_arith)
        requires
            factor > 0,
    ;
}

/// Rounding reads only what splitting tells.
pub proof fn lemma_splits_rounds(p: nat, unit: nat, kept: nat, tail: Tail)
    requires
        splits(p, unit, kept, tail),
    ensures
        p / unit == kept,
        nearest_even(p, unit) == kept + if tail is AboveHalf || (tail is Half && kept % 2 == 1) {
            1int
        } else {
            0int
        },
{
    lemma_splits_positive(p, unit, kept, tail);
    assert((kept + 1) * unit == kept * unit + unit) by (nonlinear_arith);
    vstd::arithmetic::div_mod::lemma_fundamental_div_mod_converse(
        p as int,
        unit as int,
        kept as int,
        p - kept * unit,
    );
}

/// One step of cutting digits off.
pub fn halve(kept: u128, tail: Tail) -> (result: (u128, Tail))
    ensures
        result.0 == kept / 2,
        result.1 == halved_tail(kept % 2 == 1, tail),
{
    let next = if kept % 2 == 1 {
        match tail {
            Tail::Zero => Tail::Half,
            _ => Tail::AboveHalf,
        }
    } else {
        match tail {
            Tail::Zero => Tail::Zero,
            _ => Tail::BelowHalf,
        }
    };
    (kept / 2, next)
}

/// Adding whole units adds to what is kept.
pub proof fn lemma_splits_plus(p: nat, unit: nat, kept: nat, tail: Tail, more: nat)
    requires
        splits(p, unit, kept, tail),
    ensures
        splits(more * unit + p, unit, more + kept, tail),
{
    assert((more + kept) * unit == more * unit + kept * unit) by (nonlinear_arith);
    assert((more + kept + 1) * unit == more * unit + (kept + 1) * unit) by (nonlinear_arith);
}

/// The tail of what is missing to the next whole unit.
pub open spec fn flipped_tail(tail: Tail) -> Tail {
    match tail {
        Tail::Zero => Tail::Zero,
        Tail::BelowHalf => Tail::AboveHalf,
        Tail::Half => Tail::Half,
        Tail::AboveHalf => Tail::BelowHalf,
    }
}

/// Taking away from whole units borrows one where something was cut off.
pub proof fn lemma_splits_minus(p: nat, unit: nat, kept: nat, tail: Tail, from: nat)
    requires
        splits(p, unit, kept, tail),
        from > kept,
    ensures
        p <= from * unit,
        splits(
            (from * unit - p) as nat,
            unit,
            (from - kept - if tail is Zero { 0int } else { 1int }) as nat,
            flipped_tail(tail),
        ),
{
    assert((kept + 1) * unit == kept * unit + unit) by (nonlinear_arith);
    assert((from - kept) * unit == from * unit - kept * unit) by (nonlinear_arith);
    assert((from - kept - 1) * unit == from * unit - kept * unit - unit) by (nonlinear_arith);
    assert((from - kept + 1) * unit == from * unit - kept * unit + unit) by (nonlinear_arith);
    assert((kept + 1) * unit <= from * unit) by (nonlinear_arith)
        requires
            kept + 1 <= from,
    ;
}

/// `value` times 2 to the power `count`.
pub fn doubled(value: u64, count: i32) -> (result: u128)
    requires
        value < LONGEST_SIGNIFICAND,
        0 <= count <= 64,
    ensures
        result == value * pow2(count as nat),
        result < 0x20_0000_0000_0000_0000_0000_0000_0000,
{
    let mut result: u128 = value as u128;
    let mut done: i32 = 0;
    proof {
        lemma_pow2_values();
        assert(value * pow2(0) == value);
        lemma_pow2_ordered(0, 64);
    }
    while done < count
        invariant
            0 <= done <= count <= 64,
            value < LONGEST_SIGNIFICAND,
            result == value * pow2(done as nat),
        decreases count - done,
    {
        proof {
            lemma_pow2_values();
            lemma_pow2_ordered(done as nat, 64);
            vstd::arithmetic::power2::lemma_pow2_unfold((done + 1) as nat);
            assert(value * pow2(done as nat) <= LONGEST_SIGNIFICAND * pow2(64)) by (nonlinear_arith)
                requires
                    value < LONGEST_SIGNIFICAND,
                    pow2(done as nat) <= pow2(64),
            ;
            assert(value * pow2((done + 1) as nat) == 2 * (value * pow2(done as nat)))
                by (nonlinear_arith)
                requires
                    pow2((done + 1) as nat) == 2 * pow2(done as nat),
            ;
        }
        result = 2 * result;
        done = done + 1;
    }
    proof {
        lemma_pow2_values();
        lemma_pow2_ordered(count as nat, 64);
        assert(value * pow2(count as nat) < LONGEST_SIGNIFICAND * pow2(64)) by (nonlinear_arith)
            requires
                value < LONGEST_SIGNIFICAND,
                0 < pow2(count as nat) <= pow2(64),
        ;
    }
    result
}

/// `value` divided by 2 to the power `count`.
pub fn cut(value: u64, count: i32) -> (result: (u128, Tail))
    requires
        0 <= count,
    ensures
        splits(value as nat, pow2(count as nat), result.0 as nat, result.1),
        result.0 <= value,
{
    let mut kept: u128 = value as u128;
    let mut tail: Tail = Tail::Zero;
    let mut done: i32 = 0;
    proof {
        lemma_pow2_values();
    }
    while done < count
        invariant
            0 <= done <= count,
            splits(value as nat, pow2(done as nat), kept as nat, tail),
            kept <= value,
        decreases count - done,
    {
        let (next_kept, next_tail) = halve(kept, tail);
        proof {
            lemma_splits_halved(value as nat, pow2(done as nat), kept as nat, tail);
            vstd::arithmetic::power2::lemma_pow2_unfold((done + 1) as nat);
        }
        kept = next_kept;
        tail = next_tail;
        done = done + 1;
    }
    (kept, tail)
}

/// What is cut off a smaller magnitude, counted at a larger power of two.
pub proof fn lemma_cut_scaled(value: nat, count: nat, base: nat, kept: nat, tail: Tail)
    requires
        splits(value, pow2(count), kept, tail),
    ensures
        splits(value * pow2(base), pow2(count + base), kept, tail),
{
    lemma_pow2_sum(count, base);
    lemma_splits_scaled(value, pow2(count), kept, tail, pow2(base));
}

/// What rounding leaves: a significand, at most the end of the format's, and the power of two that
/// scales it, in units.
pub struct Rounded {
    pub significand: u64,
    pub shift: i32,
}

/// Rounds `p / q` to the digits below `end`, given `kept` and `tail`: what splitting `p / q` tells
/// at the power of two `shift`, which may be below the units.
pub fn round(
    end: u64,
    kept: u128,
    tail: Tail,
    shift: i32,
    Ghost(p): Ghost<nat>,
    Ghost(q): Ghost<nat>,
    Ghost(offset): Ghost<nat>,
) -> (result: Rounded)
    requires
        0 < end <= LONGEST_SIGNIFICAND,
        end % 2 == 0,
        -4000 <= shift <= 4000,
        shift + offset >= 0,
        splits(p * pow2(offset), q * pow2((shift + offset) as nat), kept as nat, tail),
        shift <= 0 || kept >= end || tail is Zero,
    ensures
        0 <= result.shift,
        result.shift == binade(end as nat, p, q),
        result.significand == nearest_even(p, q * pow2(result.shift as nat)),
        result.significand <= end,
        result.shift == 0 || result.significand >= end / 2,
{
    let mut kept: u128 = kept;
    let mut tail: Tail = tail;
    let mut shift: i32 = shift;
    let ghost first = shift;
    let ghost whole = kept as nat;
    proof {
        lemma_pow2_values();
        assert(pow2((shift - first) as nat) == 1);
    }
    while shift < 0 || kept >= end as u128
        invariant
            0 < end <= LONGEST_SIGNIFICAND,
            end % 2 == 0,
            first <= shift,
            -4000 <= first <= 4000,
            shift <= 0 || shift <= 4000 + 128,
            shift + offset >= 0,
            splits(p * pow2(offset), q * pow2((shift + offset) as nat), kept as nat, tail),
            shift <= 0 || kept >= end / 2 || tail is Zero,
            whole <= u128::MAX,
            kept * pow2((shift - first) as nat) <= whole,
        decreases kept + if shift < 0 { -shift } else { 0 },
    {
        let (next_kept, next_tail) = halve(kept, tail);
        proof {
            let unit = q * pow2((shift + offset) as nat);
            lemma_splits_halved(p * pow2(offset), unit, kept as nat, tail);
            vstd::arithmetic::power2::lemma_pow2_unfold((shift + 1 + offset) as nat);
            assert(2 * unit == q * pow2((shift + 1 + offset) as nat)) by (nonlinear_arith)
                requires
                    unit == q * pow2((shift + offset) as nat),
                    pow2((shift + 1 + offset) as nat) == 2 * pow2((shift + offset) as nat),
            ;
            let gap = (shift - first) as nat;
            vstd::arithmetic::power2::lemma_pow2_unfold(gap + 1);
            assert(next_kept * pow2(gap + 1) <= whole) by (nonlinear_arith)
                requires
                    pow2(gap + 1) == 2 * pow2(gap),
                    2 * next_kept <= kept,
                    kept * pow2(gap) <= whole,
            ;
            if shift >= 0 {
                lemma_pow2_values();
                if gap >= 128 {
                    lemma_pow2_ordered(128, gap);
                    assert(kept * pow2(gap) > u128::MAX) by (nonlinear_arith)
                        requires
                            kept >= 1,
                            pow2(gap) > u128::MAX,
                    ;
                }
            }
        }
        kept = next_kept;
        tail = next_tail;
        shift = shift + 1;
    }
    let start: u64 = end / 2;
    while shift > 0 && kept < start as u128
        invariant
            0 <= shift <= 4000 + 128,
            start == end / 2,
            end % 2 == 0,
            kept < end <= LONGEST_SIGNIFICAND,
            splits(p * pow2(offset), q * pow2((shift + offset) as nat), kept as nat, tail),
            shift == 0 || kept >= start || tail is Zero,
        decreases shift,
    {
        proof {
            let below = q * pow2((shift - 1 + offset) as nat);
            let unit = q * pow2((shift + offset) as nat);
            vstd::arithmetic::power2::lemma_pow2_unfold((shift + offset) as nat);
            assert(unit == 2 * below) by (nonlinear_arith)
                requires
                    unit == q * pow2((shift + offset) as nat),
                    below == q * pow2((shift - 1 + offset) as nat),
                    pow2((shift + offset) as nat) == 2 * pow2((shift - 1 + offset) as nat),
            ;
            lemma_splits_positive(p * pow2(offset), unit, kept as nat, tail);
            assert((2 * kept) * below == kept * unit) by (nonlinear_arith)
                requires
                    unit == 2 * below,
            ;
            assert((2 * kept + 1) * below == kept * unit + below) by (nonlinear_arith)
                requires
                    unit == 2 * below,
            ;
        }
        kept = 2 * kept;
        shift = shift - 1;
    }
    proof {
        let k = shift as nat;
        let unit = q * pow2(k);
        lemma_pow2_sum(k, offset);
        assert(q * pow2((shift + offset) as nat) == unit * pow2(offset)) by (nonlinear_arith)
            requires
                pow2((shift + offset) as nat) == pow2(k) * pow2(offset),
                unit == q * pow2(k),
        ;
        lemma_splits_scaled(p, unit, kept as nat, tail, pow2(offset));
        lemma_splits_rounds(p, unit, kept as nat, tail);
        lemma_splits_positive(p, unit, kept as nat, tail);
        assert(p < unit * end) by (nonlinear_arith)
            requires
                p < (kept + 1) * unit,
                kept < end,
        ;
        if k > 0 {
            assert(unit * start <= p) by (nonlinear_arith)
                requires
                    kept * unit <= p,
                    kept >= start,
            ;
        }
        lemma_binade(end as nat, p, q, k);
    }
    let up: bool = match tail {
        Tail::AboveHalf => true,
        Tail::Half => kept % 2 == 1,
        _ => false,
    };
    Rounded { significand: kept as u64 + if up { 1 } else { 0 }, shift }
}

/// A signed sum before rounding: its sign where it is not zero, and what splitting its magnitude
/// tells.
pub struct Sum {
    pub negative: bool,
    pub kept: u128,
    pub tail: Tail,
    pub shift: i32,
}

/// The sum of two signed magnitudes.
pub fn combine(na: bool, ma: u64, ka: i32, nb: bool, mb: u64, kb: i32) -> (result: Sum)
    requires
        ma < LONGEST_SIGNIFICAND,
        mb < LONGEST_SIGNIFICAND,
        0 <= ka <= 4000,
        0 <= kb <= 4000,
        ma > 0 || ka == 0,
        mb > 0 || kb == 0,
    ensures
        ({
            let total = signed_units(na, ma as nat * pow2(ka as nat)) + signed_units(
                nb,
                mb as nat * pow2(kb as nat),
            );
            &&& total != 0 ==> result.negative == (total < 0)
            &&& splits(
                magnitude(total),
                pow2(result.shift as nat),
                result.kept as nat,
                result.tail,
            )
        }),
        0 <= result.shift <= 4000,
        result.kept >= LONGEST_SIGNIFICAND || result.tail is Zero,
{
    if ka < kb {
        return combine_ordered(nb, mb, kb, na, ma, ka);
    }
    combine_ordered(na, ma, ka, nb, mb, kb)
}

/// The sum of two signed magnitudes, the first at the larger power of two.
fn combine_ordered(na: bool, ma: u64, ka: i32, nb: bool, mb: u64, kb: i32) -> (result: Sum)
    requires
        ma < LONGEST_SIGNIFICAND,
        mb < LONGEST_SIGNIFICAND,
        0 <= kb <= ka <= 4000,
        ma > 0 || ka == 0,
    ensures
        ({
            let total = signed_units(na, ma as nat * pow2(ka as nat)) + signed_units(
                nb,
                mb as nat * pow2(kb as nat),
            );
            &&& total != 0 ==> result.negative == (total < 0)
            &&& splits(
                magnitude(total),
                pow2(result.shift as nat),
                result.kept as nat,
                result.tail,
            )
        }),
        0 <= result.shift <= 4000,
        result.kept >= LONGEST_SIGNIFICAND || result.tail is Zero,
{
    let ghost ua = ma as nat * pow2(ka as nat);
    let ghost ub = mb as nat * pow2(kb as nat);
    let ghost total = signed_units(na, ua) + signed_units(nb, ub);
    let distance: i32 = ka - kb;
    proof {
        lemma_pow2_values();
    }
    if distance <= 64 {
        let high: u128 = doubled(ma, distance);
        let low: u128 = mb as u128;
        let ghost unit = pow2(kb as nat);
        proof {
            lemma_pow2_sum(distance as nat, kb as nat);
            assert(high * unit == ua) by (nonlinear_arith)
                requires
                    high == ma * pow2(distance as nat),
                    ua == ma * pow2(ka as nat),
                    pow2(ka as nat) == pow2(distance as nat) * unit,
            ;
            assert(low * unit == ub);
            assert(high < low ==> ua < ub) by (nonlinear_arith)
                requires
                    high * unit == ua,
                    low * unit == ub,
                    unit > 0,
            ;
            assert(low <= high ==> ub <= ua) by (nonlinear_arith)
                requires
                    high * unit == ua,
                    low * unit == ub,
                    unit > 0,
            ;
            assert((high + low) * unit == ua + ub) by (nonlinear_arith)
                requires
                    high * unit == ua,
                    low * unit == ub,
            ;
            assert((high - low) * unit == ua - ub) by (nonlinear_arith)
                requires
                    high * unit == ua,
                    low * unit == ub,
            ;
            assert((low - high) * unit == ub - ua) by (nonlinear_arith)
                requires
                    high * unit == ua,
                    low * unit == ub,
            ;
        }
        let (negative, kept): (bool, u128) = if na == nb {
            (na, high + low)
        } else if low <= high {
            (na, high - low)
        } else {
            (nb, low - high)
        };
        proof {
            assert(kept * unit == magnitude(total));
            assert((kept + 1) * unit == kept * unit + unit) by (nonlinear_arith);
        }
        Sum { negative, kept, tail: Tail::Zero, shift: kb }
    } else {
        let base: i32 = ka - 64;
        let high: u128 = doubled(ma, 64);
        let (low, tail) = cut(mb, distance - 64);
        let ghost unit = pow2(base as nat);
        proof {
            lemma_pow2_sum(64, base as nat);
            lemma_cut_scaled(mb as nat, (distance - 64) as nat, kb as nat, low as nat, tail);
            assert(high * unit == ua) by (nonlinear_arith)
                requires
                    high == ma * pow2(64),
                    ua == ma * pow2(ka as nat),
                    pow2(ka as nat) == pow2(64) * unit,
            ;
            assert(high >= pow2(64)) by (nonlinear_arith)
                requires
                    high == ma * pow2(64),
                    ma >= 1,
            ;
            lemma_splits_plus(ub, unit, low as nat, tail, high as nat);
            lemma_splits_minus(ub, unit, low as nat, tail, high as nat);
        }
        if na == nb {
            assert(magnitude(total) == high * unit + ub);
            return Sum { negative: na, kept: high + low, tail, shift: base };
        }
        let (borrow, rest): (u128, Tail) = match tail {
            Tail::Zero => (0, Tail::Zero),
            Tail::BelowHalf => (1, Tail::AboveHalf),
            Tail::Half => (1, Tail::Half),
            Tail::AboveHalf => (1, Tail::BelowHalf),
        };
        assert(magnitude(total) == high * unit - ub);
        Sum { negative: na, kept: high - low - borrow, tail: rest, shift: base }
    }
}

} // verus!
