use window_decorations::binary32::Binary32;
use window_decorations::binary64::Binary64;

const DOUBLES: [f64; 22] = [
    0.,
    -0.,
    1.,
    -1.,
    0.5,
    1.25,
    1.1,
    -2.75,
    3.,
    42.,
    499.,
    1e-310,
    5e-324,
    -5e-324,
    2.2250738585072014e-308,
    1.7976931348623157e308,
    -1.7976931348623157e308,
    9007199254740993.,
    4503599627370497.5,
    f64::INFINITY,
    f64::NEG_INFINITY,
    f64::NAN,
];

const SINGLES: [f32; 19] = [
    0.,
    -0.,
    1.,
    -1.,
    0.5,
    1.1,
    -2.75,
    254.5,
    255.5,
    1e-40,
    1e-45,
    -1e-45,
    1.1754944e-38,
    3.4028235e38,
    -3.4028235e38,
    16777217.,
    f32::INFINITY,
    f32::NEG_INFINITY,
    f32::NAN,
];

/// A row of bit patterns that look random.
struct Patterns {
    state: u64,
}

impl Patterns {
    fn next(&mut self) -> u64 {
        self.state = self.state.wrapping_mul(6364136223846793005).wrapping_add(1442695040888963407);
        let high = self.state >> 32;
        self.state = self.state.wrapping_mul(6364136223846793005).wrapping_add(1442695040888963407);
        (high << 32) | (self.state >> 32)
    }

    /// A double whose exponent is often near that of one, so that operands meet.
    fn next_double(&mut self) -> f64 {
        let bits = self.next();
        match bits % 3 {
            0 => f64::from_bits(bits),
            1 => f64::from_bits((bits & 0x800F_FFFF_FFFF_FFFF) | ((1000 + (bits >> 20) % 64) << 52)),
            _ => ((bits % 4_000_000) as f64) / 256.,
        }
    }

    fn next_single(&mut self) -> f32 {
        let bits = self.next();
        let low = (bits >> 8) as u32;
        match bits % 3 {
            0 => f32::from_bits(low),
            1 => f32::from_bits((low & 0x807F_FFFF) | ((110 + (low >> 4) % 32) << 23)),
            _ => ((bits % 40_000) as f32) / 128.,
        }
    }
}

fn double(value: f64) -> Binary64 {
    Binary64::from_bits(value.to_bits())
}

fn single(value: f32) -> Binary32 {
    Binary32::from_bits(value.to_bits())
}

fn same_double(result: Binary64, expected: f64) {
    let result = f64::from_bits(result.to_bits());
    if expected.is_nan() {
        assert!(result.is_nan());
    } else {
        assert_eq!(result.to_bits(), expected.to_bits());
    }
}

fn same_single(result: Binary32, expected: f32) {
    let result = f32::from_bits(result.to_bits());
    if expected.is_nan() {
        assert!(result.is_nan());
    } else {
        assert_eq!(result.to_bits(), expected.to_bits());
    }
}

fn check_doubles(a: f64, b: f64) {
    assert_eq!(double(a).less_than(double(b)), a < b);
    assert_eq!(double(a).is_at_least(double(b)), a >= b);
    same_double(double(a).minus(double(b)), a - b);
    same_double(double(a).over(double(b)), a / b);
}

fn check_double(a: f64) {
    for factor in [0_u32, 1, 2, 3, 6, 12, 30, 42, u32::MAX] {
        same_double(double(a).times(factor), f64::from(factor) * a);
    }
    assert_eq!(double(a).whole_length(), a.round().max(1.) as u32);
    let positive = f64::from_bits(double(a).or_zero().to_bits());
    assert_eq!(positive, a.max(0.));
}

fn check_singles(a: f32, b: f32) {
    same_single(single(a).plus(single(b)), a + b);
    same_single(single(a).minus(single(b)), a - b);
    same_single(single(a).times(single(b)), a * b);
    same_single(single(a).over(single(b)), a / b);
}

fn check_single(a: f32) {
    same_single(single(a).negate(), -a);
    assert_eq!(single(a).is_below_zero(), a < 0.);
    same_single(single(a).without_sign(), a.abs());
    same_single(single(a).sign(), a.signum());
    same_single(single(a).clamp(), a.clamp(0., 1.));
    assert_eq!(single(a).to_byte(), a.round() as u8);
}

#[test]
fn doubles_compute_as_the_machine_does() {
    for a in DOUBLES {
        check_double(a);
        for b in DOUBLES {
            check_doubles(a, b);
        }
    }
    let mut patterns = Patterns { state: 7 };
    for _ in 0..20_000 {
        let a = patterns.next_double();
        let b = patterns.next_double();
        check_double(a);
        check_doubles(a, b);
        check_doubles(a, a);
    }
}

#[test]
fn singles_compute_as_the_machine_does() {
    for a in SINGLES {
        check_single(a);
        for b in SINGLES {
            check_singles(a, b);
            for c in SINGLES {
                same_single(single(a).times_plus(single(b), single(c)), a.mul_add(b, c));
            }
        }
    }
    let mut patterns = Patterns { state: 11 };
    for _ in 0..20_000 {
        let a = patterns.next_single();
        let b = patterns.next_single();
        let c = patterns.next_single();
        check_single(a);
        check_singles(a, b);
        check_singles(a, a);
        same_single(single(a).times_plus(single(b), single(c)), a.mul_add(b, c));
        same_single(single(a).times_plus(single(b), single(-(a * b))), a.mul_add(b, -(a * b)));
    }
}

#[test]
fn whole_numbers_are_those_of_the_machine() {
    for value in [0_u32, 1, 2, 3, 255, 500, 65_537, 16_777_217, u32::MAX - 1, u32::MAX] {
        same_double(Binary64::from_whole(value), f64::from(value));
        same_single(Binary32::from_whole(value), value as f32);
    }
    same_double(Binary64::zero(), 0.);
    same_single(Binary32::one(), 1.);
}

#[test]
fn halves_are_rounded() {
    for value in [0_i64, 1, -1, 3, -17, 131, 16_777_217, -16_777_219, 1 << 40, i64::MAX, i64::MIN] {
        same_single(Binary32::from_halves(value), (value as f32) / 2.);
    }
}

#[test]
fn halves_of_short_numbers_are_exact() {
    for value in [0_i64, 1, -1, 131, -16_777_216, 16_777_215, 16_777_216] {
        let half = f32::from_bits(Binary32::from_halves(value).to_bits());
        assert_eq!(2. * f64::from(half), value as f64);
    }
}

#[test]
fn halves_round_to_the_even_significand() {
    // One past 2 to the power 53 lies halfway between two doubles.
    same_double(double(9007199254740992.).minus(double(-1.)), 9007199254740992.);
    same_double(double(9007199254740994.).minus(double(-1.)), 9007199254740996.);
}
