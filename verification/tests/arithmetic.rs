//! Double and single precision arithmetic, against the machine's own.

use cedar_server::duration::{fits_duration, millis, nanos_from_secs};
use cedar_server::number::{Double, Single};
use std::time::Duration;

fn double(x: f64) -> Double {
    Double { bits: x.to_bits() }
}

/// The same number; any NaN is the same as any other.
fn same(got: Double, want: f64) -> bool {
    let got = f64::from_bits(got.bits);
    got.to_bits() == want.to_bits() || (got.is_nan() && want.is_nan())
}

fn same_single(got: Single, want: f32) -> bool {
    let got = f32::from_bits(got.bits);
    got.to_bits() == want.to_bits() || (got.is_nan() && want.is_nan())
}

struct Random(u64);

impl Random {
    fn next(&mut self) -> u64 {
        self.0 ^= self.0 << 13;
        self.0 ^= self.0 >> 7;
        self.0 ^= self.0 << 17;
        self.0
    }

    /// A double with any exponent, or one of ordinary size, or a small integer.
    fn number(&mut self) -> f64 {
        let r = self.next();
        match r % 4 {
            0 => f64::from_bits(self.next()),
            1 => (self.next() as i64 >> 40) as f64 / 1024.0,
            2 => (self.next() % 2000) as f64 - 1000.0,
            _ => f64::from_bits((self.next() % 0x0020_0000_0000_0000) | (1015 + r % 20) << 52),
        }
    }
}

const EDGES: [f64; 24] = [
    0.0,
    -0.0,
    1.0,
    -1.0,
    0.5,
    1.5,
    3.0,
    0.1,
    0.75,
    1.75,
    360.0,
    180.0,
    f64::MIN_POSITIVE,
    -f64::MIN_POSITIVE,
    5e-324,
    -5e-324,
    2.225e-308,
    f64::MAX,
    f64::MIN,
    f64::EPSILON,
    f64::INFINITY,
    f64::NEG_INFINITY,
    f64::NAN,
    9007199254740993.0,
];

fn check_pair(a: f64, b: f64) {
    let (x, y) = (double(a), double(b));
    assert!(same(x.add(y), a + b), "{a:e} + {b:e}");
    assert!(same(x.sub(y), a - b), "{a:e} - {b:e}");
    assert!(same(x.mul(y), a * b), "{a:e} * {b:e}");
    assert!(same(x.div(y), a / b), "{a:e} / {b:e}");
    assert_eq!(x.lt(y), a < b, "{a:e} < {b:e}");
    assert_eq!(x.le(y), a <= b, "{a:e} <= {b:e}");
}

#[test]
fn operations_agree_with_the_machine_on_edges() {
    for a in EDGES {
        for b in EDGES {
            check_pair(a, b);
            assert!(same(double(a).rem(double(b)), a % b), "{a:e} % {b:e}");
        }
        assert_eq!(double(a).neg().bits, (-a).to_bits());
    }
}

#[test]
fn operations_agree_with_the_machine_on_random_numbers() {
    let mut random = Random(0x1234_5678_9abc_def1);
    for _ in 0..200_000 {
        let (a, b) = (random.number(), random.number());
        check_pair(a, b);
    }
}

/// Operands next to each other, where a sum cancels and a product is a tie.
#[test]
fn operations_agree_with_the_machine_on_neighbours() {
    let mut random = Random(77);
    for _ in 0..50_000 {
        let a = random.number();
        let near = f64::from_bits(a.to_bits().wrapping_add(random.next() % 5).wrapping_sub(2));
        check_pair(a, near);
        check_pair(a, -near);
        let short = f64::from_bits(a.to_bits() & 0xffff_ffff_f800_0000);
        let other = f64::from_bits(near.to_bits() & 0xffff_ffff_fc00_0000);
        check_pair(short, other);
    }
}

#[test]
fn remainders_agree_with_the_machine() {
    let mut random = Random(99);
    for _ in 0..20_000 {
        let a = f64::from_bits(random.next());
        let b = random.number();
        assert!(same(double(a).rem(double(b)), a % b), "{a:e} % {b:e}");
        assert!(same(double(a).rem(double(360.0)), a % 360.0), "{a:e} % 360");
    }
}

#[test]
fn integers_become_the_nearest_double() {
    let mut random = Random(5);
    for n in [0, 1, 2, 3, 255, 1 << 53, (1 << 53) + 1, (1 << 54) + 2, u64::MAX, u64::MAX - 1024, u64::MAX - 1023] {
        assert_eq!(Double::from_u64(n).bits, (n as f64).to_bits(), "{n}");
    }
    for _ in 0..100_000 {
        let n = random.next() >> (random.next() % 64);
        assert_eq!(Double::from_u64(n).bits, (n as f64).to_bits(), "{n}");
    }
}

#[test]
fn narrowing_agrees_with_a_cast() {
    let mut random = Random(31);
    for x in EDGES {
        assert!(same_single(double(x).narrow(), x as f32), "{x:e}");
    }
    for x in [1e-45, 7e-46, 7.1e-46, 1.17549435e-38, 1.1754943e-38, 3.4028235e38, 3.4028235677973366e38, 3.5e38, 16777217.0, 16777219.0] {
        assert!(same_single(double(x).narrow(), x as f32), "{x:e}");
        assert!(same_single(double(-x).narrow(), -x as f32), "-{x:e}");
    }
    for _ in 0..200_000 {
        let x = random.number();
        assert!(same_single(double(x).narrow(), x as f32), "{x:e}");
        // Around single precision's own numbers, and halfway between two of them.
        let s = f32::from_bits(random.next() as u32);
        let d = s as f64;
        let tie = f64::from_bits(d.to_bits() | 0x1000_0000);
        for y in [d, tie, f64::from_bits(tie.to_bits() + 1), f64::from_bits(tie.to_bits().wrapping_sub(1))] {
            assert!(same_single(double(y).narrow(), y as f32), "{y:e}");
        }
    }
}

#[test]
fn widening_agrees_with_a_cast_and_is_undone() {
    let mut random = Random(13);
    for bits in [0u32, 1, 0x8000_0000, 0x8000_0001, 0x007f_ffff, 0x0080_0000, 0x7f7f_ffff, 0x7f80_0000, 0xff80_0000, 0x7fc0_0000] {
        let s = Single { bits };
        assert!(same(s.widen(), f32::from_bits(bits) as f64), "{bits:x}");
    }
    for _ in 0..200_000 {
        let s = Single { bits: random.next() as u32 };
        assert!(same(s.widen(), f32::from_bits(s.bits) as f64), "{:x}", s.bits);
        if !f32::from_bits(s.bits).is_nan() {
            assert_eq!(s.widen().narrow(), s);
        }
    }
}

/// The order is that of `total_cmp`.
#[test]
fn magnitudes_are_ordered_totally() {
    let mut random = Random(3);
    for _ in 0..100_000 {
        let (a, b) = (random.next() as u32, random.next() as u32);
        let want = f32::from_bits(a).total_cmp(&f32::from_bits(b));
        let got = Single { bits: a }.order_rank().cmp(&Single { bits: b }.order_rank());
        assert_eq!(got, want, "{a:x} {b:x}");
    }
}

#[test]
fn seconds_become_nanoseconds_as_a_duration_does() {
    let mut random = Random(8);
    for x in [0.0, -0.0, 1.0, 0.5, 1e-9, 0.5e-9, 1.5e-9, 2.5e-9, 0.49999999e-9, 1e-300, 5e-324, 0.1, 1.1, 2.7, 18446744073709549568.0] {
        assert!(fits_duration(double(x)));
        assert_eq!(nanos_from_secs(double(x)), Duration::from_secs_f64(x).as_nanos(), "{x:e}");
    }
    for x in [-1e-300, -1.0, f64::NAN, f64::INFINITY, f64::NEG_INFINITY, 18446744073709551616.0, 1e300] {
        assert!(!fits_duration(double(x)), "{x:e}");
        assert!(Duration::try_from_secs_f64(x).is_err(), "{x:e}");
    }
    for _ in 0..100_000 {
        let x = random.number().abs();
        assert_eq!(fits_duration(double(x)), Duration::try_from_secs_f64(x).is_ok(), "{x:e}");
        if fits_duration(double(x)) {
            assert_eq!(nanos_from_secs(double(x)), Duration::from_secs_f64(x).as_nanos(), "{x:e}");
        }
    }
}

#[test]
fn durations_become_milliseconds_as_floats_do() {
    let mut random = Random(21);
    for _ in 0..100_000 {
        let d = Duration::new(random.next() >> (random.next() % 64), (random.next() % 1_000_000_000) as u32);
        assert!(same(millis(d.as_nanos()), d.as_secs_f64() * 1000.0), "{d:?}");
    }
}

/// Conversions between degrees and radians, in both precisions.
#[test]
fn angles_convert_as_floats_do() {
    let mut random = Random(55);
    for _ in 0..100_000 {
        let x = random.number();
        assert!(same(double(x).to_degrees(), x.to_degrees()), "{x:e}");
        assert!(same(double(x).to_radians(), x.to_radians()), "{x:e}");
        let bits = random.next() as u32;
        let s = f32::from_bits(bits);
        assert!(same_single(Single { bits }.to_degrees(), s.to_degrees()), "{s:e}");
        assert!(same_single(Single { bits }.to_radians(), s.to_radians()), "{s:e}");
        let other = f32::from_bits(random.next() as u32);
        assert!(same_single(Single { bits }.mul(Single { bits: other.to_bits() }), s * other), "{s:e} * {other:e}");
    }
    for x in EDGES {
        assert!(same(double(x).to_degrees(), x.to_degrees()), "{x:e}");
        assert!(same(double(x).to_radians(), x.to_radians()), "{x:e}");
    }
}
