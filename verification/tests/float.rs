use rust_crop_tiff::binary::{Binary32, Binary64};
use rust_crop_tiff::round::Format;

fn next(state: &mut u64) -> u64 {
    *state ^= *state << 13;
    *state ^= *state >> 7;
    *state ^= *state << 17;
    *state
}

fn f64_of(b: Binary64) -> f64 {
    f64::from_bits(b.bits)
}

fn f32_of(b: Binary32) -> f32 {
    f32::from_bits(b.bits)
}

fn b64(x: f64) -> Binary64 {
    Binary64 { bits: x.to_bits() }
}

fn b32(x: f32) -> Binary32 {
    Binary32 { bits: x.to_bits() }
}

fn same64(a: Binary64, x: f64) -> bool {
    (f64_of(a).is_nan() && x.is_nan()) || a.bits == x.to_bits()
}

fn same32(a: Binary32, x: f32) -> bool {
    (f32_of(a).is_nan() && x.is_nan()) || a.bits == x.to_bits()
}

/// Patterns of every kind: random bits, neighbours in exponent, small integers.
fn doubles() -> Vec<f64> {
    let mut v = vec![
        0.0,
        -0.0,
        1.0,
        -1.0,
        0.1,
        1e-310,
        5e-324,
        -5e-324,
        f64::MIN_POSITIVE,
        f64::MAX,
        f64::MIN,
        f64::INFINITY,
        f64::NEG_INFINITY,
        f64::NAN,
        4503599627370496.5,
        9007199254740993.0,
        1e300,
        1e-300,
    ];
    let mut s: u64 = 0x9e3779b97f4a7c15;
    for _ in 0..400 {
        v.push(f64::from_bits(next(&mut s)));
        v.push((next(&mut s) % 2000) as f64 / 8.0 - 100.0);
        v.push(f64::from_bits(0x3ff0000000000000 + next(&mut s) % 0x0060000000000000));
    }
    v
}

fn singles() -> Vec<f32> {
    let mut v = vec![
        0.0,
        -0.0,
        1.0,
        -1.0,
        0.1,
        1e-40,
        1e-45,
        f32::MIN_POSITIVE,
        f32::MAX,
        f32::INFINITY,
        f32::NEG_INFINITY,
        f32::NAN,
        8388608.5,
        0.5,
        1.5,
        2.5,
        0.49999997,
        16777217.0,
    ];
    let mut s: u64 = 0x2545f4914f6cdd1d;
    for _ in 0..400 {
        v.push(f32::from_bits(next(&mut s) as u32));
        v.push((next(&mut s) % 20000) as f32 / 8.0 - 100.0);
        v.push(f32::from_bits(0x3f800000 + (next(&mut s) % 0x0c000000) as u32));
    }
    v
}

#[test]
fn double_arithmetic_is_the_machine_arithmetic() {
    let v = doubles();
    for &x in &v {
        for &y in &v {
            assert!(same64(b64(x).plus(b64(y)), x + y), "{x:e} + {y:e}");
            assert!(same64(b64(x).minus(b64(y)), x - y), "{x:e} - {y:e}");
            assert!(same64(b64(x).times(b64(y)), x * y), "{x:e} * {y:e}");
            assert!(same64(b64(x).over(b64(y)), x / y), "{x:e} / {y:e}");
            assert_eq!(b64(x).is_below(b64(y)), x < y);
            assert_eq!(b64(x).is_equal(b64(y)), x == y);
            assert_eq!(b64(x).is_before(b64(y)), x.total_cmp(&y).is_lt());
        }
        assert!(same64(b64(x).root(), x.sqrt()), "sqrt {x:e}");
        assert!(same64(b64(x).abs(), x.abs()));
        assert!(same32(b64(x).narrow(), x as f32), "{x:e} as f32");
        assert_eq!(b64(x).is_finite(), x.is_finite());
        assert_eq!(b64(x).round_index(), x.round().max(0.0) as usize, "{x:e}");
    }
}

#[test]
fn single_arithmetic_is_the_machine_arithmetic() {
    let v = singles();
    for &x in &v {
        for &y in &v {
            assert!(same32(b32(x).plus(b32(y)), x + y), "{x:e} + {y:e}");
            assert!(same32(b32(x).minus(b32(y)), x - y), "{x:e} - {y:e}");
            assert!(same32(b32(x).times(b32(y)), x * y), "{x:e} * {y:e}");
            assert!(same32(b32(x).over(b32(y)), x / y), "{x:e} / {y:e}");
            assert_eq!(b32(x).is_below(b32(y)), x < y);
            assert_eq!(b32(x).is_equal(b32(y)), x == y);
            assert!(f32_of(b32(x).min(b32(y))) == x.min(y) || (x.is_nan() && y.is_nan()));
            assert!(f32_of(b32(x).max(b32(y))) == x.max(y) || (x.is_nan() && y.is_nan()));
        }
        assert!(same32(b32(x).root(), x.sqrt()), "sqrt {x:e}");
        assert!(same64(b32(x).widen(), x as f64), "{x:e} as f64");
        assert_eq!(b32(x).is_finite(), x.is_finite());
        assert_eq!(b32(x).round_index(), x.round().max(0.0) as usize, "{x:e}");
        assert_eq!(b32(x).floor_index(), x.floor() as i64, "{x:e}");
        assert!(same32(b32(x).clamp(b32(0.02), b32(64.0)), x.clamp(0.02, 64.0)));
    }
}

#[test]
fn integers_convert_as_on_the_machine() {
    let mut s: u64 = 0x853c49e6748fea9b;
    let mut n: Vec<usize> = vec![0, 1, 2, 3, 16777215, 16777216, 16777217, 16777219, usize::MAX];
    for _ in 0..2000 {
        let k = next(&mut s) % 64;
        n.push((next(&mut s) >> k) as usize);
    }
    for k in n {
        assert!(same32(Binary32::from_usize(k), k as f32), "{k}");
        assert!(same64(Binary64::from_usize(k), k as f64), "{k}");
    }
}

#[test]
fn tenths_are_rounded_as_they_are_printed() {
    for x in doubles() {
        if x.is_finite() && !x.is_sign_negative() && x < 1e15 {
            let t = Format::Double.round_multiple(x.to_bits(), 10);
            assert_eq!(format!("{}.{}", t / 10, t % 10), format!("{x:.1}"), "{x:e}");
            let n = Format::Double.round_multiple(x.to_bits(), 1);
            assert_eq!(format!("{n}"), format!("{x:.0}"), "{x:e}");
        }
    }
}
