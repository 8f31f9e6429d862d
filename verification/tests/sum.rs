use metropolis::scalar::Scalar;

fn scalar(x: f32) -> Scalar {
    Scalar::from_bits(x.to_bits())
}

fn plus(a: f32, b: f32) -> f32 {
    f32::from_bits(scalar(a).plus(scalar(b)).to_bits())
}

/// The sum must be the one that single-precision hardware gives, bit for
/// bit, unless it is not a number.
fn agrees(a: f32, b: f32) {
    let expected = a + b;
    let got = plus(a, b);
    if expected.is_nan() {
        assert!(got.is_nan(), "{:e} + {:e}", a, b);
        assert_eq!(got.to_bits(), 0x7fc0_0000);
    } else {
        assert_eq!(
            got.to_bits(),
            expected.to_bits(),
            "{:e} ({:#x}) + {:e} ({:#x}): got {:e}, expected {:e}",
            a,
            a.to_bits(),
            b,
            b.to_bits(),
            got,
            expected
        );
    }
}

struct Lcg(u64);

impl Lcg {
    fn next(&mut self) -> u32 {
        self.0 = self.0.wrapping_mul(6364136223846793005).wrapping_add(1442695040888963407);
        (self.0 >> 32) as u32
    }
}

#[test]
fn small_sums_are_exact() {
    assert_eq!(plus(1.0, 2.0), 3.0);
    assert_eq!(plus(0.5, 0.25), 0.75);
    assert_eq!(plus(-1.5, 0.5), -1.0);
    assert_eq!(plus(1.0, -1.0).to_bits(), 0);
    assert_eq!(plus(100.0, 0.125), 100.125);
}

#[test]
fn sum_rounds_to_nearest_with_ties_to_even() {
    // 2^24 + 1 lies midway between 2^24 and 2^24 + 2.
    assert_eq!(plus(16_777_216.0, 1.0), 16_777_216.0);
    // 2^24 + 2 + 1 lies midway between 2^24 + 2 and 2^24 + 4.
    assert_eq!(plus(16_777_218.0, 1.0), 16_777_220.0);
    assert_eq!(plus(16_777_216.0, 3.0), 16_777_220.0);
    assert_eq!(plus(1.0, 5.9604645e-8), 1.0); // 1 + 2^-24: tie, to even
    assert_eq!(plus(1.0, 5.96046519e-8).to_bits(), 0x3f80_0001); // just above the tie
    assert_eq!(plus(0.1, 0.2).to_bits(), (0.1f32 + 0.2f32).to_bits());
}

#[test]
fn signs_of_zero_sums() {
    assert_eq!(plus(0.0, 0.0).to_bits(), 0);
    assert_eq!(plus(-0.0, -0.0).to_bits(), 0x8000_0000);
    assert_eq!(plus(0.0, -0.0).to_bits(), 0);
    assert_eq!(plus(-0.0, 0.0).to_bits(), 0);
    assert_eq!(plus(2.5, -2.5).to_bits(), 0);
    assert_eq!(plus(-2.5, 2.5).to_bits(), 0);
}

#[test]
fn sum_overflows_to_infinity() {
    assert_eq!(plus(f32::MAX, f32::MAX), f32::INFINITY);
    assert_eq!(plus(-f32::MAX, -f32::MAX), f32::NEG_INFINITY);
    // Half a step beyond the largest value is where infinity begins.
    let half_step = f32::from_bits(0x7300_0000); // 2^103
    assert_eq!(plus(f32::MAX, half_step), f32::INFINITY);
    let below = f32::from_bits(0x72ff_ffff);
    assert_eq!(plus(f32::MAX, below), f32::MAX);
    agrees(f32::MAX, half_step);
    agrees(f32::MAX, below);
    agrees(-f32::MAX, -half_step);
}

#[test]
fn sums_with_infinities_and_what_is_not_a_number() {
    assert_eq!(plus(f32::INFINITY, 1.0), f32::INFINITY);
    assert_eq!(plus(-3.0, f32::NEG_INFINITY), f32::NEG_INFINITY);
    assert_eq!(plus(f32::INFINITY, f32::INFINITY), f32::INFINITY);
    assert!(plus(f32::INFINITY, f32::NEG_INFINITY).is_nan());
    assert!(plus(f32::NAN, 1.0).is_nan());
    assert!(plus(1.0, f32::NAN).is_nan());
    assert_eq!(scalar(f32::NAN).plus(scalar(f32::INFINITY)).to_bits(), 0x7fc0_0000);
}

#[test]
fn a_far_smaller_term_is_lost() {
    assert_eq!(plus(1.0, 1.0e-20), 1.0);
    assert_eq!(plus(1.0, -1.0e-20), 1.0);
    assert_eq!(plus(-1.0e-30, 4.0e10), 4.0e10);
    assert_eq!(plus(8_388_608.0, -1.0e-30), 8_388_608.0);
    agrees(f32::MAX, -1.0e-10);
    agrees(f32::from_bits(0x0080_0000 + (40 << 23)), -f32::from_bits(1));
}

#[test]
fn sums_of_subnormal_values() {
    let tiny = f32::from_bits(1);
    assert_eq!(plus(tiny, tiny).to_bits(), 2);
    assert_eq!(plus(f32::from_bits(0x007f_ffff), tiny).to_bits(), 0x0080_0000);
    assert_eq!(plus(f32::from_bits(0x0080_0000), -tiny).to_bits(), 0x007f_ffff);
    agrees(f32::from_bits(0x0080_0001), -f32::from_bits(0x0080_0000));
    agrees(f32::from_bits(0x0100_0000), -f32::from_bits(0x00ff_ffff));
}

#[test]
fn sum_agrees_with_hardware_on_arbitrary_encodings() {
    let mut rng = Lcg(0xadd_0001);
    for _ in 0..200_000 {
        let a = f32::from_bits(rng.next());
        let b = f32::from_bits(rng.next());
        agrees(a, b);
    }
}

#[test]
fn sum_agrees_with_hardware_on_nearby_scales() {
    let mut rng = Lcg(0xadd_0002);
    for _ in 0..300_000 {
        let a_bits = rng.next();
        let a = f32::from_bits(a_bits);
        let exponent = ((a_bits >> 23) & 0xff) as i32;
        let shift = (rng.next() % 70) as i32 - 35;
        let other = (exponent + shift).clamp(0, 254) as u32;
        let b = f32::from_bits((rng.next() & 0x807f_ffff) | (other << 23));
        agrees(a, b);
        agrees(b, a);
    }
}

#[test]
fn sum_agrees_with_hardware_on_cancellation() {
    let mut rng = Lcg(0xadd_0003);
    for _ in 0..200_000 {
        let a_bits = rng.next() & 0x7fff_ffff;
        let delta = rng.next() % 64;
        let b_bits = (a_bits.wrapping_add(delta).wrapping_sub(32)) & 0x7fff_ffff;
        let a = f32::from_bits(a_bits);
        let b = -f32::from_bits(b_bits);
        agrees(a, b);
        agrees(b, a);
    }
}

#[test]
fn sum_agrees_with_hardware_on_halfway_cases() {
    let mut rng = Lcg(0xadd_0004);
    for _ in 0..200_000 {
        // A full significand, and a term of one or a few bits some places below it.
        let exponent = 30 + rng.next() % 190;
        let a = f32::from_bits((exponent << 23) | (rng.next() & 0x007f_ffff));
        let below = 1 + rng.next() % 27;
        let pattern = 1 + (rng.next() % 7);
        let b = f32::from_bits(((exponent - below) << 23) | ((pattern & 3) << 21));
        let b = if pattern & 4 == 0 { b } else { -b };
        agrees(a, b);
        agrees(-a, b);
    }
}

#[test]
fn sum_agrees_with_hardware_near_the_largest_values() {
    let mut rng = Lcg(0xadd_0005);
    for _ in 0..100_000 {
        let a = f32::from_bits(0x7f00_0000 | (rng.next() & 0x007f_ffff));
        let b = f32::from_bits(((200 + rng.next() % 55) << 23) | (rng.next() & 0x807f_ffff));
        agrees(a, b);
        agrees(-a, b);
    }
}
