//! Division in single precision, carried out on the encodings.

use crate::rounding::{
    infinity, is_rounding, lemma_nearest_in_bracket, lemma_overflow_verdict,
    lemma_rounding_unique, lemma_scale_against_top, lemma_zero_is_nearest, overflow_bound, pack,
};
use crate::scalar::{unit, Scalar};
use vstd::arithmetic::power2::*;
use vstd::prelude::*;

verus! {

/// The exact quotient of two finite scalars, the second not zero, as a
/// fraction: this numerator over the magnitude of the second, in units of
/// 2^-149.
pub open spec fn exact_numerator(a: Scalar, b: Scalar) -> int {
    if a.sign_bit() != b.sign_bit() {
        -(unit() * a.magnitude())
    } else {
        (unit() * a.magnitude()) as int
    }
}

/// Whether `r` is the quotient of `a` by `b` in single precision: the exact
/// quotient of two finite scalars, rounded.
///
/// The sign of the quotient is set when the signs of the two differ, also
/// where the quotient is a zero or an infinity. A finite scalar over an
/// infinity is zero; an infinity over a finite scalar, and a scalar other
/// than zero over zero, is an infinity. Zero over zero, an infinity over an
/// infinity, and anything that is not a number, give something that is not
/// a number.
pub open spec fn is_quotient(a: Scalar, b: Scalar, r: Scalar) -> bool {
    let negative = a.sign_bit() != b.sign_bit();
    if a.is_nan() || b.is_nan() {
        r.is_nan()
    } else if a.is_infinite() {
        if b.is_infinite() {
            r.is_nan()
        } else {
            r.is_infinite() && r.sign_bit() == negative
        }
    } else if b.is_infinite() {
        r.is_zero() && r.sign_bit() == negative
    } else if b.is_zero() {
        if a.is_zero() {
            r.is_nan()
        } else {
            r.is_infinite() && r.sign_bit() == negative
        }
    } else {
        is_rounding(exact_numerator(a, b), b.magnitude() as int, negative, r)
    }
}

/// Whether `r` is the quotient of `a` by `b`, held in one fixed encoding
/// where it is not a number.
pub open spec fn is_fixed_quotient(a: Scalar, b: Scalar, r: Scalar) -> bool {
    is_quotient(a, b, r) && (r.is_nan() ==> r.bits == 0x7fc0_0000)
}

/// The quotient of two scalars in single precision; what is not a number
/// is held in one fixed encoding.
pub open spec fn quotient(a: Scalar, b: Scalar) -> Scalar {
    choose|r: Scalar| is_fixed_quotient(a, b, r)
}

/// A finite scalar other than zero has a magnitude above zero.
proof fn lemma_magnitude_above_zero(b: Scalar)
    requires
        b.is_finite(),
        !b.is_zero(),
    ensures
        b.magnitude() > 0,
        overflow_bound() * b.magnitude() > 0,
{
    lemma_pow2_pos(b.scale());
    lemma_pow2_pos(252);
    assert(b.magnitude() > 0 && overflow_bound() * b.magnitude() > 0) by (nonlinear_arith)
        requires
            b.magnitude() == b.significand() * pow2(b.scale()),
            b.significand() > 0,
            pow2(b.scale()) > 0,
            overflow_bound() == 0x1ff_ffff * pow2(252),
            pow2(252) > 0,
    ;
}

/// Two scalars have one quotient only.
pub proof fn lemma_quotient_unique(a: Scalar, b: Scalar, r: Scalar)
    requires
        is_fixed_quotient(a, b, r),
    ensures
        r == quotient(a, b),
{
    let other = quotient(a, b);
    if a.is_finite() && b.is_finite() && !b.is_zero() {
        lemma_magnitude_above_zero(b);
        lemma_rounding_unique(
            exact_numerator(a, b),
            b.magnitude() as int,
            a.sign_bit() != b.sign_bit(),
            r,
            other,
        );
    }
}

/// Scaling by a factor above zero keeps the order.
proof fn lemma_scaled_order(c: int, a: int, b: int)
    requires
        c > 0,
    ensures
        a < b <==> c * a < c * b,
        a == b <==> c * a == c * b,
{
    assert((a < b ==> c * a < c * b) && (a > b ==> c * a > c * b)) by (nonlinear_arith)
        requires
            c > 0,
    ;
}

/// Where the quotient of `mn * 2^(sn + 149)` by `md * 2^sd` stands between
/// two neighbouring multiples of `2^g`, given the integer quotient `t` of
/// `mn * 2^64` by `md`, cut at its bit `k`.
proof fn lemma_division_bracket(
    mn: int,
    sn: nat,
    md: int,
    sd: nat,
    t: int,
    rem: int,
    k: nat,
    q: int,
    low: int,
    g: nat,
)
    requires
        mn * pow2(64) == t * md + rem,
        0 <= rem < md,
        t == q * pow2(k) + low,
        0 <= low < pow2(k),
        g + sd == sn + 85 + k,
    ensures
        ({
            let x = mn * pow2(sn + 149);
            let d = md * pow2(sd);
            let c = pow2(sn + 85) as int;
            let a = low * md + rem;
            &&& c > 0
            &&& d > 0
            &&& 0 <= a < pow2(k) * md
            &&& x - q * pow2(g) * d == c * a
            &&& (q + 1) * pow2(g) * d - x == c * (pow2(k) * md - a)
            &&& (2 * q + 1) * pow2(g) * d - 2 * x == c * (pow2(k) * md - 2 * a)
        }),
{
    let p = pow2(k) as int;
    let c = pow2(sn + 85) as int;
    let w = pow2(64) as int;
    let ps = pow2(sd) as int;
    let pg = pow2(g) as int;
    let a = low * md + rem;
    let x = mn * pow2(sn + 149);
    let d = md * ps;
    lemma_pow2_pos(sn + 85);
    lemma_pow2_pos(sd);
    lemma_pow2_pos(k);
    lemma_pow2_adds(sn + 85, 64);
    lemma_pow2_adds(g, sd);
    lemma_pow2_adds(sn + 85, k);
    assert(pg * ps == c * p);
    assert(0 <= a < p * md && d > 0) by (nonlinear_arith)
        requires
            a == low * md + rem,
            0 <= low < p,
            0 <= rem < md,
            d == md * ps,
            ps > 0,
    ;
    assert(x == c * (t * md + rem)) by (nonlinear_arith)
        requires
            x == mn * (c * w),
            mn * w == t * md + rem,
    ;
    assert(t * md + rem == q * (p * md) + a) by (nonlinear_arith)
        requires
            t == q * p + low,
            a == low * md + rem,
    ;
    let u = p * md;
    let step = c * u;
    assert(pg * d == step) by (nonlinear_arith)
        requires
            d == md * ps,
            pg * ps == c * p,
            u == p * md,
            step == c * u,
    ;
    assert(q * pg * d == q * step && (q + 1) * pg * d == q * step + step && (2 * q + 1) * pg * d
        == 2 * (q * step) + step) by (nonlinear_arith)
        requires
            pg * d == step,
    ;
    assert(c * (q * u + a) == q * step + c * a) by (nonlinear_arith)
        requires
            step == c * u,
    ;
    assert(c * (u - a) == step - c * a && c * (u - 2 * a) == step - 2 * (c * a))
        by (nonlinear_arith)
        requires
            step == c * u,
    ;
}

/// Divides `mn * 2^(sn + 149)` by `md * 2^sd`, rounds, and gives the result
/// the sign asked for.
fn divide_core(negative: bool, mn: u32, sn: u32, md: u32, sd: u32) -> (r: Scalar)
    requires
        0 < mn < 0x100_0000,
        0 < md < 0x100_0000,
        sn <= 253,
        sd <= 253,
        sd < sn + 175,
    ensures
        is_rounding(
            if negative {
                -(mn * pow2((sn + 149) as nat))
            } else {
                mn * pow2((sn + 149) as nat)
            },
            md * pow2(sd as nat),
            negative,
            r,
        ),
{
    let wide: u128 = (mn as u128) * 0x1_0000_0000_0000_0000;
    let t: u128 = wide / (md as u128);
    let rem: u128 = wide % (md as u128);
    proof {
        lemma2_to64();
        vstd::arithmetic::div_mod::lemma_fundamental_div_mod(wide as int, md as int);
        assert(t >= 0x100_0000_0000 && t < 0x100_0000 * 0x1_0000_0000_0000_0000)
            by (nonlinear_arith)
            requires
                wide == md * t + rem,
                0 <= rem < md,
                0 < md < 0x100_0000,
                0x1_0000_0000_0000_0000 <= wide < 0x100_0000 * 0x1_0000_0000_0000_0000,
        ;
    }
    let mut k: u32 = 17;
    let mut p: u128 = 0x2_0000;
    while t / p >= 0x100_0000
        invariant
            p == pow2(k as nat),
            17 <= k <= 65,
            0 < p <= 0x2_0000_0000_0000_0000,
            t >= 0x80_0000 * p,
            t < 0x100_0000 * 0x1_0000_0000_0000_0000,
        decreases 128 - k,
    {
        proof {
            assert(t >= 0x100_0000 * p) by (nonlinear_arith)
                requires
                    t / p >= 0x100_0000,
                    p > 0,
            ;
            lemma_pow2_unfold((k + 1) as nat);
            lemma2_to64();
            if k > 64 {
                lemma_pow2_strictly_increases(64, k as nat);
            }
            if k < 63 {
                lemma_pow2_strictly_increases(k as nat, 63);
            }
            lemma2_to64_rest();
        }
        p = p * 2;
        k = k + 1;
    }
    proof {
        vstd::arithmetic::div_mod::lemma_fundamental_div_mod(t as int, p as int);
        assert(t < 0x100_0000 * p) by (nonlinear_arith)
            requires
                t / p < 0x100_0000,
                t == p * (t / p) + t % p,
                0 <= t % p < p,
        ;
    }
    let upper: u32 = sn + 85 + k;
    let mut g: u32 = 0;
    if upper >= sd {
        g = upper - sd;
    } else {
        let mut extra: u32 = sd - upper;
        while extra > 0
            invariant
                p == pow2(k as nat),
                17 <= k,
                k + extra + sn + 85 == sd,
                sd < sn + 175,
                0 < p,
                t < 0x100_0000 * p,
            decreases extra,
        {
            proof {
                lemma_pow2_unfold((k + 1) as nat);
                lemma_pow2_strictly_increases(k as nat, 89);
                lemma_pow2_adds(64, 25);
                lemma2_to64();
            }
            p = p * 2;
            k = k + 1;
            extra = extra - 1;
        }
    }
    proof {
        lemma_pow2_adds(64, 25);
        lemma2_to64();
        if k < 89 {
            lemma_pow2_strictly_increases(k as nat, 89);
        }
    }
    let q: u128 = t / p;
    let low: u128 = t % p;
    let ghost x = mn * pow2((sn + 149) as nat);
    let ghost d = md * pow2(sd as nat);
    let ghost c = pow2((sn + 85) as nat) as int;
    proof {
        vstd::arithmetic::div_mod::lemma_fundamental_div_mod(t as int, p as int);
        assert(q < 0x100_0000 && (g > 0 ==> q >= 0x80_0000) && t == q * p + low)
            by (nonlinear_arith)
            requires
                t == p * q + low,
                0 <= low < p,
                g > 0 ==> t >= 0x80_0000 * p,
                t < 0x100_0000 * p,
                p > 0,
        ;
        assert(low * md + rem < p * md && p * md <= 0x2000_0000_0000_0000_0000_0000 * 0x100_0000)
            by (nonlinear_arith)
            requires
                0 <= low < p,
                0 <= rem < md,
                md < 0x100_0000,
                p <= 0x2000_0000_0000_0000_0000_0000,
        ;
        lemma_division_bracket(
            mn as int,
            sn as nat,
            md as int,
            sd as nat,
            t as int,
            rem as int,
            k as nat,
            q as int,
            low as int,
            g as nat,
        );
    }
    let a: u128 = low * (md as u128) + rem;
    let pm: u128 = p * (md as u128);
    let up: bool = 2 * a > pm || (2 * a == pm && q % 2 == 1);
    let carried: bool = up && q + 1 == 0x100_0000;
    let significand: u32 = if carried {
        0x80_0000
    } else if up {
        (q + 1) as u32
    } else {
        q as u32
    };
    let scale: u32 = if carried {
        g + 1
    } else {
        g
    };
    proof {
        lemma_scaled_order(c, a as int, pm - a);
        lemma_scaled_order(c, pm - a, a as int);
        lemma_scaled_order(c, 0, pm - 2 * a);
        lemma_scaled_order(c, pm - 2 * a, 0);
        assert(c * 0 == 0);
        lemma_pow2_pos(g as nat);
        if q >= 0x80_0000 {
            lemma_overflow_verdict(x, d, q as int, g as nat, up);
        } else {
            lemma_scale_against_top(0);
            assert((q + 1) * pow2(0) * d < overflow_bound() * d) by (nonlinear_arith)
                requires
                    q + 1 <= 0x80_0000,
                    pow2(0) == 1,
                    overflow_bound() == 0x1ff_ffff * pow2(252),
                    pow2(252) >= 1,
                    d > 0,
            ;
        }
    }
    proof {
        lemma_pow2_pos((sn + 149) as nat);
        assert(x > 0) by (nonlinear_arith)
            requires
                x == mn * pow2((sn + 149) as nat),
                mn > 0,
                pow2((sn + 149) as nat) > 0,
        ;
    }
    if scale > 253 {
        infinity(negative)
    } else {
        let r = pack(negative, significand, scale);
        proof {
            if carried {
                lemma_pow2_unfold((g + 1) as nat);
                assert(0x80_0000 * (2 * pow2(g as nat)) == (q + 1) * pow2(g as nat))
                    by (nonlinear_arith)
                    requires
                        q + 1 == 0x100_0000,
                ;
            }
            lemma_nearest_in_bracket(
                if negative {
                    -x
                } else {
                    x
                },
                d,
                r,
                q as nat,
                g as nat,
            );
        }
        r
    }
}

/// The zero of a given sign.
fn zero(negative: bool) -> (r: Scalar)
    ensures
        r.is_zero(),
        r.sign_bit() == negative,
{
    if negative {
        Scalar { bits: 0x8000_0000 }
    } else {
        Scalar { bits: 0 }
    }
}

/// A quotient below half of the smallest positive value is zero.
proof fn lemma_quotient_vanishes(a: Scalar, b: Scalar, r: Scalar)
    requires
        a.is_finite(),
        b.is_finite(),
        a.significand() > 0,
        b.significand() > 0,
        b.scale() >= a.scale() + 175,
        r.is_zero(),
        r.sign_bit() == (a.sign_bit() != b.sign_bit()),
    ensures
        is_quotient(a, b, r),
{
    let mn = a.significand() as int;
    let md = b.significand() as int;
    let pn = pow2(a.scale()) as int;
    let pd = pow2(b.scale()) as int;
    let one = unit() as int;
    let x = one * (mn * pn);
    let d = md * pd;
    lemma_pow2_pos(a.scale());
    lemma_pow2_pos(149);
    lemma_pow2_adds(a.scale(), 175);
    lemma_pow2_adds(149, 26);
    lemma2_to64();
    if b.scale() > a.scale() + 175 {
        lemma_pow2_strictly_increases(a.scale() + 175, b.scale());
    }
    let base = one * pn;
    assert(x == mn * base && 0 < x < 0x100_0000 * base) by (nonlinear_arith)
        requires
            x == one * (mn * pn),
            base == one * pn,
            0 < mn < 0x100_0000,
            one > 0,
            pn > 0,
    ;
    assert(d >= 0x400_0000 * base) by (nonlinear_arith)
        requires
            d == md * pd,
            md >= 1,
            pd >= pn * (one * 0x400_0000),
            base == one * pn,
            base > 0,
    ;
    lemma_zero_is_nearest(d, r);
    lemma_scale_against_top(0);
    assert(overflow_bound() * d >= d && 0 * pow2(0) * d == 0 && (0 + 1) * pow2(0) * d == d)
        by (nonlinear_arith)
        requires
            overflow_bound() == 0x1ff_ffff * pow2(252),
            pow2(252) > 0,
            pow2(0) == 1,
            d > 0,
    ;
    lemma_nearest_in_bracket(exact_numerator(a, b), d, r, 0, 0);
}

impl Scalar {
    /// Divides this scalar by another as single-precision arithmetic does.
    ///
    /// What is not a number comes out in one fixed encoding.
    pub fn over(self, other: Scalar) -> (r: Scalar)
        ensures
            r == quotient(self, other),
            is_quotient(self, other, r),
    {
        let negative: bool = (self.bits >= 0x8000_0000) != (other.bits >= 0x8000_0000);
        let mn: u32 = self.read_significand();
        let sn: u32 = self.read_scale();
        let md: u32 = other.read_significand();
        let sd: u32 = other.read_scale();
        let r = if self.is_nan() || other.is_nan() {
            Scalar { bits: 0x7fc0_0000 }
        } else if !self.is_finite() {
            if !other.is_finite() {
                Scalar { bits: 0x7fc0_0000 }
            } else {
                infinity(negative)
            }
        } else if !other.is_finite() {
            zero(negative)
        } else if md == 0 {
            if mn == 0 {
                Scalar { bits: 0x7fc0_0000 }
            } else {
                infinity(negative)
            }
        } else if mn == 0 {
            let r = zero(negative);
            proof {
                lemma_magnitude_above_zero(other);
                lemma_zero_is_nearest(other.magnitude() as int, r);
                assert(unit() * self.magnitude() == 0) by (nonlinear_arith)
                    requires
                        self.magnitude() == mn * pow2(sn as nat),
                        mn == 0,
                ;
            }
            r
        } else if sd >= sn + 175 {
            let r = zero(negative);
            proof {
                lemma_quotient_vanishes(self, other, r);
            }
            r
        } else {
            proof {
                lemma_pow2_adds(149, sn as nat);
                assert(unit() * self.magnitude() == mn * pow2((sn + 149) as nat))
                    by (nonlinear_arith)
                    requires
                        self.magnitude() == mn * pow2(sn as nat),
                        pow2((sn + 149) as nat) == unit() * pow2(sn as nat),
                ;
            }
            divide_core(negative, mn, sn, md, sd)
        };
        proof {
            lemma_quotient_unique(self, other, r);
        }
        r
    }
}

} // verus!
