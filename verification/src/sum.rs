//! Addition in single precision, carried out on the encodings.

use crate::rounding::{
    is_rounding, lemma_nearest_in_bracket, lemma_rounding_unique, lemma_rounds_to_is_rounding,
    lemma_scale_against_top, lemma_zero_is_nearest, round_pack,
};
use crate::scalar::Scalar;
use vstd::arithmetic::power2::*;
use vstd::prelude::*;

verus! {

/// Whether `r` is the sum of `a` and `b` in single precision: the exact sum
/// of two finite terms, rounded.
///
/// A sum that is exactly zero is -0 when both terms are -0, and +0
/// otherwise. An infinity and a finite term, or two infinities of one
/// sign, add up to that infinity. Infinities of opposite sign, and anything
/// that is not a number, add up to something that is not a number.
pub open spec fn is_sum(a: Scalar, b: Scalar, r: Scalar) -> bool {
    if a.is_nan() || b.is_nan() {
        r.is_nan()
    } else if a.is_infinite() {
        if b.is_infinite() && a.sign_bit() != b.sign_bit() {
            r.is_nan()
        } else {
            r == a
        }
    } else if b.is_infinite() {
        r == b
    } else {
        is_rounding(a.units() + b.units(), 1, a.sign_bit() && b.sign_bit(), r)
    }
}

/// The sum of two scalars in single precision; what is not a number is
/// held in one fixed encoding.
pub open spec fn sum(a: Scalar, b: Scalar) -> Scalar {
    choose|r: Scalar| is_sum(a, b, r) && (r.is_nan() ==> r.bits == 0x7fc0_0000)
}

/// Two scalars have one sum only.
pub proof fn lemma_sum_unique(a: Scalar, b: Scalar, r: Scalar)
    requires
        is_sum(a, b, r),
        r.is_nan() ==> r.bits == 0x7fc0_0000,
    ensures
        r == sum(a, b),
{
    let other = sum(a, b);
    if !a.is_nan() && !b.is_nan() && !a.is_infinite() && !b.is_infinite() {
        lemma_rounding_unique(a.units() + b.units(), 1, a.sign_bit() && b.sign_bit(), r, other);
    }
}

/// A term whose scale lies thirty-two or more below that of the other is
/// lost in the rounding: the sum is the other term.
proof fn lemma_small_term_vanishes(large: Scalar, small: Scalar)
    requires
        large.is_finite(),
        small.is_finite(),
        large.scale() >= small.scale() + 32,
    ensures
        is_rounding(
            large.units() + small.units(),
            1,
            large.sign_bit() && small.sign_bit(),
            large,
        ),
{
    let m = large.significand() as int;
    let g = large.scale();
    let pg = pow2(g) as int;
    let a = large.magnitude() as int;
    let b = small.magnitude() as int;
    let top = pow2(252) as int;
    lemma_pow2_pos(g);
    lemma_pow2_pos(small.scale());
    lemma_scale_against_top(g);
    lemma_pow2_adds((g - small.scale()) as nat, small.scale());
    lemma2_to64();
    if g - small.scale() > 32 {
        lemma_pow2_strictly_increases(32, (g - small.scale()) as nat);
    }
    assert(256 * b < pg) by (nonlinear_arith)
        requires
            b == small.significand() * pow2(small.scale()),
            small.significand() < 0x100_0000,
            pg == pow2((g - small.scale()) as nat) * pow2(small.scale()),
            pow2((g - small.scale()) as nat) >= 0x1_0000_0000,
            pow2(small.scale()) > 0,
    ;
    assert(0x80_0000 * pg <= a <= 0xff_ffff * pg && (m + 1) * pg == a + pg && (m - 1) * pg == a
        - pg) by (nonlinear_arith)
        requires
            a == m * pg,
            0x80_0000 <= m <= 0xff_ffff,
            pg > 0,
    ;
    assert(0xff_ffff * pg <= 0xff_ffff * (2 * top)) by (nonlinear_arith)
        requires
            pg <= 2 * top,
    ;
    let exact = large.units() + small.units();
    if b == 0 || large.sign_bit() == small.sign_bit() {
        lemma_nearest_in_bracket(exact, 1, large, m as nat, g);
    } else if m > 0x80_0000 {
        lemma_nearest_in_bracket(exact, 1, large, (m - 1) as nat, g);
    } else {
        lemma_pow2_unfold(g);
        let half = pow2((g - 1) as nat) as int;
        assert(0x100_0000 * half == a && 0xff_ffff * half == a - half) by (nonlinear_arith)
            requires
                a == m * pg,
                m == 0x80_0000,
                pg == 2 * half,
        ;
        lemma_nearest_in_bracket(exact, 1, large, 0xff_ffff, (g - 1) as nat);
    }
}

/// The signed total of two signed magnitudes.
fn signed_total(first_negative: bool, x: u64, second_negative: bool, y: u64) -> (r: (bool, u64))
    requires
        x < 0x80_0000_0000_0000,
        y < 0x100_0000,
    ensures
        r.1 < 0x100_0000_0000_0000,
        (if r.0 {
            -(r.1 as int)
        } else {
            r.1 as int
        }) == (if first_negative {
            -(x as int)
        } else {
            x as int
        }) + (if second_negative {
            -(y as int)
        } else {
            y as int
        }),
        r.1 == 0 ==> r.0 == (first_negative && second_negative),
{
    if first_negative == second_negative {
        (first_negative, x + y)
    } else if x > y {
        (first_negative, x - y)
    } else if x < y {
        (second_negative, y - x)
    } else {
        (false, 0)
    }
}

/// The magnitudes of two finite scalars over one power of two, that of the
/// smaller scale.
proof fn lemma_aligned(large: Scalar, small: Scalar, x: int)
    requires
        small.scale() <= large.scale(),
        x == large.significand() * pow2((large.scale() - small.scale()) as nat),
    ensures
        large.magnitude() == x * pow2(small.scale()),
        small.magnitude() == small.significand() * pow2(small.scale()),
{
    let shift = (large.scale() - small.scale()) as nat;
    lemma_pow2_adds(shift, small.scale());
    let ps = pow2(shift) as int;
    let pb = pow2(small.scale()) as int;
    let m = large.significand() as int;
    assert(m * (ps * pb) == (m * ps) * pb) by (nonlinear_arith);
}

/// Adds two finite scalars whose scales lie less than thirty-two apart.
fn plus_aligned(large: Scalar, small: Scalar) -> (r: Scalar)
    requires
        large.is_finite(),
        small.is_finite(),
        small.scale() <= large.scale() < small.scale() + 32,
    ensures
        is_rounding(large.units() + small.units(), 1, large.sign_bit() && small.sign_bit(), r),
{
    let base: u32 = small.read_scale();
    let shift: u32 = large.read_scale() - base;
    proof {
        lemma2_to64();
        if shift < 31 {
            lemma_pow2_strictly_increases(shift as nat, 31);
        }
        let ps = pow2(shift as nat) as int;
        assert(large.significand() * ps <= 0xff_ffff * 0x8000_0000) by (nonlinear_arith)
            requires
                large.significand() <= 0xff_ffff,
                0 <= ps <= 0x8000_0000,
        ;
        vstd::bits::lemma_u64_shl_is_mul(large.significand() as u64, shift as u64);
    }
    let x: u64 = (large.read_significand() as u64) << (shift as u64);
    let y: u64 = small.read_significand() as u64;
    let (negative, t) = signed_total(large.bits >= 0x8000_0000, x, small.bits >= 0x8000_0000, y);
    let ghost pb = pow2(base as nat) as int;
    let ghost total = large.units() + small.units();
    proof {
        lemma_aligned(large, small, x as int);
        let sx = if large.sign_bit() {
            -(x as int)
        } else {
            x as int
        };
        let sy = if small.sign_bit() {
            -(y as int)
        } else {
            y as int
        };
        let st = if negative {
            -(t as int)
        } else {
            t as int
        };
        assert(large.units() == sx * pb && small.units() == sy * pb) by (nonlinear_arith)
            requires
                large.units() == (if large.sign_bit() {
                    -(x * pb)
                } else {
                    x * pb
                }),
                small.units() == (if small.sign_bit() {
                    -(y * pb)
                } else {
                    y * pb
                }),
                sx == (if large.sign_bit() {
                    -(x as int)
                } else {
                    x as int
                }),
                sy == (if small.sign_bit() {
                    -(y as int)
                } else {
                    y as int
                }),
        ;
        assert(total == st * pb) by (nonlinear_arith)
            requires
                total == sx * pb + sy * pb,
                st == sx + sy,
        ;
    }
    if t == 0 {
        let r = if negative {
            Scalar { bits: 0x8000_0000 }
        } else {
            Scalar { bits: 0 }
        };
        proof {
            lemma_zero_is_nearest(1, r);
            lemma_pow2_pos(252);
            assert(total == 0) by (nonlinear_arith)
                requires
                    total == (if negative {
                        -(t as int)
                    } else {
                        t as int
                    }) * pb,
                    t == 0,
            ;
        }
        r
    } else {
        let r = round_pack(negative, t, base);
        proof {
            lemma_rounds_to_is_rounding(negative, t as nat, base as nat, total, r);
            assert(is_rounding(total, 1, large.sign_bit() && small.sign_bit(), r));
        }
        r
    }
}

impl Scalar {
    /// Adds two scalars as single-precision arithmetic does.
    ///
    /// What is not a number comes out in one fixed encoding.
    pub fn plus(self, other: Scalar) -> (r: Scalar)
        ensures
            r == sum(self, other),
            is_sum(self, other, r),
    {
        let r = if self.is_nan() || other.is_nan() {
            Scalar { bits: 0x7fc0_0000 }
        } else if !self.is_finite() {
            if !other.is_finite() && (self.bits >= 0x8000_0000) != (other.bits >= 0x8000_0000) {
                Scalar { bits: 0x7fc0_0000 }
            } else {
                self
            }
        } else if !other.is_finite() {
            other
        } else {
            let (large, small) = if self.read_scale() >= other.read_scale() {
                (self, other)
            } else {
                (other, self)
            };
            assert(large.units() + small.units() == self.units() + other.units());
            if large.read_scale() - small.read_scale() >= 32 {
                proof {
                    lemma_small_term_vanishes(large, small);
                }
                large
            } else {
                plus_aligned(large, small)
            }
        };
        proof {
            lemma_sum_unique(self, other, r);
        }
        r
    }
}

} // verus!
