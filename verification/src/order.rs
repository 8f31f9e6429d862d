//! Order among scalars, as single precision compares them.

use crate::scalar::Scalar;
use vstd::arithmetic::power2::*;
use vstd::prelude::*;

verus! {

/// Whether `a` is less than `b` as single precision compares: what is not
/// a number is less than nothing, and nothing is less than it.
pub open spec fn less(a: Scalar, b: Scalar) -> bool {
    &&& !a.is_nan()
    &&& !b.is_nan()
    &&& if a.is_infinite() {
        a.sign_bit() && !(b.is_infinite() && b.sign_bit())
    } else if b.is_infinite() {
        !b.sign_bit()
    } else {
        a.units() < b.units()
    }
}

/// The lesser of two scalars; where one of them is not a number, the
/// other.
pub open spec fn minimum(a: Scalar, b: Scalar) -> Scalar {
    if a.is_nan() {
        b
    } else if b.is_nan() {
        a
    } else if less(b, a) {
        b
    } else {
        a
    }
}

/// A finite scalar has a magnitude above zero exactly when its significand
/// is above zero; one that is not below zero has its magnitude for its
/// value, and one below zero a value below zero.
pub proof fn lemma_signs(v: Scalar)
    requires
        v.is_finite(),
    ensures
        v.significand() > 0 <==> v.magnitude() > 0,
        v.is_non_negative() ==> v.units() == v.magnitude(),
        v.is_negative() ==> v.units() < 0,
{
    lemma_pow2_pos(v.scale());
    let m = v.significand() as int;
    let p = pow2(v.scale()) as int;
    assert((m > 0 ==> m * p > 0) && (m == 0 ==> m * p == 0)) by (nonlinear_arith)
        requires
            p > 0,
            m >= 0,
    ;
}

/// How one quantity stands to another.
enum Balance {
    Lighter,
    Even,
    Heavier,
}

spec fn balance_of(left: int, right: int) -> Balance {
    if left < right {
        Balance::Lighter
    } else if left == right {
        Balance::Even
    } else {
        Balance::Heavier
    }
}

proof fn lemma_balance_scaled(left: int, right: int, k: nat)
    ensures
        balance_of(left * pow2(k), right * pow2(k)) == balance_of(left, right),
{
    lemma_pow2_pos(k);
    let p = pow2(k) as int;
    assert(left < right ==> left * p < right * p) by (nonlinear_arith)
        requires
            p > 0,
    ;
    assert(left > right ==> left * p > right * p) by (nonlinear_arith)
        requires
            p > 0,
    ;
}

/// Weighs `a * 2^shift` against `b`.
fn weigh_shifted(a: u64, shift: u32, b: u64) -> (r: Balance)
    ensures
        r == balance_of(a * pow2(shift as nat), b as int),
{
    if a == 0 {
        if b == 0 {
            Balance::Even
        } else {
            Balance::Lighter
        }
    } else if shift >= 64 {
        proof {
            lemma2_to64();
            if shift > 64 {
                lemma_pow2_strictly_increases(64, shift as nat);
            }
            let p = pow2(shift as nat) as int;
            assert(a * p >= p) by (nonlinear_arith)
                requires
                    a >= 1,
                    p >= 0,
            ;
        }
        Balance::Heavier
    } else {
        proof {
            lemma2_to64_rest();
            if shift < 63 {
                lemma_pow2_strictly_increases(shift as nat, 63);
            }
            vstd::bits::lemma_u64_shl_is_mul(1, shift as u64);
        }
        let p: u64 = 1u64 << (shift as u64);
        assert(a * p <= 0xffff_ffff_ffff_ffff * 0x8000_0000_0000_0000) by (nonlinear_arith)
            requires
                a <= 0xffff_ffff_ffff_ffff,
                p <= 0x8000_0000_0000_0000,
        ;
        let x: u128 = (a as u128) * (p as u128);
        let y: u128 = b as u128;
        if x < y {
            Balance::Lighter
        } else if x == y {
            Balance::Even
        } else {
            Balance::Heavier
        }
    }
}

/// Weighs `a * 2^ea` against `b * 2^eb`.
fn weigh(a: u64, ea: u32, b: u64, eb: u32) -> (r: Balance)
    ensures
        r == balance_of(a * pow2(ea as nat), b * pow2(eb as nat)),
{
    if ea >= eb {
        let d: u32 = ea - eb;
        proof {
            lemma_pow2_adds(d as nat, eb as nat);
            let pd = pow2(d as nat) as int;
            let pb = pow2(eb as nat) as int;
            assert(a * (pd * pb) == (a * pd) * pb) by (nonlinear_arith);
            lemma_balance_scaled(a * pd, b as int, eb as nat);
        }
        weigh_shifted(a, d, b)
    } else {
        let d: u32 = eb - ea;
        proof {
            lemma_pow2_adds(d as nat, ea as nat);
            let pd = pow2(d as nat) as int;
            let pa = pow2(ea as nat) as int;
            assert(b * (pd * pa) == (b * pd) * pa) by (nonlinear_arith);
            lemma_balance_scaled(b * pd, a as int, ea as nat);
        }
        match weigh_shifted(b, d, a) {
            Balance::Lighter => Balance::Heavier,
            Balance::Even => Balance::Even,
            Balance::Heavier => Balance::Lighter,
        }
    }
}

impl Scalar {
    /// Whether this scalar is less than another, as single precision
    /// compares.
    pub fn less_than(self, other: Scalar) -> (r: bool)
        ensures
            r == less(self, other),
    {
        if self.is_nan() || other.is_nan() {
            return false;
        }
        let negative: bool = self.bits >= 0x8000_0000;
        let other_negative: bool = other.bits >= 0x8000_0000;
        if !self.is_finite() {
            return negative && !(!other.is_finite() && other_negative);
        }
        if !other.is_finite() {
            return !other_negative;
        }
        proof {
            lemma_signs(self);
            lemma_signs(other);
        }
        let m: u32 = self.read_significand();
        let other_m: u32 = other.read_significand();
        if negative != other_negative {
            return negative && (m != 0 || other_m != 0);
        }
        match weigh(m as u64, self.read_scale(), other_m as u64, other.read_scale()) {
            Balance::Lighter => !negative,
            Balance::Even => false,
            Balance::Heavier => negative,
        }
    }

    /// The lesser of this scalar and another; where one of them is not a
    /// number, the other.
    pub fn min(self, other: Scalar) -> (r: Scalar)
        ensures
            r == minimum(self, other),
    {
        if self.is_nan() {
            other
        } else if other.is_nan() {
            self
        } else if other.less_than(self) {
            other
        } else {
            self
        }
    }
}

} // verus!
