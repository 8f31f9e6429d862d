//! Single-precision numbers, read through their encoding.

use vstd::arithmetic::power2::*;
use vstd::prelude::*;

verus! {

/// A number in IEEE 754 single precision, held by its 32-bit encoding.
///
/// Every finite value is a whole multiple of 2^-149, the smallest positive
/// value of the format. The specifications measure values in that unit, so
/// that they are integers.
#[derive(Clone, Copy, Debug, PartialEq, Eq, Structural)]
pub struct Scalar {
    pub bits: u32,
}

impl Scalar {
    /// The sign bit: set for negative values, for -0 and for some NaNs.
    pub open spec fn sign_bit(self) -> bool {
        self.bits >= 0x8000_0000
    }

    /// The eight exponent bits.
    pub open spec fn biased_exponent(self) -> nat {
        ((self.bits / 0x80_0000) % 0x100) as nat
    }

    /// The twenty-three fraction bits.
    pub open spec fn fraction(self) -> nat {
        (self.bits % 0x80_0000) as nat
    }

    /// What is not a number.
    pub open spec fn spec_is_nan(self) -> bool {
        self.biased_exponent() == 0xff && self.fraction() != 0
    }

    /// A number that is no infinity: a zero, a subnormal or a normal value.
    pub open spec fn spec_is_finite(self) -> bool {
        self.biased_exponent() < 0xff
    }

    /// One of the two infinities.
    pub open spec fn is_infinite(self) -> bool {
        self.biased_exponent() == 0xff && self.fraction() == 0
    }

    /// The significand as an integer below 2^24: the fraction bits, with the
    /// implicit leading bit unless the value is subnormal.
    pub open spec fn significand(self) -> nat {
        if self.biased_exponent() == 0 {
            self.fraction()
        } else {
            0x80_0000 + self.fraction()
        }
    }

    /// The power of two by which the significand is scaled, counted from
    /// 2^-149.
    pub open spec fn scale(self) -> nat {
        if self.biased_exponent() == 0 {
            0
        } else {
            (self.biased_exponent() - 1) as nat
        }
    }

    /// The absolute value of a finite scalar, in units of 2^-149.
    pub open spec fn magnitude(self) -> nat {
        self.significand() * pow2(self.scale())
    }

    /// The value of a finite scalar, in units of 2^-149.
    pub open spec fn units(self) -> int {
        if self.sign_bit() {
            -(self.magnitude() as int)
        } else {
            self.magnitude() as int
        }
    }

    /// One of the two zeros.
    pub open spec fn is_zero(self) -> bool {
        self.biased_exponent() == 0 && self.fraction() == 0
    }

    /// A finite value above zero.
    pub open spec fn spec_is_positive(self) -> bool {
        self.spec_is_finite() && !self.sign_bit() && self.significand() != 0
    }

    /// A finite value that is not below zero; both zeros count.
    pub open spec fn spec_is_non_negative(self) -> bool {
        self.spec_is_finite() && (!self.sign_bit() || self.significand() == 0)
    }

    /// A value below zero, negative infinity included.
    pub open spec fn spec_is_negative(self) -> bool {
        self.sign_bit() && !self.spec_is_nan() && self.significand() != 0
    }

    /// The scalar with a given encoding.
    pub fn from_bits(bits: u32) -> (r: Scalar)
        ensures
            r.bits == bits,
    {
        Scalar { bits }
    }

    /// The encoding of the scalar.
    pub fn to_bits(self) -> (r: u32)
        ensures
            r == self.bits,
    {
        self.bits
    }

    /// The significand, read out of the encoding.
    pub fn read_significand(self) -> (r: u32)
        ensures
            r == self.significand(),
            r < 0x100_0000,
    {
        let fraction: u32 = self.bits % 0x80_0000;
        if (self.bits / 0x80_0000) % 0x100 == 0 {
            fraction
        } else {
            0x80_0000 + fraction
        }
    }

    /// The scale, read out of the encoding.
    pub fn read_scale(self) -> (r: u32)
        ensures
            r == self.scale(),
            r <= 254,
    {
        let biased: u32 = (self.bits / 0x80_0000) % 0x100;
        if biased == 0 {
            0
        } else {
            biased - 1
        }
    }

    /// Whether the scalar is not a number.
    #[verifier::when_used_as_spec(spec_is_nan)]
    pub fn is_nan(self) -> (r: bool)
        ensures
            r == self.spec_is_nan(),
    {
        (self.bits / 0x80_0000) % 0x100 == 0xff && self.bits % 0x80_0000 != 0
    }

    /// Whether the scalar is a finite number.
    #[verifier::when_used_as_spec(spec_is_finite)]
    pub fn is_finite(self) -> (r: bool)
        ensures
            r == self.spec_is_finite(),
    {
        (self.bits / 0x80_0000) % 0x100 < 0xff
    }

    /// Whether the scalar is a finite number above zero.
    #[verifier::when_used_as_spec(spec_is_positive)]
    pub fn is_positive(self) -> (r: bool)
        ensures
            r == self.spec_is_positive(),
    {
        self.is_finite() && self.bits < 0x8000_0000 && self.read_significand() != 0
    }

    /// Whether the scalar is a finite number that is not below zero.
    #[verifier::when_used_as_spec(spec_is_non_negative)]
    pub fn is_non_negative(self) -> (r: bool)
        ensures
            r == self.spec_is_non_negative(),
    {
        self.is_finite() && (self.bits < 0x8000_0000 || self.read_significand() == 0)
    }

    /// Whether the scalar is below zero.
    #[verifier::when_used_as_spec(spec_is_negative)]
    pub fn is_negative(self) -> (r: bool)
        ensures
            r == self.spec_is_negative(),
    {
        self.bits >= 0x8000_0000 && !self.is_nan() && self.read_significand() != 0
    }
}

/// The magnitude of the number one, in units of 2^-149.
pub open spec fn unit() -> nat {
    pow2(149)
}

/// The encoding with a given sign, significand and scale.
pub open spec fn compose(negative: bool, significand: nat, scale: nat) -> Scalar {
    Scalar {
        bits: ((if negative {
            0x8000_0000
        } else {
            0int
        }) + scale * 0x80_0000 + significand) as u32,
    }
}

/// A significand below 2^24 that is full unless the scale is zero, and a
/// scale up to 253, compose a finite scalar that has them.
pub proof fn lemma_compose(negative: bool, significand: nat, scale: nat)
    requires
        significand < 0x100_0000,
        scale <= 253,
        scale == 0 || significand >= 0x80_0000,
    ensures
        compose(negative, significand, scale).is_finite(),
        compose(negative, significand, scale).sign_bit() == negative,
        compose(negative, significand, scale).significand() == significand,
        compose(negative, significand, scale).scale() == scale,
{
}

/// A finite scalar is the composition of its sign, significand and scale.
pub proof fn lemma_decompose(v: Scalar)
    requires
        v.is_finite(),
    ensures
        v == compose(v.sign_bit(), v.significand(), v.scale()),
        v.significand() < 0x100_0000,
        v.scale() <= 253,
        v.scale() == 0 || v.significand() >= 0x80_0000,
{
}

/// Finite scalars of equal magnitude have the same significand and scale,
/// and with the same sign they are the same scalar.
pub proof fn lemma_magnitude_determines(a: Scalar, b: Scalar)
    requires
        a.is_finite(),
        b.is_finite(),
        a.magnitude() == b.magnitude(),
    ensures
        a.significand() == b.significand(),
        a.scale() == b.scale(),
        a.sign_bit() == b.sign_bit() ==> a == b,
{
    lemma_decompose(a);
    lemma_decompose(b);
    let ma = a.significand() as int;
    let mb = b.significand() as int;
    let pa = pow2(a.scale()) as int;
    let pb = pow2(b.scale()) as int;
    lemma_pow2_pos(a.scale());
    lemma_pow2_pos(b.scale());
    if a.scale() < b.scale() {
        lemma_pow2_unfold(b.scale());
        if a.scale() < b.scale() - 1 {
            lemma_pow2_strictly_increases(a.scale(), (b.scale() - 1) as nat);
        }
        assert(ma * pa < mb * pb) by (nonlinear_arith)
            requires
                0 <= ma < 0x100_0000,
                mb >= 0x80_0000,
                0 < 2 * pa <= pb,
        ;
    } else if b.scale() < a.scale() {
        lemma_pow2_unfold(a.scale());
        if b.scale() < a.scale() - 1 {
            lemma_pow2_strictly_increases(b.scale(), (a.scale() - 1) as nat);
        }
        assert(mb * pb < ma * pa) by (nonlinear_arith)
            requires
                0 <= mb < 0x100_0000,
                ma >= 0x80_0000,
                0 < 2 * pb <= pa,
        ;
    } else {
        assert(ma == mb) by (nonlinear_arith)
            requires
                ma * pa == mb * pa,
                pa > 0,
        ;
    }
}

} // verus!
