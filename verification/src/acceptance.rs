//! The acceptance rule of a Metropolis step.

use crate::order::{lemma_signs, less, minimum};
use crate::quotient::{lemma_quotient_unique, quotient};
use crate::rounding::{lemma_nearest_in_bracket, lemma_zero_is_nearest, overflow_bound};
use crate::scalar::{unit, Scalar};
use vstd::arithmetic::power2::*;
use vstd::prelude::*;

verus! {

/// The number one.
pub open spec fn one() -> Scalar {
    Scalar { bits: 0x3f80_0000 }
}

/// Whether a uniform draw accepts a move from a point of density
/// `density_current` to one of density `density_candidate`: whether it is
/// less than the acceptance probability, which is the lesser of the ratio
/// of the two densities and one. The ratio, the lesser and the comparison
/// are those of single precision.
pub open spec fn accepts(uniform: Scalar, density_current: Scalar, density_candidate: Scalar) -> bool {
    less(uniform, minimum(quotient(density_candidate, density_current), one()))
}

/// A value of the half-open interval from zero to one, which is where a
/// uniform draw lies.
pub open spec fn in_unit_interval(draw: Scalar) -> bool {
    draw.is_non_negative() && draw.magnitude() < unit()
}

/// One is the finite scalar whose value is the unit.
pub proof fn lemma_one()
    ensures
        one().is_finite(),
        !one().sign_bit(),
        one().significand() == 0x80_0000,
        one().scale() == 126,
        one().units() == unit(),
{
    lemma2_to64();
    lemma_pow2_adds(23, 126);
}

/// A density above zero, divided by itself, is one.
pub proof fn lemma_ratio_of_equals(density: Scalar)
    requires
        density.is_positive(),
    ensures
        quotient(density, density) == one(),
{
    lemma_one();
    lemma_signs(density);
    let d = density.magnitude() as int;
    let x = (unit() * density.magnitude()) as int;
    let step = pow2(126) * d;
    lemma_pow2_pos(126);
    lemma_pow2_pos(252);
    lemma_pow2_strictly_increases(149, 252);
    assert(0x80_0000 * pow2(126) * d == x && (0x80_0000 + 1) * pow2(126) * d == x + step && step
        > 0 && 0 < x < overflow_bound() * d) by (nonlinear_arith)
        requires
            x == unit() * d,
            unit() == 0x80_0000 * pow2(126),
            step == pow2(126) * d,
            pow2(126) > 0,
            d > 0,
            overflow_bound() == 0x1ff_ffff * pow2(252),
            pow2(252) > unit(),
    ;
    lemma_nearest_in_bracket(x, d, one(), 0x80_0000, 126);
    lemma_quotient_unique(density, density, one());
}

/// Zero, divided by a density above zero, is zero.
pub proof fn lemma_ratio_of_zero(numerator: Scalar, denominator: Scalar)
    requires
        numerator.is_zero(),
        denominator.is_positive(),
    ensures
        quotient(numerator, denominator) == numerator,
{
    lemma_signs(denominator);
    lemma_signs(numerator);
    let d = denominator.magnitude() as int;
    lemma_zero_is_nearest(d, numerator);
    lemma_pow2_pos(252);
    assert(unit() * numerator.magnitude() == 0 && overflow_bound() * d > 0) by (nonlinear_arith)
        requires
            numerator.magnitude() == 0,
            overflow_bound() == 0x1ff_ffff * pow2(252),
            pow2(252) > 0,
            d > 0,
    ;
    lemma_quotient_unique(numerator, denominator, numerator);
}

/// Between two points of equal density every draw from the unit interval
/// accepts: the acceptance probability is one.
pub proof fn lemma_equal_densities_accept(draw: Scalar, density: Scalar)
    requires
        in_unit_interval(draw),
        density.is_positive(),
    ensures
        accepts(draw, density, density),
{
    lemma_ratio_of_equals(density);
    lemma_one();
    lemma_signs(draw);
}

/// Towards a point of density zero no draw from the unit interval accepts:
/// the acceptance probability is zero.
pub proof fn lemma_zero_density_refuses(draw: Scalar, density_current: Scalar, density_candidate: Scalar)
    requires
        in_unit_interval(draw),
        density_current.is_positive(),
        density_candidate.is_zero(),
    ensures
        !accepts(draw, density_current, density_candidate),
{
    lemma_ratio_of_zero(density_candidate, density_current);
    lemma_one();
    lemma_signs(draw);
    lemma_signs(density_candidate);
}

/// Decides whether a uniform draw accepts a move from a point of density
/// `density_current` to one of density `density_candidate`.
pub fn accept(uniform: Scalar, density_current: Scalar, density_candidate: Scalar) -> (r: bool)
    ensures
        r == accepts(uniform, density_current, density_candidate),
{
    let ratio = density_candidate.over(density_current);
    let probability = ratio.min(Scalar { bits: 0x3f80_0000 });
    uniform.less_than(probability)
}

} // verus!
