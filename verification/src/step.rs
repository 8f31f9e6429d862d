//! One step of the chain: propose by a Gaussian random walk, weigh the
//! densities, accept or stay.

use crate::acceptance::{accept, accepts};
use crate::scalar::Scalar;
use crate::sum::sum;
use vstd::prelude::*;

verus! {

/// Where the chain stands after a step, and whether it got there by
/// accepting the candidate.
#[derive(Clone, Copy, Debug, PartialEq, Eq)]
pub struct StepOutcome {
    pub position: Scalar,
    pub accepted: bool,
}

/// Why a step, and with it the run, was given up.
#[derive(Debug, PartialEq, Eq)]
pub enum SamplingError<E> {
    /// The target density at the current position is not a finite value
    /// above zero, so that no acceptance ratio exists.
    DomainError,
    /// A count is negative, or the target returned at the candidate what is
    /// no density: a value below zero, an infinity, or not a number.
    ConfigurationError,
    /// The random source failed. Its own error is carried unchanged.
    RandomSourceFailure(E),
}

/// What a step learns from its collaborators: the standard normal draw by
/// which it displaces the chain, the target density at the current position
/// and at the candidate, and the uniform draw.
pub struct Observation<E> {
    pub displacement: Result<Scalar, E>,
    pub density_current: Scalar,
    pub density_candidate: Scalar,
    pub uniform: Result<Scalar, E>,
}

/// The fault, if any, in the two densities that a step compares.
pub open spec fn density_check<E>(density_current: Scalar, density_candidate: Scalar) -> Result<
    (),
    SamplingError<E>,
> {
    if !density_current.is_positive() {
        Err(SamplingError::DomainError)
    } else if !density_candidate.is_non_negative() {
        Err(SamplingError::ConfigurationError)
    } else {
        Ok(())
    }
}

/// The outcome of a step that has reached its decision.
pub open spec fn settle(current: Scalar, candidate: Scalar, accepted: bool) -> StepOutcome {
    if accepted {
        StepOutcome { position: candidate, accepted: true }
    } else {
        StepOutcome { position: current, accepted: false }
    }
}

/// What a step at `current` returns, given what it observed.
///
/// The candidate is the current position plus the normal draw. A failed
/// draw ends the step with the source's error. Otherwise the densities are
/// checked, the one at the current position first, and only then does the
/// uniform draw decide.
pub open spec fn step_result<E>(current: Scalar, seen: Observation<E>) -> Result<
    StepOutcome,
    SamplingError<E>,
> {
    match seen.displacement {
        Err(e) => Err(SamplingError::RandomSourceFailure(e)),
        Ok(displacement) => match density_check::<E>(seen.density_current, seen.density_candidate) {
            Err(e) => Err(e),
            Ok(_) => match seen.uniform {
                Err(e) => Err(SamplingError::RandomSourceFailure(e)),
                Ok(u) => Ok(
                    settle(
                        current,
                        sum(current, displacement),
                        accepts(u, seen.density_current, seen.density_candidate),
                    ),
                ),
            },
        },
    }
}

/// Whether `seen` is something that a step at `current` can observe of the
/// given collaborators. The densities are asked for once a candidate is
/// there, and the uniform draw once the densities have passed their check.
pub open spec fn observable<E, T, N, U>(
    target: &T,
    standard_normal: &N,
    uniform: &U,
    current: Scalar,
    seen: Observation<E>,
) -> bool where
    T: Fn(Scalar) -> Scalar,
    N: Fn() -> Result<Scalar, E>,
    U: Fn() -> Result<Scalar, E>,
 {
    &&& standard_normal.ensures((), seen.displacement)
    &&& seen.displacement matches Ok(displacement) ==> {
        &&& target.ensures((current,), seen.density_current)
        &&& target.ensures((sum(current, displacement),), seen.density_candidate)
        &&& density_check::<E>(seen.density_current, seen.density_candidate) is Ok
            ==> uniform.ensures((), seen.uniform)
    }
}

/// Checks the two densities that a step compares.
pub fn check_densities<E>(density_current: Scalar, density_candidate: Scalar) -> (r: Result<
    (),
    SamplingError<E>,
>)
    ensures
        r == density_check::<E>(density_current, density_candidate),
{
    if !density_current.is_positive() {
        Err(SamplingError::DomainError)
    } else if !density_candidate.is_non_negative() {
        Err(SamplingError::ConfigurationError)
    } else {
        Ok(())
    }
}

/// Takes one Metropolis step from `current`.
///
/// `standard_normal` draws from the normal distribution of mean zero and
/// variance one, `target` gives the density at a point, and `uniform` draws
/// from the half-open unit interval. The candidate is the current position
/// plus the normal draw, and it is accepted when the uniform draw lies below
/// `min(1, target(candidate) / target(current))`.
pub fn metropolis_hastings_step<E, T, N, U>(
    current: Scalar,
    target: &T,
    standard_normal: &N,
    uniform: &U,
) -> (r: Result<StepOutcome, SamplingError<E>>) where
    T: Fn(Scalar) -> Scalar,
    N: Fn() -> Result<Scalar, E>,
    U: Fn() -> Result<Scalar, E>,

    requires
        forall|x: Scalar| target.requires((x,)),
        standard_normal.requires(()),
        uniform.requires(()),
    ensures
        exists|seen: Observation<E>|
            observable(target, standard_normal, uniform, current, seen) && r == step_result(
                current,
                seen,
            ),
{
    let drawn = standard_normal();
    let candidate = match drawn {
        Ok(displacement) => current.plus(displacement),
        Err(e) => {
            proof {
                let seen = Observation {
                    displacement: drawn,
                    density_current: current,
                    density_candidate: current,
                    uniform: drawn,
                };
                assert(observable(target, standard_normal, uniform, current, seen));
                assert(step_result(current, seen) == Err::<StepOutcome, _>(
                    SamplingError::RandomSourceFailure(e),
                ));
            }
            return Err(SamplingError::RandomSourceFailure(e));
        },
    };
    let density_current = target(current);
    let density_candidate = target(candidate);
    match check_densities::<E>(density_current, density_candidate) {
        Ok(_) => {},
        Err(e) => {
            proof {
                let seen = Observation {
                    displacement: drawn,
                    density_current,
                    density_candidate,
                    uniform: drawn,
                };
                assert(observable(target, standard_normal, uniform, current, seen));
                assert(step_result(current, seen) == Err::<StepOutcome, _>(e));
            }
            return Err(e);
        },
    }
    let level = uniform();
    let ghost seen = Observation {
        displacement: drawn,
        density_current,
        density_candidate,
        uniform: level,
    };
    assert(observable(target, standard_normal, uniform, current, seen));
    match level {
        Err(e) => {
            assert(step_result(current, seen) == Err::<StepOutcome, _>(
                SamplingError::RandomSourceFailure(e),
            ));
            Err(SamplingError::RandomSourceFailure(e))
        },
        Ok(u) => {
            let outcome = if accept(u, density_current, density_candidate) {
                StepOutcome { position: candidate, accepted: true }
            } else {
                StepOutcome { position: current, accepted: false }
            };
            assert(step_result(current, seen) == Ok::<_, SamplingError<E>>(outcome));
            Ok(outcome)
        },
    }
}

} // verus!
