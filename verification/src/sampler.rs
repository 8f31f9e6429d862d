//! The run: a burn-in that is thrown away, then the steps that are recorded.

use crate::quotient::quotient;
use crate::rounding::of_count;
use crate::scalar::Scalar;
use crate::step::{metropolis_hastings_step, observable, step_result};
use crate::step::{Observation, SamplingError, StepOutcome};
use vstd::prelude::*;

verus! {

/// What a run returns: the positions after each recorded step, in the order
/// in which the chain visited them, and how many of those steps accepted
/// their candidate.
#[derive(Debug, PartialEq, Eq)]
pub struct RunResult {
    pub trace: Vec<Scalar>,
    pub accepted_count: i32,
}

/// The share of the accepted steps among the recorded ones, as the
/// quotient of the two counts in single precision. A run without samples
/// has no such share; its rate is given as zero.
pub open spec fn acceptance_rate(accepted: nat, samples: nat) -> Scalar {
    if samples == 0 {
        Scalar { bits: 0 }
    } else {
        quotient(of_count(accepted), of_count(samples))
    }
}

impl RunResult {
    /// The count never exceeds the number of recorded steps, of which there
    /// are no more than a run can be asked for.
    pub open spec fn well_formed(self) -> bool {
        0 <= self.accepted_count <= self.trace@.len() <= i32::MAX
    }

    /// The acceptance rate of the run; zero for a run without samples.
    pub fn acceptance_rate(&self) -> (r: Scalar)
        requires
            self.well_formed(),
        ensures
            r == acceptance_rate(self.accepted_count as nat, self.trace@.len()),
    {
        if self.trace.len() == 0 {
            Scalar { bits: 0 }
        } else {
            let accepted = Scalar::from_count(self.accepted_count as u32);
            let samples = Scalar::from_count(self.trace.len() as u32);
            accepted.over(samples)
        }
    }
}

/// The state of a run after some of its steps.
pub struct Progress {
    pub position: Scalar,
    pub trace: Seq<Scalar>,
    pub accepted: nat,
}

/// A run that has taken no step yet.
pub open spec fn start(initial: Scalar) -> Progress {
    Progress { position: initial, trace: Seq::empty(), accepted: 0 }
}

/// The state after one more step. The chain moves in any case; the step is
/// written down only once `burn_in` steps lie behind.
pub open spec fn advance(burn_in: int, taken: int, before: Progress, outcome: StepOutcome) -> Progress {
    if taken < burn_in {
        Progress { position: outcome.position, ..before }
    } else {
        Progress {
            position: outcome.position,
            trace: before.trace.push(outcome.position),
            accepted: if outcome.accepted {
                before.accepted + 1
            } else {
                before.accepted
            },
        }
    }
}

/// The state of a run from `initial` after the steps whose observations
/// are `seen`, or the error of the first step that failed.
pub open spec fn progress<E>(burn_in: int, initial: Scalar, seen: Seq<Observation<E>>) -> Result<
    Progress,
    SamplingError<E>,
>
    decreases seen.len(),
{
    if seen.len() == 0 {
        Ok(start(initial))
    } else {
        match progress(burn_in, initial, seen.drop_last()) {
            Err(e) => Err(e),
            Ok(before) => match step_result(before.position, seen.last()) {
                Err(e) => Err(e),
                Ok(outcome) => Ok(advance(burn_in, seen.len() - 1, before, outcome)),
            },
        }
    }
}

/// Whether each of the observations is one that its step could make of the
/// collaborators, at the position that the chain had reached by then.
pub open spec fn witnessed<E, T, N, U>(
    target: &T,
    standard_normal: &N,
    uniform: &U,
    burn_in: int,
    initial: Scalar,
    seen: Seq<Observation<E>>,
) -> bool where
    T: Fn(Scalar) -> Scalar,
    N: Fn() -> Result<Scalar, E>,
    U: Fn() -> Result<Scalar, E>,
 {
    forall|i: int|
        #![trigger seen.take(i)]
        0 <= i < seen.len() ==> (progress(burn_in, initial, seen.take(i)) matches Ok(before)
            ==> observable(target, standard_normal, uniform, before.position, seen[i]))
}

/// Whether `r` is what a run returns whose steps observed `seen`.
///
/// Negative counts are refused before any step. A step that fails is the
/// last one taken, and its error is the run's. Otherwise the run takes
/// `burn_in + num_samples` steps and returns what the recorded ones left.
pub open spec fn run_outcome<E>(
    burn_in: i32,
    num_samples: i32,
    initial: Scalar,
    seen: Seq<Observation<E>>,
    r: Result<RunResult, SamplingError<E>>,
) -> bool {
    if burn_in < 0 || num_samples < 0 {
        seen.len() == 0 && r == Err::<RunResult, _>(SamplingError::<E>::ConfigurationError)
    } else {
        match progress(burn_in as int, initial, seen) {
            Ok(after) => {
                &&& seen.len() == burn_in + num_samples
                &&& r matches Ok(result)
                &&& result.trace@ == after.trace
                &&& result.accepted_count == after.accepted
            },
            Err(e) => {
                &&& 0 < seen.len() <= burn_in + num_samples
                &&& progress(burn_in as int, initial, seen.drop_last()) is Ok
                &&& r == Err::<RunResult, _>(e)
            },
        }
    }
}

/// One more observation, made where the chain stands, keeps a run witnessed.
proof fn lemma_witnessed_push<E, T, N, U>(
    target: &T,
    standard_normal: &N,
    uniform: &U,
    burn_in: int,
    initial: Scalar,
    seen: Seq<Observation<E>>,
    next: Observation<E>,
) where
    T: Fn(Scalar) -> Scalar,
    N: Fn() -> Result<Scalar, E>,
    U: Fn() -> Result<Scalar, E>,

    requires
        witnessed(target, standard_normal, uniform, burn_in, initial, seen),
        progress(burn_in, initial, seen) matches Ok(before) && observable(
            target,
            standard_normal,
            uniform,
            before.position,
            next,
        ),
    ensures
        witnessed(target, standard_normal, uniform, burn_in, initial, seen.push(next)),
        seen.push(next).drop_last() == seen,
        seen.push(next).last() == next,
{
    let longer = seen.push(next);
    assert(longer.drop_last() =~= seen);
    assert forall|i: int| 0 <= i < longer.len() implies (progress(
        burn_in,
        initial,
        #[trigger] longer.take(i),
    ) matches Ok(before) ==> observable(target, standard_normal, uniform, before.position, longer[i])) by {
        if i < seen.len() {
            assert(longer.take(i) =~= seen.take(i));
        } else {
            assert(longer.take(i) =~= seen);
        }
    }
}

/// Runs the sampler: `burn_in` steps from `initial` that leave no record,
/// then `num_samples` steps whose positions make up the trace.
///
/// A negative count is a `ConfigurationError`. The first step that fails
/// ends the run with its error, and nothing of the trace is returned.
pub fn metropolis_hastings<E, T, N, U>(
    burn_in: i32,
    num_samples: i32,
    initial: Scalar,
    target: &T,
    standard_normal: &N,
    uniform: &U,
) -> (r: Result<RunResult, SamplingError<E>>) where
    T: Fn(Scalar) -> Scalar,
    N: Fn() -> Result<Scalar, E>,
    U: Fn() -> Result<Scalar, E>,

    requires
        forall|x: Scalar| target.requires((x,)),
        standard_normal.requires(()),
        uniform.requires(()),
    ensures
        exists|seen: Seq<Observation<E>>|
            witnessed(target, standard_normal, uniform, burn_in as int, initial, seen) && run_outcome(
                burn_in,
                num_samples,
                initial,
                seen,
                r,
            ),
        r matches Ok(result) ==> result.trace@.len() == num_samples && result.well_formed(),
{
    let ghost mut seen: Seq<Observation<E>> = Seq::empty();
    if burn_in < 0 || num_samples < 0 {
        let r = Err(SamplingError::ConfigurationError);
        assert(witnessed(target, standard_normal, uniform, burn_in as int, initial, seen));
        assert(run_outcome(burn_in, num_samples, initial, seen, r));
        return r;
    }
    let mut position = initial;
    let mut warmed: i32 = 0;
    while warmed < burn_in
        invariant
            0 <= warmed <= burn_in,
            0 <= num_samples,
            seen.len() == warmed,
            witnessed(target, standard_normal, uniform, burn_in as int, initial, seen),
            progress(burn_in as int, initial, seen) == Ok::<_, SamplingError<E>>(
                Progress { position, trace: Seq::empty(), accepted: 0 },
            ),
            forall|x: Scalar| target.requires((x,)),
            standard_normal.requires(()),
            uniform.requires(()),
        decreases burn_in - warmed,
    {
        let step = metropolis_hastings_step(position, target, standard_normal, uniform);
        let ghost next = choose|next: Observation<E>|
            observable(target, standard_normal, uniform, position, next) && step == step_result(
                position,
                next,
            );
        proof {
            lemma_witnessed_push(target, standard_normal, uniform, burn_in as int, initial, seen, next);
            seen = seen.push(next);
        }
        match step {
            Err(e) => {
                let r = Err(e);
                assert(run_outcome(burn_in, num_samples, initial, seen, r));
                return r;
            },
            Ok(outcome) => {
                position = outcome.position;
            },
        }
        warmed = warmed + 1;
    }
    let mut trace: Vec<Scalar> = Vec::new();
    let mut accepted_count: i32 = 0;
    let mut recorded: i32 = 0;
    while recorded < num_samples
        invariant
            0 <= burn_in,
            0 <= recorded <= num_samples,
            seen.len() == burn_in + recorded,
            trace@.len() == recorded,
            0 <= accepted_count <= recorded,
            witnessed(target, standard_normal, uniform, burn_in as int, initial, seen),
            progress(burn_in as int, initial, seen) == Ok::<_, SamplingError<E>>(
                Progress { position, trace: trace@, accepted: accepted_count as nat },
            ),
            forall|x: Scalar| target.requires((x,)),
            standard_normal.requires(()),
            uniform.requires(()),
        decreases num_samples - recorded,
    {
        let step = metropolis_hastings_step(position, target, standard_normal, uniform);
        let ghost next = choose|next: Observation<E>|
            observable(target, standard_normal, uniform, position, next) && step == step_result(
                position,
                next,
            );
        proof {
            lemma_witnessed_push(target, standard_normal, uniform, burn_in as int, initial, seen, next);
            seen = seen.push(next);
        }
        match step {
            Err(e) => {
                let r = Err(e);
                assert(run_outcome(burn_in, num_samples, initial, seen, r));
                return r;
            },
            Ok(outcome) => {
                position = outcome.position;
                trace.push(position);
                if outcome.accepted {
                    accepted_count = accepted_count + 1;
                }
            },
        }
        recorded = recorded + 1;
    }
    let r = Ok(RunResult { trace, accepted_count });
    assert(run_outcome(burn_in, num_samples, initial, seen, r));
    r
}

} // verus!
