//! What holds of every run.

use crate::acceptance::{in_unit_interval, lemma_equal_densities_accept, lemma_zero_density_refuses};
use crate::sampler::{progress, run_outcome, witnessed, RunResult};
use crate::scalar::Scalar;
use crate::step::{density_check, Observation, SamplingError};
use crate::sum::sum;
use vstd::prelude::*;

verus! {

/// The number of steps that a run has recorded after `taken` steps.
pub open spec fn recorded_steps(burn_in: int, taken: int) -> int {
    if taken <= burn_in {
        0
    } else {
        taken - burn_in
    }
}

/// A run records nothing during the burn-in and one position for each step
/// after it, and it counts no more acceptances than it has recorded steps.
pub proof fn lemma_progress_counts<E>(burn_in: int, initial: Scalar, seen: Seq<Observation<E>>)
    requires
        0 <= burn_in,
    ensures
        progress(burn_in, initial, seen) matches Ok(after) ==> {
            &&& after.trace.len() == recorded_steps(burn_in, seen.len() as int)
            &&& after.accepted <= after.trace.len()
        },
    decreases seen.len(),
{
    if seen.len() > 0 {
        lemma_progress_counts(burn_in, initial, seen.drop_last());
    }
}

/// A run that is asked for no samples returns an empty trace and counts no
/// acceptance, whatever the burn-in.
pub proof fn lemma_no_samples<E>(
    burn_in: i32,
    initial: Scalar,
    seen: Seq<Observation<E>>,
    r: Result<RunResult, SamplingError<E>>,
)
    requires
        run_outcome(burn_in, 0, initial, seen, r),
    ensures
        r matches Ok(result) ==> result.trace@.len() == 0 && result.accepted_count == 0,
{
    if burn_in >= 0 {
        lemma_progress_counts(burn_in as int, initial, seen);
    }
}

/// The count of acceptances lies between zero and the number of samples,
/// and the trace holds one entry for each sample.
pub proof fn lemma_accepted_within_samples<E>(
    burn_in: i32,
    num_samples: i32,
    initial: Scalar,
    seen: Seq<Observation<E>>,
    r: Result<RunResult, SamplingError<E>>,
)
    requires
        run_outcome(burn_in, num_samples, initial, seen, r),
    ensures
        r matches Ok(result) ==> {
            &&& result.trace@.len() == num_samples
            &&& 0 <= result.accepted_count <= num_samples
        },
{
    if burn_in >= 0 && num_samples >= 0 {
        lemma_progress_counts(burn_in as int, initial, seen);
    }
}

/// Two runs with the same parameters whose steps observed the same things
/// end alike: with the same trace and count, or with the same error.
pub proof fn lemma_same_observations_same_run<E>(
    burn_in: i32,
    num_samples: i32,
    initial: Scalar,
    seen: Seq<Observation<E>>,
    first: Result<RunResult, SamplingError<E>>,
    second: Result<RunResult, SamplingError<E>>,
)
    requires
        run_outcome(burn_in, num_samples, initial, seen, first),
        run_outcome(burn_in, num_samples, initial, seen, second),
    ensures
        match first {
            Ok(a) => second matches Ok(b) && a.trace@ == b.trace@ && a.accepted_count
                == b.accepted_count,
            Err(e) => second == Err::<RunResult, _>(e),
        },
{
}

/// Whether something holds of every step that a run reached: of the
/// position at which the step began, and of what it observed.
pub open spec fn at_each_step<E>(
    burn_in: int,
    initial: Scalar,
    seen: Seq<Observation<E>>,
    holds: spec_fn(Scalar, Observation<E>) -> bool,
) -> bool {
    forall|i: int|
        #![trigger seen.take(i)]
        0 <= i < seen.len() ==> (progress(burn_in, initial, seen.take(i)) matches Ok(before)
            ==> holds(before.position, seen[i]))
}

/// What holds of every step holds of all but the last, and of the last.
proof fn lemma_all_but_last<E>(
    burn_in: int,
    initial: Scalar,
    seen: Seq<Observation<E>>,
    holds: spec_fn(Scalar, Observation<E>) -> bool,
)
    requires
        seen.len() > 0,
        at_each_step(burn_in, initial, seen, holds),
    ensures
        at_each_step(burn_in, initial, seen.drop_last(), holds),
        progress(burn_in, initial, seen.drop_last()) matches Ok(before) ==> holds(
            before.position,
            seen.last(),
        ),
{
    let shorter = seen.drop_last();
    assert forall|i: int| 0 <= i < shorter.len() implies (progress(
        burn_in,
        initial,
        #[trigger] shorter.take(i),
    ) matches Ok(before) ==> holds(before.position, shorter[i])) by {
        assert(shorter.take(i) =~= seen.take(i));
    }
    assert(seen.take(seen.len() - 1) =~= shorter);
}

/// Whether a step observed the densities that a function of the position
/// gives: at the point where the chain stood, and at the candidate, which
/// is that point plus the normal draw.
pub open spec fn follows<E>(
    density: spec_fn(Scalar) -> Scalar,
    current: Scalar,
    step: Observation<E>,
) -> bool {
    &&& step.density_current == density(current)
    &&& step.displacement matches Ok(displacement) ==> step.density_candidate == density(
        sum(current, displacement),
    )
}

/// Whether the random source kept its word at a step: it handed out a
/// normal draw and, where the densities passed their check, a uniform draw
/// from the half-open unit interval.
pub open spec fn sound<E>(step: Observation<E>) -> bool {
    &&& step.displacement is Ok
    &&& density_check::<E>(step.density_current, step.density_candidate) is Ok ==> (
    step.uniform matches Ok(draw) && in_unit_interval(draw))
}

/// Whether the normal draw of a step is large enough for the candidate to
/// differ from the current position.
pub open spec fn displaces<E>(current: Scalar, step: Observation<E>) -> bool {
    step.displacement matches Ok(displacement) ==> sum(current, displacement) != current
}

/// A step with sound draws under a given density.
pub open spec fn sound_step<E>(density: spec_fn(Scalar) -> Scalar) -> spec_fn(
    Scalar,
    Observation<E>,
) -> bool {
    |current: Scalar, step: Observation<E>| follows(density, current, step) && sound(step)
}

/// A step with sound draws under a given density whose candidate differs
/// from the current position.
pub open spec fn displacing_step<E>(density: spec_fn(Scalar) -> Scalar) -> spec_fn(
    Scalar,
    Observation<E>,
) -> bool {
    |current: Scalar, step: Observation<E>|
        follows(density, current, step) && sound(step) && displaces(current, step)
}

/// Along a chain whose observed densities are all the same positive value,
/// and whose draws are sound, every step succeeds and every recorded step
/// accepts its candidate.
pub proof fn lemma_constant_density_accepts_all<E>(
    density: spec_fn(Scalar) -> Scalar,
    level: Scalar,
    burn_in: int,
    initial: Scalar,
    seen: Seq<Observation<E>>,
)
    requires
        0 <= burn_in,
        level.is_positive(),
        forall|x: Scalar| #[trigger] density(x) == level,
        at_each_step(burn_in, initial, seen, sound_step(density)),
    ensures
        progress(burn_in, initial, seen) matches Ok(after) && after.accepted
            == recorded_steps(burn_in, seen.len() as int) && after.trace.len() == after.accepted,
    decreases seen.len(),
{
    if seen.len() > 0 {
        lemma_all_but_last(burn_in, initial, seen, sound_step(density));
        lemma_constant_density_accepts_all(density, level, burn_in, initial, seen.drop_last());
        lemma_equal_densities_accept(seen.last().uniform->Ok_0, level);
    }
}

/// Along a chain whose observed densities are those of a function that is
/// positive at the starting point and zero everywhere else, whose draws are
/// sound, and whose candidates all differ from the position they start
/// from, every step succeeds, none accepts, and the chain never leaves the
/// starting point.
pub proof fn lemma_spike_density_rejects_all<E>(
    density: spec_fn(Scalar) -> Scalar,
    burn_in: int,
    initial: Scalar,
    seen: Seq<Observation<E>>,
)
    requires
        0 <= burn_in,
        density(initial).is_positive(),
        forall|x: Scalar| x != initial ==> (#[trigger] density(x)).is_zero(),
        at_each_step(burn_in, initial, seen, displacing_step(density)),
    ensures
        progress(burn_in, initial, seen) matches Ok(after) && {
            &&& after.position == initial
            &&& after.accepted == 0
            &&& after.trace.len() == recorded_steps(burn_in, seen.len() as int)
            &&& forall|j: int| 0 <= j < after.trace.len() ==> after.trace[j] == initial
        },
    decreases seen.len(),
{
    if seen.len() > 0 {
        lemma_all_but_last(burn_in, initial, seen, displacing_step(density));
        lemma_spike_density_rejects_all(density, burn_in, initial, seen.drop_last());
        let last = seen.last();
        lemma_zero_density_refuses(
            last.uniform->Ok_0,
            last.density_current,
            last.density_candidate,
        );
    }
}

/// Whether a target, as a function value, computes a given density.
pub open spec fn computes<T: Fn(Scalar) -> Scalar>(
    target: &T,
    density: spec_fn(Scalar) -> Scalar,
) -> bool {
    forall|x: Scalar, y: Scalar| target.ensures((x,), y) ==> y == density(x)
}

/// Whether a random source never fails and draws its uniform values from
/// the half-open unit interval.
pub open spec fn reliable<E, N, U>(standard_normal: &N, uniform: &U) -> bool where
    N: Fn() -> Result<Scalar, E>,
    U: Fn() -> Result<Scalar, E>,
 {
    &&& forall|z: Result<Scalar, E>| standard_normal.ensures((), z) ==> z is Ok
    &&& forall|u: Result<Scalar, E>|
        uniform.ensures((), u) ==> (u matches Ok(draw) && in_unit_interval(draw))
}

/// For a target density that is the same positive value everywhere, and a
/// reliable random source, a run succeeds and every one of its samples is
/// an accepted candidate: the count of acceptances is the number of
/// samples.
pub proof fn lemma_constant_target_accepts_all<E, T, N, U>(
    target: &T,
    standard_normal: &N,
    uniform: &U,
    level: Scalar,
    burn_in: i32,
    num_samples: i32,
    initial: Scalar,
    seen: Seq<Observation<E>>,
    r: Result<RunResult, SamplingError<E>>,
) where
    T: Fn(Scalar) -> Scalar,
    N: Fn() -> Result<Scalar, E>,
    U: Fn() -> Result<Scalar, E>,

    requires
        0 <= burn_in,
        0 <= num_samples,
        level.is_positive(),
        computes(target, |x: Scalar| level),
        reliable(standard_normal, uniform),
        witnessed(target, standard_normal, uniform, burn_in as int, initial, seen),
        run_outcome(burn_in, num_samples, initial, seen, r),
    ensures
        r matches Ok(result) && result.accepted_count == num_samples && result.trace@.len()
            == num_samples,
{
    let density = |x: Scalar| level;
    assert(at_each_step(burn_in as int, initial, seen, sound_step(density)));
    lemma_constant_density_accepts_all(density, level, burn_in as int, initial, seen);
}

/// For a target density that is positive at the starting point and zero
/// everywhere else, and a reliable random source none of whose normal draws
/// is so small that the starting point plus the draw is the starting point
/// again, a run succeeds, accepts nothing, and every entry of its trace is
/// the starting point.
pub proof fn lemma_spike_target_rejects_all<E, T, N, U>(
    target: &T,
    standard_normal: &N,
    uniform: &U,
    density: spec_fn(Scalar) -> Scalar,
    burn_in: i32,
    num_samples: i32,
    initial: Scalar,
    seen: Seq<Observation<E>>,
    r: Result<RunResult, SamplingError<E>>,
) where
    T: Fn(Scalar) -> Scalar,
    N: Fn() -> Result<Scalar, E>,
    U: Fn() -> Result<Scalar, E>,

    requires
        0 <= burn_in,
        0 <= num_samples,
        density(initial).is_positive(),
        forall|x: Scalar| x != initial ==> (#[trigger] density(x)).is_zero(),
        computes(target, density),
        reliable(standard_normal, uniform),
        forall|z: Result<Scalar, E>|
            standard_normal.ensures((), z) ==> (z matches Ok(displacement) ==> sum(
                initial,
                displacement,
            ) != initial),
        witnessed(target, standard_normal, uniform, burn_in as int, initial, seen),
        run_outcome(burn_in, num_samples, initial, seen, r),
    ensures
        r matches Ok(result) && {
            &&& result.accepted_count == 0
            &&& result.trace@.len() == num_samples
            &&& forall|j: int| 0 <= j < result.trace@.len() ==> result.trace@[j] == initial
        },
{
    lemma_never_left(target, standard_normal, uniform, density, burn_in as int, initial, seen);
    lemma_spike_density_rejects_all(density, burn_in as int, initial, seen);
}

/// Under the spike of `lemma_spike_target_rejects_all`, every step that a
/// run reached began at the starting point, so that its candidate differed
/// from it.
proof fn lemma_never_left<E, T, N, U>(
    target: &T,
    standard_normal: &N,
    uniform: &U,
    density: spec_fn(Scalar) -> Scalar,
    burn_in: int,
    initial: Scalar,
    seen: Seq<Observation<E>>,
) where
    T: Fn(Scalar) -> Scalar,
    N: Fn() -> Result<Scalar, E>,
    U: Fn() -> Result<Scalar, E>,

    requires
        0 <= burn_in,
        density(initial).is_positive(),
        forall|x: Scalar| x != initial ==> (#[trigger] density(x)).is_zero(),
        computes(target, density),
        reliable(standard_normal, uniform),
        forall|z: Result<Scalar, E>|
            standard_normal.ensures((), z) ==> (z matches Ok(displacement) ==> sum(
                initial,
                displacement,
            ) != initial),
        witnessed(target, standard_normal, uniform, burn_in, initial, seen),
    ensures
        at_each_step(burn_in, initial, seen, displacing_step(density)),
    decreases seen.len(),
{
    if seen.len() > 0 {
        let shorter = seen.drop_last();
        assert(witnessed(target, standard_normal, uniform, burn_in, initial, shorter)) by {
            assert forall|i: int| 0 <= i < shorter.len() implies (progress(
                burn_in,
                initial,
                #[trigger] shorter.take(i),
            ) matches Ok(before) ==> crate::step::observable(
                target,
                standard_normal,
                uniform,
                before.position,
                shorter[i],
            )) by {
                assert(shorter.take(i) =~= seen.take(i));
            }
        }
        lemma_never_left(target, standard_normal, uniform, density, burn_in, initial, shorter);
        lemma_spike_density_rejects_all(density, burn_in, initial, shorter);
        assert forall|i: int| 0 <= i < seen.len() implies (progress(
            burn_in,
            initial,
            #[trigger] seen.take(i),
        ) matches Ok(before) ==> displacing_step(density)(before.position, seen[i])) by {
            if i < shorter.len() {
                assert(shorter.take(i) =~= seen.take(i));
            } else {
                assert(seen.take(i) =~= shorter);
            }
        }
    }
}

} // verus!
