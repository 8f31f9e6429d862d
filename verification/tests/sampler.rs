use metropolis::sampler::{metropolis_hastings, RunResult};
use metropolis::scalar::Scalar;
use metropolis::step::SamplingError;
use rand::rngs::StdRng;
use rand::{Rng, SeedableRng};
use rand_distr::{Distribution, Normal, NormalError};
use std::cell::{Cell, RefCell};

fn scalar(x: f32) -> Scalar {
    Scalar::from_bits(x.to_bits())
}

fn value(x: Scalar) -> f32 {
    f32::from_bits(x.to_bits())
}

fn gaussian(x: Scalar) -> Scalar {
    let x = value(x);
    scalar((-x * x).exp())
}

fn flat(_: Scalar) -> Scalar {
    scalar(1.0)
}

/// Runs the sampler with the draws of a generator seeded with `seed`.
fn seeded_run(
    seed: u64,
    burn_in: i32,
    num_samples: i32,
    initial: f32,
    target: &dyn Fn(Scalar) -> Scalar,
) -> Result<RunResult, SamplingError<NormalError>> {
    let rng = RefCell::new(StdRng::seed_from_u64(seed));
    let standard_normal = || {
        let normal: Normal<f32> = Normal::new(0.0, 1.0)?;
        Ok(scalar(normal.sample(&mut *rng.borrow_mut())))
    };
    let uniform = || Ok(scalar(rng.borrow_mut().gen_range(0.0f32..1.0)));
    metropolis_hastings(burn_in, num_samples, scalar(initial), &target, &standard_normal, &uniform)
}

/// Runs the sampler with the draws written out beforehand, step by step.
fn scripted_run(
    burn_in: i32,
    num_samples: i32,
    initial: f32,
    target: &dyn Fn(Scalar) -> Scalar,
    normals: &[f32],
    uniforms: &[f32],
) -> Result<RunResult, SamplingError<&'static str>> {
    let next_normal = Cell::new(0);
    let next_uniform = Cell::new(0);
    let standard_normal = || {
        let i = next_normal.get();
        next_normal.set(i + 1);
        normals.get(i).map(|x| scalar(*x)).ok_or("out of normal draws")
    };
    let uniform = || {
        let i = next_uniform.get();
        next_uniform.set(i + 1);
        uniforms.get(i).map(|x| scalar(*x)).ok_or("out of uniform draws")
    };
    metropolis_hastings(burn_in, num_samples, scalar(initial), &target, &standard_normal, &uniform)
}

fn values(result: &RunResult) -> Vec<f32> {
    result.trace.iter().map(|x| value(*x)).collect()
}

#[test]
fn no_samples_give_an_empty_trace_whatever_the_burn_in() {
    for burn_in in [0, 1, 10, 500] {
        let result = seeded_run(7, burn_in, 0, 0.0, &gaussian).unwrap();
        assert!(result.trace.is_empty());
        assert_eq!(result.accepted_count, 0);
    }
}

#[test]
fn no_steps_at_all_need_no_support() {
    // With nothing to do, the density at the starting point is never asked.
    let nowhere = |_: Scalar| scalar(0.0);
    let result = seeded_run(7, 0, 0, 0.0, &nowhere).unwrap();
    assert!(result.trace.is_empty());
    assert_eq!(result.accepted_count, 0);
}

#[test]
fn one_sample_without_burn_in_gives_a_trace_of_one() {
    let result = seeded_run(11, 0, 1, 0.0, &gaussian).unwrap();
    assert_eq!(result.trace.len(), 1);
    assert!(result.accepted_count == 0 || result.accepted_count == 1);
}

#[test]
fn negative_counts_are_a_configuration_error() {
    let calls = Cell::new(0);
    let counting = |x: Scalar| {
        calls.set(calls.get() + 1);
        gaussian(x)
    };
    assert_eq!(seeded_run(1, -1, 10, 0.0, &counting), Err(SamplingError::ConfigurationError));
    assert_eq!(seeded_run(1, 10, -1, 0.0, &counting), Err(SamplingError::ConfigurationError));
    assert_eq!(seeded_run(1, -5, -5, 0.0, &counting), Err(SamplingError::ConfigurationError));
    assert_eq!(
        seeded_run(1, i32::MIN, 0, 0.0, &counting),
        Err(SamplingError::ConfigurationError)
    );
    assert_eq!(calls.get(), 0);
}

#[test]
fn accepted_count_lies_within_the_number_of_samples() {
    for seed in 0..20 {
        let num_samples = 50 + 13 * seed as i32;
        let result = seeded_run(seed, 5, num_samples, 0.0, &gaussian).unwrap();
        assert_eq!(result.trace.len(), num_samples as usize);
        assert!(0 <= result.accepted_count && result.accepted_count <= num_samples);
    }
}

#[test]
fn constant_target_accepts_every_step() {
    for seed in 0..5 {
        let result = seeded_run(seed, 20, 300, 0.5, &flat).unwrap();
        assert_eq!(result.accepted_count, 300);
        assert_eq!(result.trace.len(), 300);
    }
}

#[test]
fn constant_target_trace_is_the_random_walk() {
    let normals = [0.5f32, -1.25, 2.0, 0.1, 0.2];
    let uniforms = [0.9f32, 0.0, 0.5, 0.99999994, 0.3];
    let result = scripted_run(2, 3, 1.0, &flat, &normals, &uniforms).unwrap();
    assert_eq!(result.accepted_count, 3);
    let after_burn_in = 1.0f32 + 0.5 + -1.25;
    let first = after_burn_in + 2.0;
    let second = first + 0.1;
    let third = second + 0.2;
    assert_eq!(values(&result), vec![first, second, third]);
}

#[test]
fn spike_target_rejects_every_step() {
    let initial = 0.75f32;
    let spike = move |x: Scalar| if value(x) == initial { scalar(4.0) } else { scalar(0.0) };
    for seed in 0..5 {
        let result = seeded_run(seed, 10, 200, initial, &spike).unwrap();
        assert_eq!(result.accepted_count, 0);
        assert_eq!(result.trace.len(), 200);
        assert!(result.trace.iter().all(|x| *x == scalar(initial)));
    }
}

#[test]
fn spike_target_accepts_a_draw_that_leaves_the_chain_in_place() {
    // A normal draw that the addition absorbs proposes the starting point
    // itself, where the density is that of the starting point.
    let initial = 0.75f32;
    let spike = move |x: Scalar| if value(x) == initial { scalar(4.0) } else { scalar(0.0) };
    let result =
        scripted_run(0, 3, initial, &spike, &[1.0, 0.0, 1.0e-20], &[0.5, 0.5, 0.5]).unwrap();
    assert_eq!(result.accepted_count, 2);
    assert_eq!(values(&result), vec![initial, initial, initial]);
}

#[test]
fn same_seed_gives_the_same_run() {
    let first = seeded_run(2024, 100, 1000, 0.0, &gaussian).unwrap();
    let second = seeded_run(2024, 100, 1000, 0.0, &gaussian).unwrap();
    assert_eq!(first, second);
    let bits_first: Vec<u32> = first.trace.iter().map(|x| x.to_bits()).collect();
    let bits_second: Vec<u32> = second.trace.iter().map(|x| x.to_bits()).collect();
    assert_eq!(bits_first, bits_second);
    assert_eq!(first.accepted_count, second.accepted_count);
    let other = seeded_run(2025, 100, 1000, 0.0, &gaussian).unwrap();
    assert_ne!(first, other);
}

#[test]
fn gaussian_target_scenario() {
    let result = seeded_run(42, 1000, 5000, 0.0, &gaussian).unwrap();
    assert_eq!(result.trace.len(), 5000);
    let rate = result.accepted_count as f64 / 5000.0;
    assert!(0.3 <= rate && rate <= 0.8, "acceptance rate {}", rate);
    let mean = values(&result).iter().map(|x| *x as f64).sum::<f64>() / 5000.0;
    assert!(mean.abs() <= 0.1, "mean {}", mean);
}

#[test]
fn negated_proposal_keeps_the_acceptance_rate() {
    let run = |seed: u64, sign: f32| {
        let rng = RefCell::new(StdRng::seed_from_u64(seed));
        let standard_normal = || -> Result<Scalar, NormalError> {
            let normal: Normal<f32> = Normal::new(0.0, 1.0)?;
            Ok(scalar(sign * normal.sample(&mut *rng.borrow_mut())))
        };
        let uniform = || Ok(scalar(rng.borrow_mut().gen_range(0.0f32..1.0)));
        metropolis_hastings(500, 20_000, scalar(0.0), &gaussian, &standard_normal, &uniform)
            .unwrap()
    };
    let plain = run(99, 1.0).accepted_count as f64 / 20_000.0;
    let negated = run(99, -1.0).accepted_count as f64 / 20_000.0;
    assert!((plain - negated).abs() < 0.03, "{} against {}", plain, negated);
    let other = run(100, -1.0).accepted_count as f64 / 20_000.0;
    assert!((plain - other).abs() < 0.03, "{} against {}", plain, other);
}

#[test]
fn trace_follows_the_accept_and_reject_decisions() {
    // Density exp(-x^2) from 0: the ratios are exp(-0.25), then
    // exp(-1) / exp(-0.25), then exp(-0.0625) / exp(-0.25) > 1.
    let normals = [0.5f32, 0.5, -0.25];
    let uniforms = [0.7f32, 0.6, 0.999];
    let result = scripted_run(0, 3, 0.0, &gaussian, &normals, &uniforms).unwrap();
    assert_eq!(values(&result), vec![0.5, 0.5, 0.25]);
    assert_eq!(result.accepted_count, 2);
}

#[test]
fn burn_in_moves_the_chain_and_leaves_no_record() {
    let normals = [0.5f32, 0.5, -0.25, 0.125, 1.0];
    let uniforms = [0.7f32, 0.6, 0.999, 0.1, 0.9];
    let whole = scripted_run(0, 5, 0.0, &gaussian, &normals, &uniforms).unwrap();
    for burn_in in 0..=5 {
        let tail = scripted_run(burn_in, 5 - burn_in, 0.0, &gaussian, &normals, &uniforms).unwrap();
        assert_eq!(tail.trace[..], whole.trace[burn_in as usize..]);
    }
    // The acceptances of the burn-in are not counted.
    let tail = scripted_run(1, 4, 0.0, &gaussian, &normals, &uniforms).unwrap();
    assert_eq!(whole.accepted_count, 3);
    assert_eq!(tail.accepted_count, 2);
}

#[test]
fn run_takes_burn_in_plus_samples_steps() {
    let normal_calls = Cell::new(0);
    let uniform_calls = Cell::new(0);
    let target_calls = Cell::new(0);
    let result: Result<RunResult, SamplingError<()>> = metropolis_hastings(
        7,
        5,
        scalar(0.0),
        &|x| {
            target_calls.set(target_calls.get() + 1);
            gaussian(x)
        },
        &|| {
            normal_calls.set(normal_calls.get() + 1);
            Ok(scalar(0.25))
        },
        &|| {
            uniform_calls.set(uniform_calls.get() + 1);
            Ok(scalar(0.5))
        },
    );
    assert_eq!(result.unwrap().trace.len(), 5);
    assert_eq!(normal_calls.get(), 12);
    assert_eq!(uniform_calls.get(), 12);
    assert_eq!(target_calls.get(), 24);
}

#[test]
fn run_outside_the_support_fails_with_domain_error() {
    let half_line = |x: Scalar| if value(x) >= 0.0 { gaussian(x) } else { scalar(0.0) };
    assert_eq!(seeded_run(3, 10, 10, -1.0, &half_line), Err(SamplingError::DomainError));
    assert_eq!(seeded_run(3, 0, 1, -1.0, &half_line), Err(SamplingError::DomainError));
    assert_eq!(seeded_run(3, 1, 0, -1.0, &half_line), Err(SamplingError::DomainError));
    // Within the support the same target runs through.
    let result = seeded_run(3, 10, 200, 1.0, &half_line).unwrap();
    assert!(values(&result).iter().all(|x| *x >= 0.0));
}

#[test]
fn run_with_a_negative_density_fails_with_configuration_error() {
    let signed = |x: Scalar| scalar(1.0 - value(x).abs());
    // From 0 the first candidate is 3, where the target is below zero.
    let r = scripted_run(0, 5, 0.0, &signed, &[3.0, 0.1], &[0.5, 0.5]);
    assert_eq!(r, Err(SamplingError::ConfigurationError));
}

#[test]
fn failure_in_the_middle_returns_no_part_of_the_trace() {
    let r = scripted_run(0, 5, 0.0, &gaussian, &[0.5, 0.5, 0.5], &[0.1, 0.1, 0.1]);
    assert_eq!(r, Err(SamplingError::RandomSourceFailure("out of normal draws")));
    let r = scripted_run(1, 3, 0.0, &gaussian, &[0.5, 0.5, 0.5, 0.5], &[0.1, 0.1]);
    assert_eq!(r, Err(SamplingError::RandomSourceFailure("out of uniform draws")));
    let r = scripted_run(3, 3, 0.0, &gaussian, &[0.5], &[0.1, 0.1]);
    assert_eq!(r, Err(SamplingError::RandomSourceFailure("out of normal draws")));
}

#[test]
fn run_stops_at_the_first_failure() {
    let normal_calls = Cell::new(0);
    let r: Result<RunResult, SamplingError<u8>> = metropolis_hastings(
        2,
        10,
        scalar(0.0),
        &gaussian,
        &|| {
            normal_calls.set(normal_calls.get() + 1);
            if normal_calls.get() == 4 {
                Err(17)
            } else {
                Ok(scalar(0.1))
            }
        },
        &|| Ok(scalar(0.0)),
    );
    assert_eq!(r, Err(SamplingError::RandomSourceFailure(17)));
    assert_eq!(normal_calls.get(), 4);
}

#[test]
fn acceptance_rate_is_the_quotient_of_the_counts() {
    let result = RunResult { trace: vec![scalar(0.0); 4], accepted_count: 1 };
    assert_eq!(value(result.acceptance_rate()), 0.25);
    let result = RunResult { trace: vec![scalar(0.0); 3], accepted_count: 1 };
    assert_eq!(result.acceptance_rate().to_bits(), (1.0f32 / 3.0).to_bits());
    let result = RunResult { trace: vec![scalar(0.0); 7], accepted_count: 7 };
    assert_eq!(value(result.acceptance_rate()), 1.0);
    let result = RunResult { trace: vec![scalar(0.0); 7], accepted_count: 0 };
    assert_eq!(result.acceptance_rate().to_bits(), 0);
    for samples in 1..60usize {
        for accepted in 0..=samples {
            let result =
                RunResult { trace: vec![scalar(0.5); samples], accepted_count: accepted as i32 };
            let expected = accepted as f32 / samples as f32;
            assert_eq!(result.acceptance_rate().to_bits(), expected.to_bits());
        }
    }
}

#[test]
fn acceptance_rate_of_a_run_without_samples_is_zero() {
    let result = RunResult { trace: vec![], accepted_count: 0 };
    assert_eq!(result.acceptance_rate().to_bits(), 0);
    let result = seeded_run(5, 10, 0, 0.0, &gaussian).unwrap();
    assert_eq!(result.acceptance_rate().to_bits(), 0);
}

#[test]
fn acceptance_rate_of_a_run() {
    let result = seeded_run(42, 1000, 5000, 0.0, &gaussian).unwrap();
    let expected = result.accepted_count as f32 / 5000 as f32;
    assert_eq!(result.acceptance_rate().to_bits(), expected.to_bits());
    let flat_run = seeded_run(1, 0, 777, 0.0, &flat).unwrap();
    assert_eq!(value(flat_run.acceptance_rate()), 1.0);
}
