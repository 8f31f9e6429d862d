use metropolis::scalar::Scalar;
use metropolis::step::{check_densities, metropolis_hastings_step, SamplingError, StepOutcome};
use std::cell::Cell;

fn scalar(x: f32) -> Scalar {
    Scalar::from_bits(x.to_bits())
}

fn value(x: Scalar) -> f32 {
    f32::from_bits(x.to_bits())
}

fn gaussian(x: Scalar) -> Scalar {
    let x = value(x);
    scalar((-x * x).exp())
}

/// One step with fixed draws, under the density exp(-x^2).
fn step_with(current: f32, normal: f32, uniform: f32) -> Result<StepOutcome, SamplingError<()>> {
    metropolis_hastings_step(
        scalar(current),
        &gaussian,
        &|| Ok(scalar(normal)),
        &|| Ok(scalar(uniform)),
    )
}

#[test]
fn step_accepts_a_draw_below_the_ratio() {
    // exp(-0.25) / exp(0) = 0.7788...
    let outcome = step_with(0.0, 0.5, 0.7).unwrap();
    assert_eq!(outcome, StepOutcome { position: scalar(0.5), accepted: true });
}

#[test]
fn step_rejects_a_draw_above_the_ratio() {
    let outcome = step_with(0.0, 0.5, 0.8).unwrap();
    assert_eq!(outcome, StepOutcome { position: scalar(0.0), accepted: false });
}

#[test]
fn step_rejects_a_draw_equal_to_the_ratio() {
    let ratio = (-0.25f32).exp() / 1.0;
    let outcome = step_with(0.0, 0.5, ratio).unwrap();
    assert!(!outcome.accepted);
    let just_below = f32::from_bits(ratio.to_bits() - 1);
    let outcome = step_with(0.0, 0.5, just_below).unwrap();
    assert!(outcome.accepted);
}

#[test]
fn step_towards_higher_density_accepts_every_unit_draw() {
    // From 1.0 towards 0.25 the density rises, so the probability is one.
    for u in [0.0f32, 0.3, 0.999, 0.99999994] {
        let outcome = step_with(1.0, -0.75, u).unwrap();
        assert_eq!(outcome, StepOutcome { position: scalar(0.25), accepted: true });
    }
    let outcome = step_with(1.0, -0.75, 1.0).unwrap();
    assert!(!outcome.accepted);
}

#[test]
fn step_candidate_is_current_plus_the_normal_draw() {
    let flat = |_: Scalar| scalar(1.0);
    let cases: [(f32, f32); 6] = [
        (0.0, 1.5),
        (2.0, -3.25),
        (0.1, 0.2),
        (16_777_216.0, 1.0),
        (-1.0e-3, 7.0e-5),
        (1.0, 1.0e-20),
    ];
    for (current, normal) in cases {
        let outcome: StepOutcome = metropolis_hastings_step::<(), _, _, _>(
            scalar(current),
            &flat,
            &|| Ok(scalar(normal)),
            &|| Ok(scalar(0.5)),
        )
        .unwrap();
        assert!(outcome.accepted);
        assert_eq!(outcome.position.to_bits(), (current + normal).to_bits());
    }
}

#[test]
fn step_fails_with_domain_error_where_current_density_is_zero() {
    let spike = |x: Scalar| if value(x) == 1.0 { scalar(2.0) } else { scalar(0.0) };
    let r: Result<StepOutcome, SamplingError<()>> =
        metropolis_hastings_step(scalar(0.0), &spike, &|| Ok(scalar(1.0)), &|| Ok(scalar(0.5)));
    assert_eq!(r, Err(SamplingError::DomainError));
}

#[test]
fn step_fails_with_domain_error_where_current_density_is_no_positive_number() {
    for bad in [-1.0f32, -0.0, f32::NAN, f32::INFINITY, f32::NEG_INFINITY] {
        let target = |x: Scalar| if value(x) == 0.0 { scalar(bad) } else { scalar(1.0) };
        let r: Result<StepOutcome, SamplingError<()>> = metropolis_hastings_step(
            scalar(0.0),
            &target,
            &|| Ok(scalar(1.0)),
            &|| Ok(scalar(0.5)),
        );
        assert_eq!(r, Err(SamplingError::DomainError));
    }
}

#[test]
fn step_fails_with_configuration_error_where_candidate_density_is_no_density() {
    for bad in [-1.0f32, -1.0e-45, f32::NAN, f32::INFINITY, f32::NEG_INFINITY] {
        let target = |x: Scalar| if value(x) == 0.0 { scalar(1.0) } else { scalar(bad) };
        let r: Result<StepOutcome, SamplingError<()>> = metropolis_hastings_step(
            scalar(0.0),
            &target,
            &|| Ok(scalar(1.0)),
            &|| Ok(scalar(0.5)),
        );
        assert_eq!(r, Err(SamplingError::ConfigurationError));
    }
}

#[test]
fn step_with_zero_candidate_density_rejects() {
    let spike = |x: Scalar| if value(x) == 0.0 { scalar(3.0) } else { scalar(0.0) };
    for u in [0.0f32, 0.5, 0.99] {
        let r: Result<StepOutcome, SamplingError<()>> =
            metropolis_hastings_step(scalar(0.0), &spike, &|| Ok(scalar(1.0)), &|| Ok(scalar(u)));
        assert_eq!(r, Ok(StepOutcome { position: scalar(0.0), accepted: false }));
    }
    // A density of negative zero at the candidate is zero as well.
    let spike = |x: Scalar| if value(x) == 0.0 { scalar(3.0) } else { scalar(-0.0) };
    let r: Result<StepOutcome, SamplingError<()>> =
        metropolis_hastings_step(scalar(0.0), &spike, &|| Ok(scalar(1.0)), &|| Ok(scalar(0.0)));
    assert_eq!(r, Ok(StepOutcome { position: scalar(0.0), accepted: false }));
}

#[test]
fn step_hands_on_the_failure_of_the_normal_draw() {
    let uniform_calls = Cell::new(0);
    let target_calls = Cell::new(0);
    let r = metropolis_hastings_step(
        scalar(0.0),
        &|x| {
            target_calls.set(target_calls.get() + 1);
            gaussian(x)
        },
        &|| Err("no normal draw"),
        &|| {
            uniform_calls.set(uniform_calls.get() + 1);
            Ok(scalar(0.5))
        },
    );
    assert_eq!(r, Err(SamplingError::RandomSourceFailure("no normal draw")));
    assert_eq!(uniform_calls.get(), 0);
    assert_eq!(target_calls.get(), 0);
}

#[test]
fn step_hands_on_the_failure_of_the_uniform_draw() {
    let r = metropolis_hastings_step(
        scalar(0.0),
        &gaussian,
        &|| Ok(scalar(0.5)),
        &|| Err(String::from("no uniform draw")),
    );
    assert_eq!(r, Err(SamplingError::RandomSourceFailure(String::from("no uniform draw"))));
}

#[test]
fn step_draws_once_from_each_distribution() {
    let normal_calls = Cell::new(0);
    let uniform_calls = Cell::new(0);
    let r: Result<StepOutcome, SamplingError<()>> = metropolis_hastings_step(
        scalar(0.0),
        &gaussian,
        &|| {
            normal_calls.set(normal_calls.get() + 1);
            Ok(scalar(0.5))
        },
        &|| {
            uniform_calls.set(uniform_calls.get() + 1);
            Ok(scalar(0.5))
        },
    );
    assert!(r.is_ok());
    assert_eq!(normal_calls.get(), 1);
    assert_eq!(uniform_calls.get(), 1);
}

#[test]
fn step_draws_no_uniform_value_once_a_density_has_failed() {
    let uniform_calls = Cell::new(0);
    let r: Result<StepOutcome, SamplingError<()>> = metropolis_hastings_step(
        scalar(0.0),
        &|_| scalar(0.0),
        &|| Ok(scalar(0.5)),
        &|| {
            uniform_calls.set(uniform_calls.get() + 1);
            Ok(scalar(0.5))
        },
    );
    assert_eq!(r, Err(SamplingError::DomainError));
    assert_eq!(uniform_calls.get(), 0);
}

#[test]
fn check_densities_names_the_fault() {
    let ok: Result<(), SamplingError<()>> = check_densities(scalar(1.0), scalar(0.0));
    assert_eq!(ok, Ok(()));
    let ok: Result<(), SamplingError<()>> = check_densities(scalar(1.0e-45), scalar(3.0e38));
    assert_eq!(ok, Ok(()));
    let domain: Result<(), SamplingError<()>> = check_densities(scalar(0.0), scalar(1.0));
    assert_eq!(domain, Err(SamplingError::DomainError));
    // Both at fault: the current position is looked at first.
    let domain: Result<(), SamplingError<()>> = check_densities(scalar(-1.0), scalar(-1.0));
    assert_eq!(domain, Err(SamplingError::DomainError));
    let configuration: Result<(), SamplingError<()>> = check_densities(scalar(1.0), scalar(-1.0));
    assert_eq!(configuration, Err(SamplingError::ConfigurationError));
}
