use volesti_rs::error::VolestiError;
use volesti_rs::geometry::hpolytope::check_point_dimension;
use volesti_rs::samplers::ball_walk::{
    check_sample_count, validate_walk_start, StepAction, WalkSchedule, DEFAULT_BURN_IN,
    DEFAULT_THINNING,
};

/// Runs a schedule to the end, feeding it the acceptance pattern `inside(t)`
/// for proposal `t`, and returns the chain positions that were recorded
/// (-1 for the starting point) and the number of proposals made.
fn run(burn_in: usize, thinning: usize, n: usize, inside: impl Fn(usize) -> bool) -> (Vec<i64>, usize) {
    let mut schedule = WalkSchedule::new(burn_in, thinning, n);
    let mut position: i64 = -1;
    let mut samples = Vec::new();
    let mut t = 0usize;
    while !schedule.is_finished() {
        let accepted = inside(t);
        let action = schedule.advance(accepted);
        assert_eq!(action.move_to_candidate, accepted);
        if action.move_to_candidate {
            position = t as i64;
        }
        if action.record_sample {
            samples.push(position);
        }
        t += 1;
    }
    assert_eq!(schedule.samples_recorded(), samples.len());
    (samples, t)
}

#[test]
fn test_schedule_sample_count_exact() {
    for n in [1usize, 10, 100, 500] {
        let (samples, proposals) = run(100, 1, n, |t| t % 3 != 0);
        assert_eq!(samples.len(), n, "Expected {} samples, got {}", n, samples.len());
        assert_eq!(proposals, 100 + n);
    }
}

#[test]
fn test_schedule_thinning_and_burn_in() {
    let (samples, proposals) = run(1000, 10, 50, |_| true);
    assert_eq!(proposals, 1000 + 50 * 10);
    // With every candidate accepted, sample j is the proposal made at
    // count burn_in + (j + 1) * thinning.
    for (j, &p) in samples.iter().enumerate() {
        assert_eq!(p, (1000 + (j + 1) * 10 - 1) as i64);
    }
}

#[test]
fn test_schedule_rejections_keep_position() {
    // Nothing is ever accepted: every sample is the starting point.
    let (samples, _) = run(5, 2, 7, |_| false);
    assert_eq!(samples, vec![-1; 7]);
}

#[test]
fn test_schedule_samples_are_start_or_accepted() {
    let inside = |t: usize| (t * 7919) % 5 < 2;
    let (samples, _) = run(13, 3, 40, inside);
    assert_eq!(samples.len(), 40);
    for &p in &samples {
        assert!(p == -1 || inside(p as usize));
    }
}

#[test]
fn test_schedule_zero_samples_runs_burn_in_only() {
    let (samples, proposals) = run(4, 1, 0, |_| true);
    assert!(samples.is_empty());
    assert_eq!(proposals, 4);
}

#[test]
fn test_schedule_first_steps() {
    let mut schedule = WalkSchedule::new(1, 2, 1);
    assert!(!schedule.is_finished());
    assert_eq!(
        schedule.advance(true),
        StepAction { move_to_candidate: true, record_sample: false }
    );
    assert_eq!(
        schedule.advance(false),
        StepAction { move_to_candidate: false, record_sample: false }
    );
    assert_eq!(
        schedule.advance(true),
        StepAction { move_to_candidate: true, record_sample: true }
    );
    assert!(schedule.is_finished());
    assert_eq!(schedule.samples_recorded(), 1);
}

#[test]
fn test_default_configuration() {
    assert_eq!(DEFAULT_BURN_IN, 100);
    assert_eq!(DEFAULT_THINNING, 1);
}

#[test]
fn test_check_sample_count() {
    assert_eq!(check_sample_count(0), Err(VolestiError::ZeroSamples));
    assert_eq!(check_sample_count(3), Ok(()));
}

#[test]
fn test_validate_walk_start() {
    assert_eq!(validate_walk_start(0, Ok(true)), Err(VolestiError::ZeroSamples));
    assert_eq!(
        validate_walk_start(0, Err(VolestiError::DimensionMismatch { expected: 3, got: 2 })),
        Err(VolestiError::ZeroSamples)
    );
    assert_eq!(validate_walk_start(10, Ok(true)), Ok(()));
    assert_eq!(validate_walk_start(10, Ok(false)), Err(VolestiError::InfeasiblePolytope));
    assert_eq!(
        validate_walk_start(10, Err(VolestiError::DimensionMismatch { expected: 3, got: 2 })),
        Err(VolestiError::DimensionMismatch { expected: 3, got: 2 })
    );
}

#[test]
fn test_check_point_dimension() {
    assert_eq!(check_point_dimension(5, 5), Ok(()));
    assert_eq!(
        check_point_dimension(5, 4),
        Err(VolestiError::DimensionMismatch { expected: 5, got: 4 })
    );
}
