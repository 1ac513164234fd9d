//! Tests for orbital-state resolution, propagation and the whole
//! TLE-to-trajectory pipeline, run against the real external model.

use tle_plot::compute_trajectories;
use tle_plot::duration_minutes;
use tle_plot::propagator::aggregate;
use tle_plot::propagator::propagate;
use tle_plot::propagator::propagate_tles;
use tle_plot::propagator::resolve;
use tle_plot::propagator::SkipReason;
use tle_plot::tle::ParseError;
use tle_plot::tle::TLE;

const ISS_NAME: &str = "ISS (ZARYA)";
const ISS_LINE1: &str = "1 25544U 98067A   25260.12361477  .00008550  00000-0  15572-3 0  9997";
const ISS_LINE2: &str = "2 25544  51.6329 211.3907 0004353 348.5756  11.5133 15.50345634529426";

// An element set whose propagation diverges immediately (an eccentricity
// out of range at the epoch itself), while the element set itself is
// accepted by the external model.
const DIVERGING_LINE1: &str = "1 33334U 78066F   06174.85818871  .00000620  00000-0  10000-3 0  6806";
const DIVERGING_LINE2: &str = "2 33334  68.4714 236.1303 5602877 123.7484 302.5767  0.00001000 67521";

fn iss_tle() -> TLE {
    TLE {
        name: Some(ISS_NAME.to_owned()),
        line1: ISS_LINE1.to_owned(),
        line2: ISS_LINE2.to_owned(),
    }
}

fn iss_elements() -> sgp4::Elements {
    sgp4::Elements::from_tle(
        Some(ISS_NAME.to_owned()),
        ISS_LINE1.as_bytes(),
        ISS_LINE2.as_bytes(),
    )
    .expect("the reference lines must parse")
}

#[test]
fn test_duration_minutes_values() {
    assert_eq!(duration_minutes(Some(2)), 120);
    assert_eq!(duration_minutes(None), 240);
    assert_eq!(duration_minutes(Some(0)), 0);
}

#[test]
fn test_resolve_valid_record() {
    assert!(resolve(&iss_tle()).is_ok());
}

#[test]
fn test_resolve_rejects_bad_lines() {
    let tle = TLE {
        name: None,
        line1: "1 garbage".to_owned(),
        line2: "2 garbage".to_owned(),
    };
    let err = resolve(&tle).expect_err("the external model must reject malformed lines");
    assert!(!err.message.is_empty());
}

#[test]
fn test_propagate_zero_duration_is_empty() {
    let state = resolve(&iss_tle()).expect("the reference record must resolve");
    let samples = propagate(&state, 0).expect("a zero-minute window always succeeds");
    assert!(samples.is_empty());
}

#[test]
fn test_propagate_sample_count() {
    let state = resolve(&iss_tle()).expect("the reference record must resolve");
    let samples = propagate(&state, 10).expect("a short window on the reference record");
    assert_eq!(samples.len(), 10);
}

#[test]
fn test_propagate_samples_are_physical() {
    // The station's orbital radius is roughly 6800 km; every sample
    // must stay near it, and consecutive samples must differ.
    let state = resolve(&iss_tle()).expect("the reference record must resolve");
    let samples = propagate(&state, 5).expect("a short window on the reference record");
    for s in &samples {
        let r = (s.position[0].powi(2) + s.position[1].powi(2) + s.position[2].powi(2)).sqrt();
        assert!((6500.0..7100.0).contains(&r), "orbital radius {} km", r);
    }
    assert_ne!(samples[0].position, samples[1].position);
}

#[test]
fn test_propagation_error_carries_step_and_diagnostic() {
    let tle = TLE {
        name: None,
        line1: DIVERGING_LINE1.to_owned(),
        line2: DIVERGING_LINE2.to_owned(),
    };
    let state = resolve(&tle).expect("the element set itself is accepted");
    let err = propagate(&state, 10).expect_err("propagation diverges at the epoch");
    assert_eq!(err.step, 0);
    assert!(!err.message.is_empty());
}

#[test]
fn test_aggregate_applies_default_name() {
    let t = aggregate(None, iss_elements(), Vec::new(), 3);
    assert_eq!(t.object_name, "Unnamed object");
    assert_eq!(t.source_index, 3);
    assert!(t.positions.is_empty());
}

#[test]
fn test_aggregate_keeps_given_name() {
    let t = aggregate(Some("X".to_owned()), iss_elements(), Vec::new(), 0);
    assert_eq!(t.object_name, "X");
}

#[test]
fn test_pipeline_runs_are_reproducible() {
    let input = format!("{}\n{}\n{}\n", ISS_NAME, ISS_LINE1, ISS_LINE2);
    let (first, _) = compute_trajectories(&input, Some(1)).expect("the input must parse");
    let (second, _) = compute_trajectories(&input, Some(1)).expect("the input must parse");
    assert_eq!(first.len(), second.len());
    assert_eq!(first[0].object_name, second[0].object_name);
    assert_eq!(first[0].source_index, second[0].source_index);
    assert_eq!(first[0].positions, second[0].positions);
}

#[test]
fn test_propagate_tles_skips_failed_records() {
    let bad = TLE {
        name: Some("BROKEN".to_owned()),
        line1: "1 garbage".to_owned(),
        line2: "2 garbage".to_owned(),
    };
    let (results, skipped) = propagate_tles(vec![bad, iss_tle()], Some(1));
    assert_eq!(results.len(), 1);
    assert_eq!(results[0].object_name, ISS_NAME);
    assert_eq!(results[0].source_index, 1);
    assert_eq!(results[0].positions.len(), 60);
    assert_eq!(skipped.len(), 1);
    assert_eq!(skipped[0].source_index, 0);
    assert!(matches!(skipped[0].reason, SkipReason::Element(_)));
}

#[test]
fn test_pipeline_skips_diverging_record() {
    let input = format!(
        "DECAYED\n{}\n{}\n{}\n{}\n{}\n",
        DIVERGING_LINE1, DIVERGING_LINE2, ISS_NAME, ISS_LINE1, ISS_LINE2
    );
    let (results, skipped) = compute_trajectories(&input, Some(1)).expect("the input must parse");
    assert_eq!(results.len(), 1);
    assert_eq!(results[0].object_name, ISS_NAME);
    assert_eq!(results[0].source_index, 1);
    assert_eq!(skipped.len(), 1);
    assert_eq!(skipped[0].source_index, 0);
    match &skipped[0].reason {
        SkipReason::Propagation(p) => assert_eq!(p.step, 0),
        SkipReason::Element(e) => panic!("expected a propagation failure, got: {}", e.message),
    }
}

#[test]
fn test_pipeline_iss_default_window() {
    let input = format!("{}\n{}\n{}\n", ISS_NAME, ISS_LINE1, ISS_LINE2);
    let (results, skipped) = compute_trajectories(&input, None).expect("the reference input must parse");
    assert_eq!(results.len(), 1);
    assert_eq!(results[0].object_name, ISS_NAME);
    assert_eq!(results[0].positions.len(), 240);
    assert_eq!(results[0].source_index, 0);
    assert!(skipped.is_empty());
}

#[test]
fn test_pipeline_two_hour_window() {
    let input = format!("{}\n{}\n{}\n", ISS_NAME, ISS_LINE1, ISS_LINE2);
    let (results, _) = compute_trajectories(&input, Some(2)).expect("the reference input must parse");
    assert_eq!(results.len(), 1);
    assert_eq!(results[0].positions.len(), 120);
}

#[test]
fn test_pipeline_two_unnamed_records_in_order() {
    let input = format!(
        "{}\n{}\n{}\n{}\n",
        ISS_LINE1, ISS_LINE2, ISS_LINE1, ISS_LINE2
    );
    let (results, skipped) = compute_trajectories(&input, Some(2)).expect("the input must parse");
    assert!(skipped.is_empty());
    assert_eq!(results.len(), 2);
    assert_eq!(results[0].object_name, "Unnamed object");
    assert_eq!(results[1].object_name, "Unnamed object");
    assert_eq!(results[0].source_index, 0);
    assert_eq!(results[1].source_index, 1);
    assert_eq!(results[0].positions.len(), 120);
    assert_eq!(results[1].positions.len(), 120);
}

#[test]
fn test_pipeline_empty_input() {
    let (results, skipped) = compute_trajectories("", None).expect("an empty input is not an error");
    assert!(results.is_empty());
    assert!(skipped.is_empty());
}

#[test]
fn test_pipeline_structural_failure_is_fatal() {
    let input = format!("{}\n{}\n{}\n", ISS_LINE2, ISS_LINE1, ISS_LINE2);
    let err = compute_trajectories(&input, None)
        .expect_err("a group starting with line 2 must fail the whole input");
    assert_eq!(err, ParseError::UnexpectedLine2);
}

#[test]
fn test_pipeline_epoch_is_exposed() {
    // The reference record's epoch lies a little over 25 Julian years
    // after J2000; consumers read it from the trajectory's elements.
    let input = format!("{}\n{}\n{}\n", ISS_NAME, ISS_LINE1, ISS_LINE2);
    let (results, _) = compute_trajectories(&input, Some(0)).expect("the reference input must parse");
    assert_eq!(results.len(), 1);
    let epoch = results[0].elements.epoch();
    assert!((25.0..26.0).contains(&epoch), "epoch {} years", epoch);
}
