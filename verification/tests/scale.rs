//! Rulers: what they claim, what they remember, and when they decline.

use wslam::scale::fiducial::{decide, dominant_id, enough_sightings, nearest_within};
use wslam::scale::inertial::{
    chain, column_without_gravity, degrees_of_freedom, judge as judge_inertial,
    require_tight_alignment, samples_inside, system_shape, velocity_column, Endpoint, Gate,
    InertialEvidence, InertialRejection,
};
use wslam::scale::learned::{
    is_usable, judge as judge_learned, GridError, InverseDepth, LearnedEvidence, LearnedRejection,
};
use wslam::scale::recent::{RecentLog, SolveLog};
use wslam::scale::{
    DeclarationError, DeclaredScale, InflatedVariance, InheritedScale, MapScale, NoneScale,
    RelocalizationVariance, ScaleEstimate, ScaleKind,
};

// ------------------------------------------------------------------ no ruler

#[test]
fn none_scale_reports_infinite_variance_never_a_finite_guess() {
    let s = NoneScale::new();
    let e: ScaleEstimate<f64> = s.estimate().expect("none always answers");
    assert_eq!(e.source(), ScaleKind::Arbitrary);
    assert!(!e.source().is_metric());
    assert!(matches!(e, ScaleEstimate::Unscaled));
}

#[test]
fn kind_is_stable_and_reset_is_a_no_op() {
    let s = NoneScale::default();
    assert_eq!(s.kind(), ScaleKind::Arbitrary);
    let e: Option<ScaleEstimate<f64>> = s.estimate();
    assert!(matches!(e, Some(ScaleEstimate::Unscaled)));
    assert_eq!(s.kind(), ScaleKind::Arbitrary);
}

#[test]
fn every_other_ruler_is_metric() {
    for kind in [
        ScaleKind::Declared,
        ScaleKind::Fiducial,
        ScaleKind::AnchoredMap,
        ScaleKind::Learned,
        ScaleKind::Inertial,
    ] {
        assert!(kind.is_metric());
        assert_eq!(ScaleEstimate::metric(kind, 1.0, 2.0).source(), kind);
    }
    assert!(!ScaleKind::Arbitrary.is_metric());
}

// ------------------------------------------------------------------ declared

fn declare(metres: f64, units: f64) -> Result<DeclaredScale<f64>, DeclarationError> {
    let positive = |v: f64| v.is_finite() && v > 0.0;
    DeclaredScale::new(
        metres,
        positive(metres),
        units,
        positive(units),
        2.0 / 640.0 * units,
    )
}

#[test]
fn degenerate_declarations_are_refused_rather_than_producing_an_infinity() {
    assert_eq!(declare(0.0, 1.0).err(), Some(DeclarationError::Metres));
    assert_eq!(declare(1.0, 0.0).err(), Some(DeclarationError::ObservedUnits));
    assert_eq!(declare(-1.0, 1.0).err(), Some(DeclarationError::Metres));
    assert_eq!(declare(1.0, -1.0).err(), Some(DeclarationError::ObservedUnits));
    assert_eq!(declare(f64::NAN, 1.0).err(), Some(DeclarationError::Metres));
    assert_eq!(
        declare(1.0, f64::INFINITY).err(),
        Some(DeclarationError::ObservedUnits)
    );
    assert_eq!(declare(f64::NAN, -1.0).err(), Some(DeclarationError::Metres));
}

#[test]
fn a_declaration_keeps_what_was_declared() {
    let d = declare(0.5, 0.25).unwrap();
    assert_eq!((d.metres(), d.observed_units()), (0.5, 0.25));
    assert_eq!(d.kind(), ScaleKind::Declared);
    let e = d.with_tap_stddev_units(0.125);
    assert_eq!((e.metres(), e.tap_stddev_units()), (0.5, 0.125));
}

#[test]
fn a_measured_tag_size_goes_before_the_trajectory() {
    assert_eq!(decide(Some(3.0), Some(4.0), true), Some(3.0));
    assert_eq!(decide(Some(3.0), None, true), Some(3.0));
    assert_eq!(decide(None, Some(4.0), true), Some(4.0));
    assert_eq!(decide::<f64>(None, None, true), None);
    assert_eq!(decide(Some(3.0), Some(4.0), false), None);
    assert_eq!(decide(None, Some(4.0), false), None);
}

// ----------------------------------------------------------------------- map

fn map(anchor: ScaleEstimate<f64>, variance: f64) -> MapScale<f64> {
    MapScale::new(anchor, variance, variance.is_finite(), variance > 0.0)
}

fn total(variance: InflatedVariance<f64>) -> f64 {
    match variance.added {
        RelocalizationVariance::Unbounded => f64::INFINITY,
        RelocalizationVariance::Zero => variance.origin,
        RelocalizationVariance::Finite(v) => variance.origin + v,
    }
}

/// The ruler, the multiplier and the variance of what a map says.
fn spelled_out(scale: InheritedScale<f64>) -> (ScaleKind, f64, f64) {
    match scale {
        InheritedScale::Unscaled => (ScaleKind::Arbitrary, 1.0, f64::INFINITY),
        InheritedScale::Metric {
            source,
            value,
            variance,
        } => (source, value, total(variance)),
    }
}

fn reported(m: &MapScale<f64>) -> (ScaleKind, f64, f64) {
    spelled_out(m.estimate().expect("a map always answers"))
}

#[test]
fn map_scale_must_not_report_itself_as_more_certain_than_its_origin() {
    let anchors = [
        (ScaleKind::Fiducial, 1.0, 1e-6),
        (ScaleKind::Fiducial, 0.017, 4.9e-9),
        (ScaleKind::Declared, 2.75, 1e-4),
        (ScaleKind::Declared, 1e3, 25.0),
        (ScaleKind::Inertial, 0.5, 2.5e-5),
        (ScaleKind::Learned, 1.4, 3.9e-3),
        (ScaleKind::AnchoredMap, 0.9, 1.0),
    ];
    let reloc_variances = [1e-12, 1e-9, 1e-6, 1e-4, 1e-2, 0.5, 10.0];
    for (kind, value, variance) in anchors {
        for v in reloc_variances {
            let m = map(ScaleEstimate::metric(kind, value, variance), v);
            let out = reported(&m);
            assert!(
                out.2 > variance,
                "inheriting {kind:?} with reloc variance {v} must be strictly less certain"
            );
            assert!((out.2 - (variance + v)).abs() <= 1e-18 + v * 1e-12);
            assert_eq!(out.1, value);
            assert_eq!(out.0, ScaleKind::AnchoredMap);
            assert!(out.2.sqrt() / out.1 > variance.sqrt() / value);
        }
    }
}

#[test]
fn inherited_is_exactly_inflated_by() {
    let m = map(ScaleEstimate::metric(ScaleKind::Fiducial, 1.25, 2e-5), 7e-6);
    assert_eq!(
        spelled_out(m.inherited()),
        (ScaleKind::Fiducial, 1.25, 2e-5 + 7e-6)
    );
}

#[test]
fn a_zero_or_negative_relocalization_variance_never_shrinks_the_anchor() {
    let anchor = ScaleEstimate::metric(ScaleKind::Declared, 3.0, 1e-4);
    for v in [0.0, -1e-6, -1.0] {
        let out = reported(&map(anchor, v)).2;
        assert!(out >= 1e-4, "reloc variance {v} shrank the anchor");
        assert_eq!(out, 1e-4);
    }
}

#[test]
fn an_unanchored_map_stays_unscaled() {
    let out = reported(&map(ScaleEstimate::Unscaled, 1e-6));
    assert_eq!(out.0, ScaleKind::Arbitrary);
    assert!(out.2.is_infinite());
    assert!(!out.0.is_metric());
}

#[test]
fn an_anchor_without_a_metric_ruler_stays_unscaled() {
    let anchor = ScaleEstimate::Metric {
        source: ScaleKind::Arbitrary,
        value: 2.0,
        variance: 1e-6,
    };
    let out = reported(&map(anchor, 1e-6));
    assert_eq!(out.0, ScaleKind::Arbitrary);
    assert!(out.2.is_infinite());
}

#[test]
fn an_infinite_relocalization_variance_makes_the_result_uninformative() {
    let m = map(
        ScaleEstimate::metric(ScaleKind::Fiducial, 1.0, 1e-6),
        f64::INFINITY,
    );
    assert!(reported(&m).2.is_infinite());
}

#[test]
fn a_worse_relocalization_is_reported_as_worse() {
    let anchor = ScaleEstimate::metric(ScaleKind::Fiducial, 1.0, 1e-6);
    let mut good = map(anchor, 1e-6);
    let poor = map(anchor, 1e-3);
    let (g, p) = (reported(&good), reported(&poor));
    assert!(p.2 > g.2);
    good.set_relocalization_variance(1e-3, true, true);
    assert_eq!(reported(&good), p);
}

#[test]
fn chained_inheritance_accumulates() {
    let fiducial = ScaleEstimate::metric(ScaleKind::Fiducial, 1.0, 1e-6);
    let once = reported(&map(fiducial, 2e-6));
    let twice = reported(&map(ScaleEstimate::metric(once.0, once.1, once.2), 3e-6));
    assert!(twice.2 > once.2);
    assert!(once.2 > 1e-6);
    assert!((twice.2 - (1e-6 + 2e-6 + 3e-6)).abs() < 1e-18);
    assert_eq!(twice.0, ScaleKind::AnchoredMap);
}

#[test]
fn kind_is_map_and_the_anchor_stays_reachable() {
    let m = map(ScaleEstimate::metric(ScaleKind::Inertial, 1.1, 1e-4), 1e-5);
    assert_eq!(m.kind(), ScaleKind::AnchoredMap);
    assert_eq!(m.anchor().source(), ScaleKind::Inertial);
    assert!(matches!(
        m.relocalization_variance(),
        RelocalizationVariance::Finite(v) if v == 1e-5
    ));
}

// ---------------------------------------------------------------------- logs

#[test]
fn the_observation_buffer_is_bounded() {
    let mut log = RecentLog::new(120);
    log.set_capacity(5);
    for i in 0..50 {
        log.push(i);
    }
    assert_eq!(log.len(), 5);
    let kept: Vec<i32> = (0..5).map(|i| *log.get(i).unwrap()).collect();
    assert_eq!(kept, vec![45, 46, 47, 48, 49]);
    assert!(log.get(5).is_none());
    log.clear();
    assert_eq!(log.len(), 0);
    assert!(log.is_empty());
}

#[test]
fn the_sample_buffer_is_bounded() {
    let mut log = RecentLog::new(10);
    for frame in 0..20 {
        for point in 0..24 {
            log.push((frame, point));
        }
    }
    assert_eq!(log.len(), 10);
    // Nothing at all can be kept of a capacity of zero, so one item is.
    let mut one = RecentLog::new(0);
    one.push('a');
    one.push('b');
    assert_eq!((one.len(), one.get(0)), (1, Some(&'b')));
}

#[test]
fn reset_drops_every_sample_so_a_stale_scene_cannot_anchor_a_new_one() {
    let mut samples = RecentLog::new(2048);
    for i in 0..24 {
        samples.push(i);
    }
    let mut log: SolveLog<f64, LearnedRejection<f64>> = SolveLog::new();
    assert!(log.record(Ok(2.7)));
    samples.clear();
    log.reset();
    assert_eq!(samples.len(), 0);
    assert!(log.last_solution().is_none());
    assert!(log.last_rejection().is_none());
    let e = LearnedEvidence {
        samples: samples.len(),
        ..consistent()
    };
    assert!(judge_learned(&e).is_some());
}

#[test]
fn a_rejection_leaves_the_last_solution_to_look_at() {
    let mut log: SolveLog<char, u8> = SolveLog::new();
    assert!(log.record(Ok('s')));
    assert!(!log.record(Err(3)));
    assert_eq!(log.last_solution(), Some(&'s'));
    assert_eq!(log.last_rejection(), Some(&3));
    assert!(log.record(Ok('t')));
    assert_eq!(log.last_solution(), Some(&'t'));
    assert_eq!(log.last_rejection(), None);
}

// ------------------------------------------------------------------ inertial

#[test]
fn constructing_without_tier_three_fails_with_sensor_tier() {
    let err = require_tight_alignment(false).unwrap_err();
    assert_eq!(err.required, 3);
}

#[test]
fn constructing_with_tier_three_succeeds() {
    assert!(require_tight_alignment(true).is_ok());
}

fn millis(v: &[i64]) -> Vec<i64> {
    v.iter().map(|t| t * 1_000_000).collect()
}

type V3 = nalgebra::Vector3<f64>;

/// A reading at a time in nanoseconds: angular rate, then specific force.
type Reading = (i64, V3, V3);

/// Rotation, velocity and position gained over an interval.
fn preintegrate(
    samples: &[Reading],
    from: i64,
    to: i64,
) -> Option<(nalgebra::Rotation3<f64>, V3, V3)> {
    let times: Vec<i64> = samples.iter().map(|s| s.0).collect();
    let c = chain(&times, from, to)?;
    let reading = |end: Endpoint, at: i64| match end {
        Endpoint::Held(i) => (at, samples[i].1, samples[i].2),
        Endpoint::Between(i, j) => {
            let t = (at - times[i]) as f64 / (times[j] - times[i]) as f64;
            let mix = |a: V3, b: V3| a * (1.0 - t) + b * t;
            (
                at,
                mix(samples[i].1, samples[j].1),
                mix(samples[i].2, samples[j].2),
            )
        }
    };
    let mut nodes: Vec<Reading> = vec![reading(c.start, from)];
    nodes.extend(c.inside.iter().map(|&i| samples[i]));
    nodes.push(reading(c.end, to));
    let (mut r, mut v, mut p) = (nalgebra::Rotation3::identity(), V3::zeros(), V3::zeros());
    for w in nodes.windows(2) {
        let dt = (w[1].0 - w[0].0) as f64 * 1e-9;
        let a = r * ((w[0].2 + w[1].2) * 0.5);
        p += v * dt + a * (0.5 * dt * dt);
        v += a * dt;
        r *= nalgebra::Rotation3::new((w[0].1 + w[1].1) * 0.5 * dt);
    }
    Some((r, v, p))
}

#[test]
fn preintegrating_a_constant_specific_force_matches_the_closed_form() {
    let samples: Vec<Reading> = (0..=100)
        .map(|i| (i * 10_000_000, V3::zeros(), V3::new(1.0, 0.0, 0.0)))
        .collect();
    let (r, v, p) = preintegrate(&samples, 0, 1_000_000_000).unwrap();
    assert!((v - V3::new(1.0, 0.0, 0.0)).amax() <= 1e-12);
    assert!((p - V3::new(0.5, 0.0, 0.0)).amax() <= 1e-12);
    assert!(r.angle() <= 1e-12);
}

#[test]
fn preintegrating_a_constant_angular_rate_matches_the_closed_form() {
    let omega = V3::new(0.0, 0.0, 1.2);
    let samples: Vec<Reading> = (0..=200)
        .map(|i| (i * 5_000_000, omega, V3::zeros()))
        .collect();
    let (r, _, _) = preintegrate(&samples, 0, 1_000_000_000).unwrap();
    assert!((r.matrix() - nalgebra::Rotation3::new(omega).matrix()).amax() <= 1e-9);
}

#[test]
fn preintegration_refuses_an_empty_or_inverted_interval() {
    assert!(chain(&millis(&[0]), 1_000_000_000, 0).is_none());
    assert!(chain(&Vec::new(), 0, 1_000_000_000).is_none());
    assert!(chain(&millis(&[0, 100]), 50_000_000, 50_000_000).is_none());
}

#[test]
fn interval_endpoints_are_interpolated_not_truncated() {
    let times: Vec<i64> = (0..=20).map(|i| i * 100_000_000).collect();
    let c = chain(&times, 50_000_000, 950_000_000).unwrap();
    assert_eq!(c.start, Endpoint::Between(0, 1));
    assert_eq!(c.inside, (1..=9).collect::<Vec<usize>>());
    assert_eq!(c.end, Endpoint::Between(9, 10));

    // The chain integrates to exactly the interval.
    let at = |e: Endpoint, t: i64| match e {
        Endpoint::Between(_, _) => t,
        Endpoint::Held(_) => t,
    };
    let mut nodes = vec![at(c.start, 50_000_000)];
    nodes.extend(c.inside.iter().map(|&i| times[i]));
    nodes.push(at(c.end, 950_000_000));
    let dt: f64 = nodes.windows(2).map(|w| (w[1] - w[0]) as f64 * 1e-9).sum();
    assert!((dt - 0.9).abs() < 1e-12);
    assert!((2.0 * dt - 1.8).abs() < 1e-12);
}

#[test]
fn endpoints_are_held_where_nothing_brackets_them() {
    let c = chain(&millis(&[200, 400]), 100_000_000, 500_000_000).unwrap();
    assert_eq!((c.start, c.end), (Endpoint::Held(0), Endpoint::Held(1)));
    assert_eq!(c.inside, vec![0, 1]);
    let c = chain(&millis(&[0, 900]), 100_000_000, 500_000_000).unwrap();
    assert_eq!(
        (c.start, c.end),
        (Endpoint::Between(0, 1), Endpoint::Between(0, 1))
    );
    assert!(c.inside.is_empty());
    assert!(chain(&millis(&[0, 50]), 100_000_000, 500_000_000).is_none());
    assert!(chain(&millis(&[900]), 100_000_000, 500_000_000).is_none());
}

#[test]
fn one_sample_brackets_no_interval() {
    assert!(chain(&millis(&[500]), 0, 1_000_000_000).is_none());
    assert!(preintegrate(
        &[(500_000_000, V3::zeros(), V3::new(1.0, 0.0, 0.0))],
        0,
        1_000_000_000
    )
    .is_none());
    let c = chain(&millis(&[500, 1500]), 0, 1_000_000_000).unwrap();
    assert_eq!(
        (c.start, c.end),
        (Endpoint::Held(0), Endpoint::Between(0, 1))
    );
    let c = chain(&millis(&[0, 500]), 100_000_000, 1_000_000_000).unwrap();
    assert_eq!(
        (c.start, c.end),
        (Endpoint::Between(0, 1), Endpoint::Held(1))
    );
}

#[test]
fn interpolated_ends_are_not_samples_inside() {
    let around = chain(&millis(&[0, 900]), 100_000_000, 500_000_000);
    assert_eq!(samples_inside(&around), Some(0));
    let through = chain(&millis(&[0, 200, 400, 900]), 100_000_000, 500_000_000);
    assert_eq!(samples_inside(&through), Some(2));
    assert_eq!(samples_inside(&None), None);
    let judged = |inside: Option<usize>| {
        judge_inertial(&InertialEvidence {
            intervals: vec![samples_inside(&through), inside],
            ..excited()
        })
    };
    assert!(judged(Some(2)).is_none());
    assert!(matches!(
        judged(samples_inside(&around)),
        Some(InertialRejection::InsufficientImu { interval: 1 })
    ));
}

#[test]
fn packing_round_trips_the_state_layout() {
    let shape = system_shape(2);
    assert_eq!((shape.rows, shape.columns), (6, 4 + 6));
    assert_eq!(velocity_column(0), 4);
    assert_eq!(velocity_column(1) + 2, 9);
    assert_eq!(column_without_gravity(0), 0);
    assert_eq!(column_without_gravity(1), 4);
    let four = system_shape(4);
    assert!(four.rows >= four.columns);
    let three = system_shape(3);
    assert!(three.rows < three.columns);
    assert_eq!(degrees_of_freedom(18, 16), 2);
    assert_eq!(degrees_of_freedom(12, 13), 1);
}

fn gate(measured: f64, threshold: f64, passes: bool) -> Gate<f64> {
    Gate {
        measured,
        threshold,
        passes,
    }
}

fn excited() -> InertialEvidence<f64> {
    InertialEvidence {
        excitation: gate(2.0, 0.35, true),
        poses: 8,
        min_poses: 8,
        intervals: vec![Some(9); 7],
        min_interval_samples: 2,
        translation: Some(gate(0.1, 1e-6, true)),
        condition: Some(gate(1e-3, 1e-9, true)),
        gravity: Some(gate(9.8, 9.81, true)),
        is_usable: Some(true),
        precision: Some(gate(0.01, 0.2, true)),
    }
}

#[test]
fn the_inertial_gates_come_in_order() {
    assert!(judge_inertial(&excited()).is_none());
    let still = InertialEvidence {
        excitation: gate(0.02, 0.35, false),
        poses: 1,
        ..excited()
    };
    assert!(matches!(
        judge_inertial(&still),
        Some(InertialRejection::LowExcitation { measured, .. }) if measured == 0.02
    ));
    let short = InertialEvidence {
        poses: 3,
        min_poses: 2,
        ..excited()
    };
    assert!(matches!(
        judge_inertial(&short),
        Some(InertialRejection::InsufficientPoses { have: 3, need: 4 })
    ));
    let starved = InertialEvidence {
        intervals: vec![Some(9), None, Some(1)],
        translation: Some(gate(0.0, 1e-6, false)),
        ..excited()
    };
    assert!(matches!(
        judge_inertial(&starved),
        Some(InertialRejection::InsufficientImu { interval: 1 })
    ));
    let turning = InertialEvidence {
        translation: Some(gate(0.0, 1e-6, false)),
        condition: Some(gate(0.0, 1e-9, false)),
        ..excited()
    };
    assert!(matches!(
        judge_inertial(&turning),
        Some(InertialRejection::PureRotation { .. })
    ));
    let singular = InertialEvidence {
        condition: Some(gate(0.0, 1e-9, false)),
        gravity: None,
        is_usable: None,
        precision: None,
        ..excited()
    };
    assert!(matches!(
        judge_inertial(&singular),
        Some(InertialRejection::Singular { .. })
    ));
    let gravity = InertialEvidence {
        gravity: Some(gate(3.0, 9.81, false)),
        ..excited()
    };
    assert!(matches!(
        judge_inertial(&gravity),
        Some(InertialRejection::GravityMagnitude { expected, .. }) if expected == 9.81
    ));
    let negative = InertialEvidence {
        is_usable: Some(false),
        precision: None,
        ..excited()
    };
    assert!(matches!(
        judge_inertial(&negative),
        Some(InertialRejection::Degenerate)
    ));
    let vague = InertialEvidence {
        precision: Some(gate(0.5, 0.2, false)),
        ..excited()
    };
    assert!(matches!(
        judge_inertial(&vague),
        Some(InertialRejection::Imprecise { .. })
    ));
}

// ------------------------------------------------------------------- learned

#[test]
fn inverse_depth_rejects_a_mismatched_grid() {
    assert_eq!(
        InverseDepth::new(4, 4, vec![0.0; 15]).err(),
        Some(GridError::Mismatch {
            width: 4,
            height: 4,
            values: 15
        })
    );
    assert_eq!(
        InverseDepth::<f64>::new(0, 4, Vec::new()).err(),
        Some(GridError::Empty)
    );
    assert!(InverseDepth::new(4, 4, vec![0.0; 16]).is_ok());
}

#[test]
fn cells_are_read_row_by_row() {
    let g = InverseDepth::new(3, 2, vec![0, 1, 2, 3, 4, 5]).unwrap();
    assert_eq!((g.width(), g.height(), g.data().len()), (3, 2, 6));
    assert_eq!((g.cell(2, 0), g.cell(0, 1), g.cell(2, 1)), (2, 3, 5));
    let n = g.neighbours(1, 0);
    assert_eq!((n.x0, n.y0, n.x1, n.y1), (1, 0, 2, 1));
    let edge = g.neighbours(2, 1);
    assert_eq!((edge.x1, edge.y1), (2, 1));
}

fn consistent() -> LearnedEvidence<f64> {
    LearnedEvidence {
        samples: 24,
        min_samples: 16,
        is_finite: true,
        spread: Some(gate(0.4, 0.05, true)),
        prediction_varies: Some(true),
        residual: Some(gate(0.01, 0.1, true)),
        is_usable: Some(true),
        precision: Some(gate(0.05, 0.3, true)),
    }
}

#[test]
fn a_two_point_fit_is_refused_because_it_would_pass_the_gate_vacuously() {
    let e = LearnedEvidence {
        samples: 2,
        min_samples: 2,
        ..consistent()
    };
    assert!(matches!(
        judge_learned(&e),
        Some(LearnedRejection::InsufficientSamples { have: 2, need: 4 })
    ));
}

#[test]
fn the_learned_gates_come_in_order() {
    assert!(judge_learned(&consistent()).is_none());
    let nonsense = LearnedEvidence {
        is_finite: false,
        spread: None,
        ..consistent()
    };
    assert!(matches!(
        judge_learned(&nonsense),
        Some(LearnedRejection::Degenerate)
    ));
    let wall = LearnedEvidence {
        spread: Some(gate(0.0, 0.05, false)),
        residual: Some(gate(0.9, 0.1, false)),
        ..consistent()
    };
    assert!(matches!(
        judge_learned(&wall),
        Some(LearnedRejection::NoDepthSpread { .. })
    ));
    let flat = LearnedEvidence {
        prediction_varies: Some(false),
        ..consistent()
    };
    assert!(matches!(
        judge_learned(&flat),
        Some(LearnedRejection::NoPredictedSpread)
    ));
    let wrong = LearnedEvidence {
        residual: Some(gate(0.4, 0.1, false)),
        precision: Some(gate(0.5, 0.3, false)),
        ..consistent()
    };
    assert!(matches!(
        judge_learned(&wrong),
        Some(LearnedRejection::Inconsistent { .. })
    ));
    let inverted = LearnedEvidence {
        is_usable: Some(false),
        precision: None,
        ..consistent()
    };
    assert!(matches!(
        judge_learned(&inverted),
        Some(LearnedRejection::Degenerate)
    ));
    let vague = LearnedEvidence {
        precision: Some(gate(0.5, 0.3, false)),
        ..consistent()
    };
    assert!(matches!(
        judge_learned(&vague),
        Some(LearnedRejection::Imprecise { .. })
    ));
}

#[test]
fn samples_count_only_beside_a_well_supported_pose() {
    assert!(is_usable(Some(20), 20));
    assert!(!is_usable(Some(19), 20));
    assert!(!is_usable(None, 0));
}

// ------------------------------------------------------------------ fiducial

#[test]
fn one_observation_is_not_enough() {
    assert!(!enough_sightings(1, 2));
    assert!(!enough_sightings(1, 0));
    assert!(!enough_sightings(2, 3));
    assert!(enough_sightings(2, 2));
}

#[test]
fn the_tag_seen_most_often_is_the_ruler() {
    assert_eq!(dominant_id(&vec![4, 9, 4, 2, 9]), Some(9));
    assert_eq!(dominant_id(&vec![4, 9, 4]), Some(4));
    assert_eq!(dominant_id(&Vec::new()), None);
}

#[test]
fn the_nearest_pose_has_to_be_near() {
    assert_eq!(nearest_within(&vec![70, 30, 20, 20, 90], 50), Some(2));
    assert_eq!(nearest_within(&vec![70, 90], 50), None);
    assert_eq!(nearest_within(&vec![50], 50), Some(0));
}
