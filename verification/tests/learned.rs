//! The gates of the learned scale, on depth fields that are known at every point.

use wslam::scale::fiducial::nearest_within;
use wslam::scale::inertial::Gate;
use wslam::scale::learned::{is_usable, judge, LearnedEvidence};
use wslam::scale::recent::{RecentLog, SolveLog};

type Scalar = f64;
type InverseDepth = wslam::scale::learned::InverseDepth<f64>;
type LearnedRejection = wslam::scale::learned::LearnedRejection<f64>;

const W: u32 = 64;
const H: u32 = 48;

/// A prediction at coordinates that run from zero to one across the frame: floating-point
/// interpolation between cells.
fn sample_normalized(grid: &InverseDepth, u: Scalar, v: Scalar) -> Option<Scalar> {
    if !(0.0..1.0).contains(&u) || !(0.0..1.0).contains(&v) {
        return None;
    }
    let (w, h) = (grid.width(), grid.height());
    let gx = (u * Scalar::from(w) - 0.5).clamp(0.0, Scalar::from(w - 1));
    let gy = (v * Scalar::from(h) - 0.5).clamp(0.0, Scalar::from(h - 1));
    let n = grid.neighbours(gx.floor() as u32, gy.floor() as u32);
    let fx = gx - Scalar::from(n.x0);
    let fy = gy - Scalar::from(n.y0);
    let top = grid.cell(n.x0, n.y0) * (1.0 - fx) + grid.cell(n.x1, n.y0) * fx;
    let bottom = grid.cell(n.x0, n.y1) * (1.0 - fx) + grid.cell(n.x1, n.y1) * fx;
    let value = top * (1.0 - fy) + bottom * fy;
    value.is_finite().then_some(value)
}

/// A model prediction paired with the up-to-scale structure at the same point.
#[derive(Debug, Clone, Copy, PartialEq)]
struct DepthSample {
    /// Capture time of the frame it came from.
    timestamp: Scalar,
    /// Model output at the point, in the model's units.
    predicted: Scalar,
    /// `1 / depth_units` from the visual structure.
    inverse_depth_units: Scalar,
}

/// Gates and sizing for the learned solve.
#[derive(Debug, Clone, Copy, PartialEq)]
struct LearnedConfig {
    /// Samples required before answering.
    min_samples: usize,
    /// Samples retained.
    max_samples: usize,
    /// Landmarks the associated frame's pose solve must have used.
    min_landmarks: usize,
    /// How far a sample may sit from a window pose to be associated with it, in seconds.
    max_time_delta: Scalar,
    /// Smallest coefficient of variation of the up-to-scale inverse depths that still identifies
    /// the slope.
    min_relative_depth_spread: Scalar,
    /// Residual RMS as a fraction of the predicted inverse-depth spread, above which the model's
    /// geometry is judged inconsistent with the reconstruction.
    max_residual_ratio: Scalar,
    /// Relative standard deviation above which no answer is given.
    max_relative_stddev: Scalar,
}

impl Default for LearnedConfig {
    fn default() -> Self {
        LearnedConfig {
            min_samples: 16,
            max_samples: 2048,
            min_landmarks: 20,
            max_time_delta: 0.05,
            min_relative_depth_spread: 0.05,
            max_residual_ratio: 0.10,
            max_relative_stddev: 0.30,
        }
    }
}

/// Everything the joint scale-and-shift fit recovers.
#[derive(Debug, Clone, Copy, PartialEq)]
struct LearnedSolution {
    /// Multiplier taking up-to-scale units to metres.
    scale: Scalar,
    /// Variance of `scale`.
    variance: Scalar,
    /// The refitted affine shift, in metric inverse depth (`1/m`).
    shift: Scalar,
    /// Residual RMS of the fit, in `1/m`.
    residual_rms: Scalar,
    /// Residual RMS over the predicted inverse-depth spread.
    residual_ratio: Scalar,
    /// Coefficient of variation of the up-to-scale inverse depths.
    relative_depth_spread: Scalar,
    /// Samples the fit consumed.
    samples: usize,
}

/// The verdict of the library so far.
fn so_far(evidence: &LearnedEvidence<Scalar>) -> Result<(), LearnedRejection> {
    match judge(evidence) {
        Some(rejection) => Err(rejection),
        None => Ok(()),
    }
}

/// Fit metric scale and the affine shift jointly against up-to-scale structure: floating-point
/// regression between the library's gates.
fn fit_scale_and_shift(
    samples: &[DepthSample],
    gain: Scalar,
    gain_relative_stddev: Scalar,
    config: &LearnedConfig,
) -> Result<LearnedSolution, LearnedRejection> {
    let n = samples.len();
    let nf = n as Scalar;
    let x: Vec<Scalar> = samples.iter().map(|s| s.inverse_depth_units).collect();
    let rho: Vec<Scalar> = samples.iter().map(|s| gain * s.predicted).collect();
    let mut evidence = LearnedEvidence {
        samples: n,
        min_samples: config.min_samples,
        is_finite: gain.is_finite()
            && gain > 0.0
            && x.iter().chain(rho.iter()).all(|v| v.is_finite()),
        spread: None,
        prediction_varies: None,
        residual: None,
        is_usable: None,
        precision: None,
    };
    so_far(&evidence)?;

    let mean_x = x.iter().sum::<Scalar>() / nf;
    let mean_rho = rho.iter().sum::<Scalar>() / nf;
    let sxx: Scalar = x.iter().map(|v| (v - mean_x).powi(2)).sum();
    let srr: Scalar = rho.iter().map(|v| (v - mean_rho).powi(2)).sum();
    let spread = if mean_x.abs() > 1e-18 {
        (sxx / nf).sqrt() / mean_x.abs()
    } else {
        0.0
    };
    evidence.spread = Some(Gate {
        measured: spread,
        threshold: config.min_relative_depth_spread,
        passes: spread.is_finite() && spread >= config.min_relative_depth_spread,
    });
    evidence.prediction_varies = Some(srr.is_finite() && srr > 0.0);
    so_far(&evidence)?;

    let sxr: Scalar = x.iter().zip(rho.iter()).map(|(a, b)| (a - mean_x) * (b - mean_rho)).sum();
    let u = sxr / sxx;
    let shift = u * mean_x - mean_rho;
    let sse: Scalar = x.iter().zip(rho.iter()).map(|(a, b)| (u * a - shift - b).powi(2)).sum();
    let residual_rms = (sse / nf).sqrt();
    let residual_ratio = residual_rms / (srr / nf).sqrt();
    evidence.residual = Some(Gate {
        measured: residual_ratio,
        threshold: config.max_residual_ratio,
        passes: !(residual_ratio > config.max_residual_ratio),
    });

    let scale = 1.0 / u;
    let dof = n.saturating_sub(2).max(1) as Scalar;
    let var_u = (sse / dof) / sxx;
    let variance = var_u / u.powi(4) + (gain_relative_stddev * scale).powi(2);
    evidence.is_usable =
        Some(u.is_finite() && u > 0.0 && variance.is_finite() && variance >= 0.0);
    so_far(&evidence)?;

    let solution = LearnedSolution {
        scale,
        variance,
        shift,
        residual_rms,
        residual_ratio,
        relative_depth_spread: spread,
        samples: n,
    };
    let rel = variance.sqrt() / scale.abs();
    evidence.precision = Some(Gate {
        measured: rel,
        threshold: config.max_relative_stddev,
        passes: !(rel > config.max_relative_stddev),
    });
    so_far(&evidence)?;
    Ok(solution)
}

/// A depth model that knows the scene: it sees inverse depth through a gain and a shift.
struct Model {
    gain: Scalar,
    declared_gain: Scalar,
    shift: Scalar,
    depth: fn(Scalar, Scalar) -> Scalar,
}

impl Model {
    fn new(gain: Scalar, shift: Scalar, depth: fn(Scalar, Scalar) -> Scalar) -> Model {
        Model {
            gain,
            declared_gain: gain,
            shift,
            depth,
        }
    }

    fn predict(&self) -> InverseDepth {
        let mut data = Vec::new();
        for y in 0..H {
            for x in 0..W {
                let u = (Scalar::from(x) + 0.5) / Scalar::from(W);
                let v = (Scalar::from(y) + 0.5) / Scalar::from(H);
                data.push((1.0 / (self.depth)(u, v) - self.shift) / self.gain);
            }
        }
        InverseDepth::new(W, H, data).expect("a full grid")
    }
}

/// A point of the reconstruction: where it is seen, and how far away it is in units.
struct StructurePoint {
    pixel: (Scalar, Scalar),
    depth_units: Scalar,
}

/// The ruler: a model, its samples and what came of its fits.
struct LearnedScale {
    model: Option<Model>,
    config: LearnedConfig,
    samples: RecentLog<DepthSample>,
    log: SolveLog<LearnedSolution, LearnedRejection>,
}

impl LearnedScale {
    fn new(model: Option<Model>) -> LearnedScale {
        let config = LearnedConfig::default();
        LearnedScale {
            model,
            config,
            samples: RecentLog::new(config.max_samples),
            log: SolveLog::new(),
        }
    }

    fn observe(&mut self, at: Scalar, points: &[StructurePoint]) -> usize {
        let Some(model) = &self.model else {
            return 0;
        };
        let prediction = model.predict();
        let mut added = 0;
        for p in points {
            let u = (p.pixel.0 + 0.5) / Scalar::from(W);
            let v = (p.pixel.1 + 0.5) / Scalar::from(H);
            if let Some(predicted) = sample_normalized(&prediction, u, v) {
                self.samples.push(DepthSample {
                    timestamp: at,
                    predicted,
                    inverse_depth_units: 1.0 / p.depth_units,
                });
                added += 1;
            }
        }
        added
    }

    fn held(&self) -> Vec<DepthSample> {
        (0..self.samples.len())
            .filter_map(|i| self.samples.get(i).copied())
            .collect()
    }

    /// The multiplier, against poses given by their time and their landmarks.
    fn estimate(&mut self, window: &[(Scalar, usize)]) -> Option<Scalar> {
        let usable: Vec<DepthSample> = self
            .held()
            .into_iter()
            .filter(|s| {
                let distances: Vec<u64> = window
                    .iter()
                    .map(|(t, _)| key((t - s.timestamp).abs()))
                    .collect();
                let nearest = nearest_within(&distances, key(self.config.max_time_delta));
                is_usable(nearest.map(|i| window[i].1), self.config.min_landmarks)
            })
            .collect();
        let gain = self.model.as_ref().map_or(1.0, |m| m.declared_gain);
        let outcome = fit_scale_and_shift(&usable, gain, 0.05, &self.config);
        if self.log.record(outcome) {
            self.log.last_solution().map(|s| s.scale)
        } else {
            None
        }
    }
}

fn key(v: Scalar) -> u64 {
    wslam::order::total_order_key(v.to_bits())
}

fn close(a: Scalar, b: Scalar, epsilon: Scalar) {
    assert!((a - b).abs() <= epsilon, "{a} vs {b}");
}

/// A floor that slants away, from one metre at the top to four at the bottom.
fn slanted_floor(_u: Scalar, v: Scalar) -> Scalar {
    1.0 + 3.0 * v
}

/// Points of the floor in units, on the centres of grid cells.
fn structure(scale: Scalar, rows: u32) -> Vec<StructurePoint> {
    let stride = H / rows;
    (0..rows)
        .map(|i| {
            let py = Scalar::from(i * stride);
            let v = (py + 0.5) / Scalar::from(H);
            StructurePoint {
                pixel: (Scalar::from(W / 2), py),
                depth_units: slanted_floor(0.5, v) / scale,
            }
        })
        .collect()
}

/// A ruler that has seen the floor once.
fn seen(model: Model, truth: Scalar) -> LearnedScale {
    let mut source = LearnedScale::new(Some(model));
    assert_eq!(source.observe(1.0, &structure(truth, 24)), 24);
    source
}

#[test]
fn inverse_depth_samples_its_own_pixels_exactly() {
    let data: Vec<Scalar> = (0..12).map(Scalar::from).collect();
    let d = InverseDepth::new(4, 3, data).unwrap();
    for y in 0..3u32 {
        for x in 0..4u32 {
            let u = (Scalar::from(x) + 0.5) / 4.0;
            let v = (Scalar::from(y) + 0.5) / 3.0;
            close(
                sample_normalized(&d, u, v).unwrap(),
                Scalar::from(y * 4 + x),
                1e-12,
            );
        }
    }
    assert!(sample_normalized(&d, -0.1, 0.5).is_none());
    assert!(sample_normalized(&d, 0.5, 1.0).is_none());
}

#[test]
fn recovers_a_known_scale_from_a_consistent_model() {
    let truth = 0.37;
    let mut source = seen(Model::new(0.8, 0.13, slanted_floor), truth);
    let value = source
        .estimate(&[(1.0, 60)])
        .expect("consistent model must answer");
    close(value, truth, 1e-9);
    let solution = source.log.last_solution().unwrap();
    assert!(
        solution.residual_ratio < 1e-9,
        "consistent model must fit exactly, got {}",
        solution.residual_ratio
    );
    close(solution.variance.sqrt() / solution.scale, 0.05, 1e-6);
    close(solution.shift, 0.13, 1e-9);
}

#[test]
fn declines_when_the_model_disagrees_with_the_structure() {
    let mut source = seen(Model::new(0.8, 0.13, |_u, v| 1.0 + 6.0 * (v - 0.5).abs()), 0.37);
    assert!(
        source.estimate(&[(1.0, 60)]).is_none(),
        "an inconsistent prior must decline, not guess"
    );
    match source.log.last_rejection() {
        Some(LearnedRejection::Inconsistent { residual_ratio, .. }) => {
            assert!(*residual_ratio > 0.1, "ratio {residual_ratio}");
        }
        other => panic!("expected Inconsistent, got {other:?}"),
    }
}

#[test]
fn declines_on_a_single_depth_scene_where_scale_and_shift_are_exchangeable() {
    let truth = 0.37;
    let mut source = LearnedScale::new(Some(Model::new(0.8, 0.0, |_u, _v| 2.5)));
    let points: Vec<StructurePoint> = (0..24)
        .map(|i| StructurePoint {
            pixel: (Scalar::from(W / 2), Scalar::from(i)),
            depth_units: 2.5 / truth,
        })
        .collect();
    source.observe(1.0, &points);
    assert!(source.estimate(&[(1.0, 60)]).is_none());
    assert!(matches!(
        source.log.last_rejection(),
        Some(LearnedRejection::NoDepthSpread { .. })
    ));
}

#[test]
fn the_recovered_scale_is_invariant_to_the_models_shift() {
    let truth = 0.37;
    for shift in [-2.0, 0.0, 0.19, 7.5] {
        let mut source = seen(Model::new(0.8, shift, slanted_floor), truth);
        close(source.estimate(&[(1.0, 60)]).unwrap(), truth, 1e-9);
    }
}

#[test]
fn the_recovered_scale_is_exactly_inverse_in_the_declared_gain() {
    let truth = 0.37;
    for (factor, want) in [(0.5, truth / 0.5), (1.0, truth), (2.0, truth / 2.0)] {
        let mut model = Model::new(0.8, 0.13, slanted_floor);
        model.declared_gain = model.gain * factor;
        let mut source = seen(model, truth);
        close(source.estimate(&[(1.0, 60)]).unwrap(), want, 1e-9);
    }
}

#[test]
fn samples_that_do_not_associate_with_a_window_pose_are_not_used() {
    let mut source = seen(Model::new(0.8, 0.13, slanted_floor), 0.37);
    assert!(source.estimate(&[(2.0, 60)]).is_none());
    assert!(matches!(
        source.log.last_rejection(),
        Some(LearnedRejection::InsufficientSamples { have: 0, .. })
    ));
    assert!(source.estimate(&[(1.0, 3)]).is_none());
    assert!(source.estimate(&[(1.0, 60)]).is_some());
}

#[test]
fn a_model_that_declines_the_frame_adds_nothing() {
    let mut source = LearnedScale::new(None);
    assert_eq!(source.observe(1.0, &structure(0.37, 24)), 0);
    assert!(source.estimate(&[(1.0, 60)]).is_none());
}

#[test]
fn a_model_with_a_nonsense_gain_is_degenerate_not_a_panic() {
    let source = seen(Model::new(0.8, 0.13, slanted_floor), 0.37);
    for bad in [0.0, -1.0, Scalar::NAN, Scalar::INFINITY] {
        assert!(matches!(
            fit_scale_and_shift(&source.held(), bad, 0.05, &LearnedConfig::default()),
            Err(LearnedRejection::Degenerate)
        ));
    }
}

#[test]
fn an_inverted_depth_ordering_is_degenerate_rather_than_a_negative_scale() {
    let model = Model::new(0.8, 0.13, |_u, v| 1.0 / (1.5 - 1.0 / (1.0 + 3.0 * v)));
    let mut source = seen(model, 0.37);
    assert!(source.estimate(&[(1.0, 60)]).is_none());
    assert!(matches!(
        source.log.last_rejection(),
        Some(LearnedRejection::Degenerate)
    ));
}
