//! Lucas-Kanade flow over the library's walk through the levels, on rendered textures.

use wslam::raster::GrayImage;
use wslam::track::klt::{
    after_round_trip, begin_level, level_report, may_step, needs_round_trip, starting_level,
    stepped, unchecked, DirectedFlow, KltStatus, LevelEvent,
};
use wslam::track::pyramid::{Pyramid, PyramidConfig, PyramidFilter};

type Scalar = f64;
type Vec2 = nalgebra::Vector2<f64>;
type KltTrack = wslam::track::klt::KltTrack<Vec2, Scalar>;

/// The brightness at a point, bilinear between pixels and clamped at the edge.
fn sample_bilinear(image: &GrayImage, x: Scalar, y: Scalar) -> Scalar {
    let (x0, y0) = (x.floor(), y.floor());
    let (fx, fy) = (x - x0, y - y0);
    let (ix, iy) = (x0 as i32, y0 as i32);
    let at = |dx: i32, dy: i32| {
        Scalar::from(image.at(ix.saturating_add(dx), iy.saturating_add(dy)))
    };
    (at(0, 0) * (1.0 - fx) + at(1, 0) * fx) * (1.0 - fy)
        + (at(0, 1) * (1.0 - fx) + at(1, 1) * fx) * fy
}

/// The brightness gradient at a point, by central differences.
fn gradient_bilinear(image: &GrayImage, x: Scalar, y: Scalar) -> Vec2 {
    Vec2::new(
        0.5 * (sample_bilinear(image, x + 1.0, y) - sample_bilinear(image, x - 1.0, y)),
        0.5 * (sample_bilinear(image, x, y + 1.0) - sample_bilinear(image, x, y - 1.0)),
    )
}

/// A pixel of an image as a pixel of the same image at another size. Pixel centres are kept.
fn scale_point(px: Vec2, factor: Scalar) -> Vec2 {
    Vec2::new((px.x + 0.5) * factor - 0.5, (px.y + 0.5) * factor - 0.5)
}

/// A pixel of the full image as a pixel of pyramid level `level`.
fn to_level(px: Vec2, level: u32) -> Vec2 {
    scale_point(px, 0.5_f64.powi(level as i32))
}

/// A pixel of pyramid level `level` as a pixel of the full image.
fn from_level(px: Vec2, level: u32) -> Vec2 {
    scale_point(px, 2.0_f64.powi(level as i32))
}

/// How a feature is followed.
#[derive(Debug, Clone, Copy, PartialEq)]
struct KltConfig {
    /// Half the side of the patch.
    window_radius: u32,
    /// Most steps on one level.
    max_iterations: u32,
    /// A step shorter than this ends a level.
    epsilon: Scalar,
    /// Largest mean absolute difference of a usable track.
    max_error: Scalar,
    /// Least eigenvalue of a patch with enough structure.
    min_eigenvalue: Scalar,
    /// How far the way back may miss the start, or `None` to skip the way back.
    forward_backward: Option<Scalar>,
    /// Pixels that a patch keeps from the edge.
    border: Scalar,
    /// Coarsest level to use.
    max_level: u32,
}

impl Default for KltConfig {
    fn default() -> Self {
        KltConfig {
            window_radius: 5,
            max_iterations: 24,
            epsilon: 0.01,
            max_error: 28.0,
            min_eigenvalue: 1e-3,
            forward_backward: Some(1.0),
            border: 1.0,
            max_level: u32::MAX,
        }
    }
}

/// Follow every point, from its guess where there is one.
fn track(
    prev: &Pyramid,
    next: &Pyramid,
    points: &[Vec2],
    guesses: Option<&[Vec2]>,
    config: &KltConfig,
) -> Vec<KltTrack> {
    points
        .iter()
        .enumerate()
        .map(|(i, &p)| {
            let guess = guesses.and_then(|g| g.get(i).copied()).unwrap_or(p);
            track_one(prev, next, p, guess, config)
        }).collect()
}

/// Follow one point there and, where the config asks for it, back again.
fn track_one(
    prev: &Pyramid,
    next: &Pyramid,
    point: Vec2,
    guess: Vec2,
    config: &KltConfig,
) -> KltTrack {
    let forward = track_directed(prev, next, point, guess, config);
    let Some(tolerance) = config.forward_backward else {
        return unchecked(&forward, 0.0);
    };
    if !needs_round_trip(&forward, true) {
        return forward;
    }
    let back_seed = forward.px - (guess - point);
    let back = track_directed(next, prev, forward.px, back_seed, config);
    let miss = if back.ok() {
        (back.px - point).norm()
    } else {
        Scalar::INFINITY
    };
    after_round_trip(&forward, miss, miss > tolerance)
}

/// Follow one point in one direction.
fn track_directed(
    prev: &Pyramid,
    next: &Pyramid,
    point: Vec2,
    guess: Vec2,
    config: &KltConfig,
) -> KltTrack {
    let top = starting_level(prev.top_level(), next.top_level(), config.max_level);
    let mut flow = DirectedFlow::start(top, guess, Scalar::INFINITY);
    while let Some(level) = flow.level {
        let event = match (prev.level(level), next.level(level)) {
            (Some(template), Some(target)) => {
                let t_px = to_level(point, level);
                let g_px = to_level(flow.current, level);
                if patch_fits(template, t_px, config) {
                    solve_level(template, target, t_px, g_px, level, config)
                } else {
                    LevelEvent::Skipped
                }
            }
            _ => LevelEvent::Skipped,
        };
        flow.advance(event);
    }
    flow.finish(flow.error > config.max_error, 0.0, Scalar::INFINITY)
}

fn patch_fits(image: &GrayImage, px: Vec2, config: &KltConfig) -> bool {
    let m = Scalar::from(config.window_radius) + config.border + 1.0;
    px.x >= m
        && px.y >= m
        && px.x <= Scalar::from(image.width()) - 1.0 - m
        && px.y <= Scalar::from(image.height()) - 1.0 - m
}

/// The flow on one level: floating-point least squares on a patch.
fn solve_level(
    template: &GrayImage,
    target: &GrayImage,
    t_px: Vec2,
    mut g_px: Vec2,
    level: u32,
    config: &KltConfig,
) -> LevelEvent<Vec2, Scalar> {
    let r = config.window_radius.max(1) as i32;
    let side = (2 * r + 1) as usize;
    let n = side * side;

    let mut patch = Vec::with_capacity(n);
    let mut grad = Vec::with_capacity(n);
    let mut h = nalgebra::Matrix2::<Scalar>::zeros();
    for dy in -r..=r {
        for dx in -r..=r {
            let (px, py) = (t_px.x + Scalar::from(dx), t_px.y + Scalar::from(dy));
            let g = gradient_bilinear(template, px, py);
            patch.push(sample_bilinear(template, px, py));
            h += g * g.transpose();
            grad.push(g);
        }
    }

    let inv_n = 1.0 / n as Scalar;
    let (a, b, c) = (h[(0, 0)] * inv_n, h[(0, 1)] * inv_n, h[(1, 1)] * inv_n);
    let lambda_min = 0.5 * ((a + c) - ((a - c) * (a - c) + 4.0 * b * b).max(0.0).sqrt());
    let ill_conditioned = LevelEvent::Failed { status: KltStatus::IllConditioned };
    if lambda_min < config.min_eigenvalue {
        return ill_conditioned;
    }
    let Some(h_inv) = h.try_inverse() else {
        return ill_conditioned;
    };

    let differences = |at: Vec2| -> Vec<Scalar> {
        let mut out = Vec::with_capacity(n);
        for dy in -r..=r {
            for dx in -r..=r {
                let v = sample_bilinear(target, at.x + Scalar::from(dx), at.y + Scalar::from(dy));
                out.push(v - patch[out.len()]);
            }
        }
        out
    };

    let mut progress = begin_level(config.max_iterations);
    while may_step(&mut progress, patch_fits(target, g_px, config)) {
        let mut rhs = Vec2::zeros();
        for (g, d) in grad.iter().zip(differences(g_px)) {
            rhs += g * d;
        }
        let delta = h_inv * rhs;
        g_px -= delta;
        stepped(&mut progress, delta.norm() < config.epsilon);
    }
    let (converged, out_of_bounds) = level_report(progress, patch_fits(target, g_px, config));
    let error = if out_of_bounds {
        Scalar::INFINITY
    } else {
        differences(g_px).iter().map(|d| d.abs()).sum::<Scalar>() * inv_n
    };
    LevelEvent::Solved { px: from_level(g_px, level), error, converged, out_of_bounds }
}

/// An aperiodic texture, known at every point.
fn texture(x: Scalar, y: Scalar) -> Scalar {
    128.0
        + 52.0 * (0.029 * x + 0.017 * y).sin()
        + 34.0 * (0.101 * x - 0.063 * y).cos()
        + 20.0 * (0.181 * x).sin() * (0.149 * y).cos()
        + 12.0 * (0.331 * x + 0.257 * y).sin()
}

fn render(w: u32, h: u32, f: impl Fn(Scalar, Scalar) -> Scalar) -> GrayImage {
    let mut img = GrayImage::new(w, h);
    for y in 0..h {
        for x in 0..w {
            let v = f(Scalar::from(x), Scalar::from(y));
            img.set(x, y, v.round().clamp(0.0, 255.0) as u8);
        }
    }
    img
}

fn pyr(img: &GrayImage, levels: u32) -> Pyramid {
    Pyramid::build(
        img,
        &PyramidConfig {
            levels,
            filter: PyramidFilter::Binomial,
        },
    )
}

/// Two views of the texture, the second shifted by `(dx, dy)`.
fn shifted_pair(w: u32, h: u32, dx: Scalar, dy: Scalar, levels: u32) -> (Pyramid, Pyramid) {
    let a = render(w, h, texture);
    let b = render(w, h, |x, y| texture(x - dx, y - dy));
    (pyr(&a, levels), pyr(&b, levels))
}

#[test]
fn recovers_an_integer_translation() {
    let (a, b) = shifted_pair(256, 256, 3.0, -2.0, 3);
    let p = Vec2::new(120.0, 130.0);
    let t = track_one(&a, &b, p, p, &KltConfig::default());
    assert!(t.ok(), "{t:?}");
    assert!((t.px - Vec2::new(123.0, 128.0)).norm() < 0.05, "{:?}", t.px);
}

#[test]
fn recovers_a_subpixel_translation_to_a_tenth_of_a_pixel() {
    let (a, b) = shifted_pair(256, 256, 3.4, 1.6, 3);
    let cfg = KltConfig::default();
    let mut worst: Scalar = 0.0;
    for &(x, y) in &[
        (80.0, 90.0),
        (128.0, 128.0),
        (170.0, 70.0),
        (100.0, 180.0),
        (60.0, 160.0),
    ] {
        let p = Vec2::new(x, y);
        let t = track_one(&a, &b, p, p, &cfg);
        assert!(t.ok(), "at {p:?}: {t:?}");
        let err = (t.px - (p + Vec2::new(3.4, 1.6))).norm();
        worst = worst.max(err);
    }
    assert!(worst < 0.1, "worst sub-pixel error {worst} px");
}

#[test]
fn tracks_in_the_reported_direction() {
    let (a, b) = shifted_pair(256, 256, 5.0, 0.0, 3);
    let p = Vec2::new(128.0, 128.0);
    let t = track_one(&a, &b, p, p, &KltConfig::default());
    assert!(t.ok());
    assert!(t.px.x > p.x, "expected +x motion, got {:?}", t.px);
}

#[test]
fn pyramid_earns_its_place_on_a_large_displacement() {
    let (a4, b4) = shifted_pair(320, 320, 17.0, -11.0, 4);
    let p = Vec2::new(160.0, 170.0);
    let truth = p + Vec2::new(17.0, -11.0);

    let single = KltConfig {
        max_level: 0,
        ..KltConfig::default()
    };
    let one = track_directed(&a4, &b4, p, p, &single);
    let single_err = (one.px - truth).norm();
    assert!(
        !one.ok() || single_err > 2.0,
        "single level should not solve a 17 px jump, got {one:?} (err {single_err})"
    );

    let many = track_one(&a4, &b4, p, p, &KltConfig::default());
    assert!(many.ok(), "{many:?}");
    assert!(
        (many.px - truth).norm() < 0.25,
        "multi-level error {} px",
        (many.px - truth).norm()
    );
}

#[test]
fn a_prediction_rescues_the_single_level_case() {
    let (a, b) = shifted_pair(320, 320, 17.0, -11.0, 1);
    let p = Vec2::new(160.0, 170.0);
    let truth = p + Vec2::new(17.0, -11.0);
    let guess = truth + Vec2::new(0.7, -0.6);
    let t = track_one(&a, &b, p, guess, &KltConfig::default());
    assert!(t.ok(), "{t:?}");
    assert!((t.px - truth).norm() < 0.15, "{:?}", t.px);
    assert!(t.fb_error < 0.15, "fb {}", t.fb_error);
}

#[test]
fn forward_backward_passes_a_true_translation() {
    let (a, b) = shifted_pair(256, 256, 2.5, -1.25, 3);
    let p = Vec2::new(140.0, 110.0);
    let t = track_one(&a, &b, p, p, &KltConfig::default());
    assert!(t.ok());
    assert!(t.fb_error < 0.05, "fb {} px", t.fb_error);
}

#[test]
fn forward_backward_rejects_a_track_into_a_blank_region() {
    let a = render(256, 256, texture);
    let occluded = render(
        256,
        256,
        |x, y| if x > 110.0 { 128.0 } else { texture(x, y) },
    );
    let (pa, pb) = (pyr(&a, 3), pyr(&occluded, 3));

    let unchecked = KltConfig {
        max_error: Scalar::INFINITY,
        forward_backward: None,
        ..KltConfig::default()
    };
    let checked = KltConfig {
        forward_backward: Some(1.0),
        ..unchecked
    };

    let inside_blank = Vec2::new(128.0, 128.0);
    let without = track_one(&pa, &pb, inside_blank, inside_blank, &unchecked);
    assert!(
        without.ok(),
        "fixture is wrong: the forward pass must look healthy, got {without:?}"
    );
    let with = track_one(&pa, &pb, inside_blank, inside_blank, &checked);
    assert_eq!(with.status, KltStatus::InconsistentBackward, "{with:?}");
    assert!(!with.ok());

    let visible = Vec2::new(100.0, 90.0);
    let good = track_one(&pa, &pb, visible, visible, &checked);
    assert!(good.ok(), "{good:?}");
    assert!((good.px - visible).norm() < 0.01);
}

#[test]
fn a_flat_template_is_rejected_as_ill_conditioned() {
    let flat = render(128, 128, |_, _| 100.0);
    let (a, b) = (pyr(&flat, 3), pyr(&flat, 3));
    let t = track_one(
        &a,
        &b,
        Vec2::new(64.0, 64.0),
        Vec2::new(64.0, 64.0),
        &KltConfig::default(),
    );
    assert_eq!(t.status, KltStatus::IllConditioned);
}

#[test]
fn a_one_dimensional_template_is_rejected_aperture_problem() {
    let stripes = render(128, 128, |x, _| 128.0 + 100.0 * (0.2 * x).sin());
    let (a, b) = (pyr(&stripes, 2), pyr(&stripes, 2));
    let t = track_one(
        &a,
        &b,
        Vec2::new(64.0, 64.0),
        Vec2::new(64.0, 64.0),
        &KltConfig::default(),
    );
    assert_eq!(t.status, KltStatus::IllConditioned);
}

#[test]
fn a_track_leaving_the_frame_is_out_of_bounds_not_a_pose() {
    let (a, b) = shifted_pair(160, 160, 0.0, 0.0, 2);
    let p = Vec2::new(80.0, 80.0);
    let t = track_one(&a, &b, p, Vec2::new(300.0, 80.0), &KltConfig::default());
    assert_eq!(t.status, KltStatus::OutOfBounds);
}

#[test]
fn high_photometric_error_is_rejected() {
    let a = render(256, 256, texture);
    let b = render(256, 256, |x, y| 255.0 - texture(x, y));
    let (pa, pb) = (pyr(&a, 3), pyr(&b, 3));
    let p = Vec2::new(128.0, 128.0);
    let t = track_one(&pa, &pb, p, p, &KltConfig::default());
    assert!(!t.ok(), "{t:?}");
}

#[test]
fn batch_tracking_matches_point_by_point() {
    let (a, b) = shifted_pair(256, 256, 2.0, 3.0, 3);
    let pts: Vec<Vec2> = (0..8)
        .map(|i| Vec2::new(70.0 + 15.0 * i as Scalar, 90.0 + 9.0 * i as Scalar))
        .collect();
    let cfg = KltConfig::default();
    let batch = track(&a, &b, &pts, None, &cfg);
    assert_eq!(batch.len(), pts.len());
    for (i, p) in pts.iter().enumerate() {
        let single = track_one(&a, &b, *p, *p, &cfg);
        assert_eq!(batch[i].px.x.to_bits(), single.px.x.to_bits());
        assert_eq!(batch[i].status, single.status);
    }
}

#[test]
fn guesses_are_applied_per_point() {
    let (a, b) = shifted_pair(320, 320, 15.0, 0.0, 3);
    let pts = vec![Vec2::new(150.0, 150.0), Vec2::new(180.0, 200.0)];
    let guesses = vec![Vec2::new(165.0, 150.0), Vec2::new(195.0, 200.0)];
    let out = track(&a, &b, &pts, Some(&guesses), &KltConfig::default());
    for (i, t) in out.iter().enumerate() {
        assert!(t.ok(), "{t:?}");
        assert!((t.px - (pts[i] + Vec2::new(15.0, 0.0))).norm() < 0.2);
    }
}

#[test]
fn identical_inputs_give_bit_identical_output() {
    let (a, b) = shifted_pair(192, 192, 1.7, -0.9, 3);
    let pts: Vec<Vec2> = (0..12)
        .map(|i| Vec2::new(60.0 + 8.0 * i as Scalar, 70.0 + 5.0 * i as Scalar))
        .collect();
    let cfg = KltConfig::default();
    let x = track(&a, &b, &pts, None, &cfg);
    let y = track(&a, &b, &pts, None, &cfg);
    for (p, q) in x.iter().zip(y.iter()) {
        assert_eq!(p.px.x.to_bits(), q.px.x.to_bits());
        assert_eq!(p.px.y.to_bits(), q.px.y.to_bits());
        assert_eq!(p.error.to_bits(), q.error.to_bits());
    }
}
