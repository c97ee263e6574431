//! Pyramids, corners, flow, pose search and bundle adjustment bookkeeping.

use wslam::order::{
    first_least, last_greatest, reversed, stable_order, total_order_key, upper_median, SortKey,
};
use wslam::raster::GrayImage;
use wslam::track::corners::{
    select_corners, take_clear, tensor_sums, Corner, CornerConfig, RefineEvent, Refinement,
    ResponseMap, TensorTerm, ZERO_RESPONSE,
};
use wslam::track::damping::{Damping, DampedSolve, Trial};
use wslam::track::init::{
    choose_model, enough_matches, evidence, is_ambiguous, leader, polished, reconstruct,
    wants_polish, Bars, Evidence, InitModel, ModelFit, ModelSearch,
};
use wslam::track::klt::{
    after_round_trip, needs_round_trip, prediction_wins, reported_status, starting_level,
    trial_features, trial_is_possible, unchecked, DirectedFlow, KltStatus, KltTrack, LevelEvent,
};
use wslam::track::local_ba::{
    apply, is_accepted, outliers, plan, Layout, LocalBaProblem, Observation, SolvedWindow,
};
use wslam::track::motion_ba::{
    classify, constrains_a_pose, count_flags, is_selected, pick, MIN_VISIBLE,
};
use wslam::track::pnp::{
    is_solvable, is_supported, least_total, prefers_linear_seed, refit_round, start_refit,
    Consensus, Hypothesis, Refit, RefitOutcome,
};
use wslam::track::pyramid::{
    downsample_binomial, downsample_half, Pyramid, PyramidConfig, PyramidFilter,
};
use wslam::track::triangulate::{judge, Candidate, TriangulationRejection, ViewCheck};

fn key(v: f64) -> u64 {
    total_order_key(v.to_bits())
}

// --------------------------------------------------------------------- order

#[test]
fn keys_order_like_the_numbers_they_stand_for() {
    let values = [
        f64::NEG_INFINITY,
        -3.5,
        -1e-300,
        -0.0,
        0.0,
        1e-300,
        2.25,
        f64::INFINITY,
    ];
    for w in values.windows(2) {
        assert!(key(w[0]) < key(w[1]), "{} before {}", w[0], w[1]);
        assert!(reversed(key(w[0])) > reversed(key(w[1])));
    }
    assert_eq!(key(0.0), ZERO_RESPONSE);
}

#[test]
fn extremes_of_a_list() {
    assert_eq!(last_greatest(&vec![3, 7, 7, 1]), Some(2));
    assert_eq!(first_least(&vec![3, 1, 7, 1]), Some(1));
    assert_eq!(last_greatest(&Vec::new()), None);
    assert_eq!(first_least(&Vec::new()), None);
}

#[test]
fn sorting_is_stable() {
    let k = |major, minor| SortKey {
        major,
        minor,
        last: 0,
    };
    let keys = vec![k(2, 0), k(1, 5), k(2, 0), k(1, 4), k(0, 9)];
    assert_eq!(stable_order(&keys), vec![4, 3, 1, 0, 2]);
}

#[test]
fn the_median_is_the_upper_one() {
    assert_eq!(upper_median(&vec![5, 1, 4, 2]), Some(4));
    assert_eq!(upper_median(&vec![9, 1, 5]), Some(5));
    assert_eq!(upper_median(&vec![3, 3, 3, 8]), Some(3));
    assert_eq!(upper_median(&Vec::new()), None);
}

// ------------------------------------------------------------------- pyramid

fn texture(x: f64, y: f64) -> f64 {
    128.0
        + 55.0 * (0.031 * x + 0.019 * y).sin()
        + 38.0 * (0.113 * x - 0.071 * y).cos()
        + 22.0 * (0.211 * x).sin() * (0.173 * y).cos()
}

fn render(width: u32, height: u32, f: impl Fn(f64, f64) -> f64) -> GrayImage {
    let mut img = GrayImage::new(width, height);
    for y in 0..height {
        for x in 0..width {
            img.set(
                x,
                y,
                f(x as f64, y as f64).round().clamp(0.0, 255.0) as u8,
            );
        }
    }
    img
}

fn same(a: &GrayImage, b: &GrayImage) -> bool {
    a.width() == b.width() && a.height() == b.height() && a.data() == b.data()
}

#[test]
fn level_dimensions_halve() {
    let img = render(640, 480, texture);
    let p = Pyramid::with_levels(&img, 4);
    assert_eq!(p.len(), 4);
    let dims: Vec<(u32, u32)> = (0..4)
        .map(|l| p.level(l).unwrap())
        .map(|i| (i.width(), i.height()))
        .collect();
    assert_eq!(dims, vec![(640, 480), (320, 240), (160, 120), (80, 60)]);
}

#[test]
fn levels_stop_before_the_image_gets_useless() {
    let img = render(64, 48, texture);
    let p = Pyramid::with_levels(&img, 8);
    assert_eq!(p.len(), 2);
    assert!(!p.is_empty());
    assert_eq!(p.top_level(), 1);
    assert!(p.level(5).is_none());
}

#[test]
fn binomial_filter_preserves_a_constant() {
    for v in [0u8, 1, 127, 128, 254, 255] {
        let img = GrayImage::from_data(32, 32, vec![v; 1024]).unwrap();
        let half = downsample_binomial(&img);
        assert!(
            half.data().iter().all(|&p| p == v),
            "constant {v} did not survive decimation"
        );
    }
}

#[test]
fn binomial_filter_attenuates_nyquist_where_box_does_not() {
    let stripes = render(
        64,
        64,
        |x, _| if (x as i32 / 2) % 2 == 0 { 0.0 } else { 255.0 },
    );
    let boxed = downsample_half(&stripes);
    let binom = downsample_binomial(&stripes);
    let spread = |i: &GrayImage| {
        let row: Vec<i32> = (16..48).map(|x| i.at(x, 16) as i32).collect();
        row.iter().max().unwrap() - row.iter().min().unwrap()
    };
    assert!(spread(&boxed) > 200, "box spread {}", spread(&boxed));
    assert!(spread(&binom) < 160, "binomial spread {}", spread(&binom));
}

#[test]
fn binomial_taps_are_centred_like_the_box_filter() {
    let ramp = render(64, 64, |x, _| x * 3.0);
    let boxed = downsample_half(&ramp);
    let binom = downsample_binomial(&ramp);
    for x in 4..28 {
        assert!(
            (boxed.at(x, 16) as i32 - binom.at(x, 16) as i32).abs() <= 1,
            "filters disagree at x={x}: box {} binomial {}",
            boxed.at(x, 16),
            binom.at(x, 16)
        );
    }
}

#[test]
fn box_filter_selected_by_config() {
    let img = render(64, 64, texture);
    let boxed = Pyramid::build(
        &img,
        &PyramidConfig {
            levels: 2,
            filter: PyramidFilter::Box,
        },
    );
    assert!(same(boxed.level(1).unwrap(), &downsample_half(&img)));
}

#[test]
fn single_level_pyramid_is_the_input() {
    let img = render(32, 32, texture);
    let p = Pyramid::with_levels(&img, 1);
    assert_eq!(p.len(), 1);
    assert!(same(p.base(), &img));
}

#[test]
fn pixels_outside_the_image_repeat_its_edge() {
    let img = GrayImage::from_data(2, 2, vec![1, 2, 3, 4]).unwrap();
    assert_eq!(img.at(-5, -5), 1);
    assert_eq!(img.at(9, 0), 2);
    assert_eq!(img.at(0, 9), 3);
    assert_eq!(img.get(1, 1), 4);
    assert!(GrayImage::from_data(2, 2, vec![1, 2, 3]).is_none());
    // The box filter rounds half up.
    assert_eq!(downsample_half(&img).get(0, 0), 3);
}

// ------------------------------------------------------------------- corners

fn filled(w: u32, h: u32, v: u8) -> GrayImage {
    GrayImage::from_data(w, h, vec![v; (w * h) as usize]).unwrap()
}

fn square(size: u32, lo: u32, hi: u32) -> GrayImage {
    let mut img = filled(size, size, 0);
    for y in lo..hi {
        for x in lo..hi {
            img.set(x, y, 255);
        }
    }
    img
}

/// The smaller eigenvalue of the structure tensor at every pixel.
fn responses(image: &GrayImage, block_radius: u32) -> Vec<f64> {
    let xx = tensor_sums(image, TensorTerm::Xx, block_radius);
    let xy = tensor_sums(image, TensorTerm::Xy, block_radius);
    let yy = tensor_sums(image, TensorTerm::Yy, block_radius);
    let side = 2 * block_radius + 1;
    let inv_area = 1.0f32 / (side * side) as f32;
    (0..xx.len())
        .map(|i| {
            let (a, b, c) = (
                xx[i] as f32 * 0.25 * inv_area,
                xy[i] as f32 * 0.25 * inv_area,
                yy[i] as f32 * 0.25 * inv_area,
            );
            let d = ((a - c) * (a - c) + 4.0 * b * b).max(0.0).sqrt();
            f64::from((0.5 * ((a + c) - d)).max(0.0))
        })
        .collect()
}

fn detect(
    image: &GrayImage,
    config: &CornerConfig,
    quality: f64,
    min_distance: f64,
    occupied: &[(u32, u32)],
) -> Vec<Corner> {
    let r = responses(image, config.block_radius);
    let peak = r.iter().fold(0.0f64, |a, &b| a.max(b));
    let map = ResponseMap::from_keys(
        image.width(),
        image.height(),
        r.iter().map(|&v| key(v)).collect(),
    )
    .unwrap();
    let min_sq = (min_distance * min_distance).ceil() as u64;
    let taken: Vec<bool> = (0..r.len())
        .map(|i| {
            let (x, y) = (
                (i % image.width() as usize) as i64,
                (i / image.width() as usize) as i64,
            );
            occupied.iter().any(|&(ox, oy)| {
                let (dx, dy) = (x - i64::from(ox), y - i64::from(oy));
                ((dx * dx + dy * dy) as u64) < min_sq
            })
        })
        .collect();
    select_corners(&map, config, key(peak * quality), &taken, min_sq)
}

#[test]
fn constant_image_has_zero_response_at_every_pyramid_level() {
    for v in [0u8, 64, 200, 255] {
        let img = filled(320, 240, v);
        let p = Pyramid::build(&img, &PyramidConfig::default());
        assert!(p.len() >= 3);
        for l in 0..p.len() as u32 {
            let level = p.level(l).unwrap();
            let r = responses(level, 3);
            assert!(
                r.iter().all(|&x| x == 0.0),
                "level {l} of a constant {v} image"
            );
            let map = ResponseMap::from_keys(
                level.width(),
                level.height(),
                r.iter().map(|&x| key(x)).collect(),
            )
            .unwrap();
            assert_eq!(map.max(), ZERO_RESPONSE);
            assert!(detect(level, &CornerConfig::default(), 0.01, 12.0, &[]).is_empty());
        }
    }
}

fn bilinear(image: &GrayImage, x: f64, y: f64) -> f64 {
    let (x0, y0) = (x.floor(), y.floor());
    let (fx, fy) = (x - x0, y - y0);
    let at = |dx: i32, dy: i32| f64::from(image.at(x0 as i32 + dx, y0 as i32 + dy));
    (at(0, 0) * (1.0 - fx) + at(1, 0) * fx) * (1.0 - fy)
        + (at(0, 1) * (1.0 - fx) + at(1, 1) * fx) * fy
}

/// Where the edges around a corner meet.
fn refine(
    image: &GrayImage,
    start: (f64, f64),
    radius: u32,
    iterations: u32,
    epsilon: f64,
) -> (f64, f64) {
    let r = radius as i32;
    let denom = f64::from((r + 1) * (r + 1));
    let mut going = Refinement::start(start, iterations);
    while going.left > 0 {
        let q = going.at;
        let (mut a, mut b) = ([0.0f64; 3], [0.0f64; 2]);
        for dy in -r..=r {
            for dx in -r..=r {
                let (px, py) = (q.0 + f64::from(dx), q.1 + f64::from(dy));
                let gx = 0.5 * (bilinear(image, px + 1.0, py) - bilinear(image, px - 1.0, py));
                let gy = 0.5 * (bilinear(image, px, py + 1.0) - bilinear(image, px, py - 1.0));
                let w = (1.0 - f64::from(dx * dx) / denom) * (1.0 - f64::from(dy * dy) / denom);
                let gg = [gx * gx * w, gx * gy * w, gy * gy * w];
                for (sum, term) in a.iter_mut().zip(gg) {
                    *sum += term;
                }
                b[0] += gg[0] * px + gg[1] * py;
                b[1] += gg[1] * px + gg[2] * py;
            }
        }
        let det = a[0] * a[2] - a[1] * a[1];
        if det == 0.0 {
            going.advance(RefineEvent::Singular);
            continue;
        }
        let next = (
            (a[2] * b[0] - a[1] * b[1]) / det,
            (a[0] * b[1] - a[1] * b[0]) / det,
        );
        let far = ((next.0 - start.0).powi(2) + (next.1 - start.1).powi(2)).sqrt();
        let step = ((next.0 - q.0).powi(2) + (next.1 - q.1).powi(2)).sqrt();
        going.advance(if far <= f64::from(r) {
            RefineEvent::Moved {
                at: next,
                settles: step < epsilon,
            }
        } else {
            RefineEvent::Strayed
        });
    }
    going.at
}

#[test]
fn subpixel_leaves_a_textureless_patch_where_it_found_it() {
    let img = filled(64, 64, 90);
    let p = (32.0, 32.0);
    assert_eq!(refine(&img, p, 4, 10, 1e-4), p);
}

#[test]
fn a_refinement_that_leaves_its_window_is_undone() {
    let mut going = Refinement::start((10.0, 10.0), 5);
    going.advance(RefineEvent::Moved {
        at: (12.0, 10.0),
        settles: false,
    });
    assert_eq!((going.at, going.left), ((12.0, 10.0), 4));
    let mut edge = going;
    edge.advance(RefineEvent::Singular);
    assert_eq!((edge.at, edge.left), ((12.0, 10.0), 0));
    going.advance(RefineEvent::Strayed);
    assert_eq!((going.at, going.left), ((10.0, 10.0), 0));
    going.advance(RefineEvent::Moved {
        at: (11.0, 10.0),
        settles: true,
    });
    assert_eq!(going.at, (10.0, 10.0), "it is over");
}

#[test]
fn subpixel_recovers_a_half_pixel_corner() {
    let img = square(96, 24, 72);
    let refined = refine(&img, (23.0, 23.0), 4, 20, 1e-4);
    let miss = ((refined.0 - 23.5).powi(2) + (refined.1 - 23.5).powi(2)).sqrt();
    assert!(miss < 0.1, "refined {refined:?}");
    assert!(miss < 0.2 * 0.5f64.sqrt());
}

#[test]
fn subpixel_recovers_an_off_grid_edge_intersection() {
    let (cx, cy) = (40.37, 30.62);
    let mut img = GrayImage::new(80, 64);
    for y in 0..64 {
        for x in 0..80 {
            let fx = (f64::from(x) + 0.5 - cx).clamp(0.0, 1.0);
            let fy = (f64::from(y) + 0.5 - cy).clamp(0.0, 1.0);
            let v = fx + fy - 2.0 * fx * fy;
            img.set(x, y, (v * 255.0).round() as u8);
        }
    }
    let refined = refine(&img, (40.0, 31.0), 5, 25, 1e-5);
    let miss = ((refined.0 - cx).powi(2) + (refined.1 - cy).powi(2)).sqrt();
    assert!(miss < 0.1, "refined {refined:?} vs truth ({cx}, {cy})");
}

#[test]
fn corners_found_elsewhere_are_masked_and_capped() {
    let clear = vec![true, false, true, true, true];
    assert_eq!(take_clear(&clear, 3), vec![0, 2, 3]);
    assert_eq!(take_clear(&clear, 9), vec![0, 2, 3, 4]);
    assert!(take_clear(&clear, 0).is_empty());
}

#[test]
fn finds_the_four_corners_of_a_square_and_not_its_edges() {
    let img = square(96, 24, 72);
    let cfg = CornerConfig {
        max_corners: 8,
        grid_cols: 2,
        grid_rows: 2,
        ..CornerConfig::default()
    };
    let found = detect(&img, &cfg, 0.05, 6.0, &[]);
    assert_eq!(found.len(), 4, "got {found:?}");
    let refined: Vec<(f64, f64)> = found
        .iter()
        .map(|c| {
            let start = (f64::from(c.x), f64::from(c.y));
            refine(&img, start, cfg.subpixel_radius, cfg.subpixel_iterations, 1e-3)
        })
        .collect();
    for (tx, ty) in [(23.5, 23.5), (71.5, 23.5), (23.5, 71.5), (71.5, 71.5)] {
        let best = refined
            .iter()
            .map(|c| ((c.0 - tx).powi(2) + (c.1 - ty).powi(2)).sqrt())
            .fold(f64::INFINITY, f64::min);
        assert!(best < 1.0, "no corner within 1 px of ({tx}, {ty})");
    }
}

#[test]
fn edge_midpoints_have_negligible_response() {
    let img = square(96, 24, 72);
    let r = responses(&img, 3);
    let at = |x: usize, y: usize| r[y * 96 + x];
    let corner = at(24, 24).max(at(23, 23));
    for (x, y) in [(48, 24), (48, 71), (24, 48), (71, 48)] {
        assert!(
            at(x, y) < 1e-3 * corner,
            "edge midpoint ({x},{y}) response {} vs corner {corner}",
            at(x, y)
        );
    }
}

fn lopsided_texture(size: u32) -> GrayImage {
    let mut img = filled(size, size, 128);
    let half = size / 2;
    for y in 0..size {
        for x in 0..size {
            let hot = x < half && y < half;
            let (period, amp) = if hot { (6u32, 127i32) } else { (24u32, 40i32) };
            let checker = ((x / period) % 2) ^ ((y / period) % 2);
            let v = 128 + if checker == 0 { amp } else { -amp };
            img.set(x, y, v.clamp(0, 255) as u8);
        }
    }
    img
}

fn quadrant_counts(corners: &[Corner], size: u32) -> [usize; 4] {
    let mut q = [0usize; 4];
    for c in corners {
        q[usize::from(2 * c.x >= size) + 2 * usize::from(2 * c.y >= size)] += 1;
    }
    q
}

#[test]
fn grid_bucketing_spreads_features_across_quadrants() {
    let img = lopsided_texture(256);
    let cfg = CornerConfig {
        max_corners: 80,
        grid_cols: 8,
        grid_rows: 8,
        ..CornerConfig::default()
    };
    let bucketed = detect(&img, &cfg, 0.01, 8.0, &[]);
    assert!(bucketed.len() >= 60, "only {} corners", bucketed.len());
    let q = quadrant_counts(&bucketed, 256);
    for (i, &n) in q.iter().enumerate() {
        assert!(n >= 8, "quadrant {i} got only {n} of {q:?}");
    }
}

#[test]
fn without_bucketing_features_clump_in_the_textured_quadrant() {
    let img = lopsided_texture(256);
    let cfg = CornerConfig {
        max_corners: 80,
        grid_cols: 1,
        grid_rows: 1,
        ..CornerConfig::default()
    };
    let flat = detect(&img, &cfg, 0.01, 8.0, &[]);
    let q = quadrant_counts(&flat, 256);
    assert!(
        q[0] as f64 > 0.85 * flat.len() as f64,
        "expected clumping, got {q:?}"
    );
}

fn apart(a: (u32, u32), b: (u32, u32)) -> f64 {
    let (dx, dy) = (
        f64::from(a.0) - f64::from(b.0),
        f64::from(a.1) - f64::from(b.1),
    );
    (dx * dx + dy * dy).sqrt()
}

#[test]
fn min_distance_is_respected() {
    let img = lopsided_texture(256);
    let cfg = CornerConfig {
        max_corners: 200,
        subpixel: false,
        ..CornerConfig::default()
    };
    let found = detect(&img, &cfg, 0.01, 14.0, &[]);
    assert!(found.len() > 20);
    for (i, a) in found.iter().enumerate() {
        for b in &found[i + 1..] {
            let d = apart((a.x, a.y), (b.x, b.y));
            assert!(d >= 14.0, "{a:?} and {b:?} are {d} apart");
        }
    }
}

#[test]
fn occupied_positions_are_avoided() {
    let img = lopsided_texture(256);
    let cfg = CornerConfig {
        max_corners: 60,
        subpixel: false,
        ..CornerConfig::default()
    };
    let first = detect(&img, &cfg, 0.01, 10.0, &[]);
    let occupied: Vec<(u32, u32)> = first.iter().map(|c| (c.x, c.y)).collect();
    let refill = detect(&img, &cfg, 0.01, 10.0, &occupied);
    for c in &refill {
        for &o in &occupied {
            assert!(apart((c.x, c.y), o) >= 10.0);
        }
    }
    assert!(!refill.is_empty(), "refill should still find gaps");
}

#[test]
fn detection_is_bit_identical_across_runs() {
    let img = lopsided_texture(192);
    let cfg = CornerConfig::default();
    let a = detect(&img, &cfg, 0.01, 12.0, &[]);
    let b = detect(&img, &cfg, 0.01, 12.0, &[]);
    assert_eq!(a.len(), b.len());
    for (x, y) in a.iter().zip(b.iter()) {
        assert_eq!((x.x, x.y, x.response), (y.x, y.y, y.response));
    }
}

#[test]
fn border_larger_than_the_image_yields_nothing_instead_of_panicking() {
    let img = lopsided_texture(32);
    let cfg = CornerConfig {
        border: 40,
        ..CornerConfig::default()
    };
    assert!(detect(&img, &cfg, 0.01, 12.0, &[]).is_empty());
}

#[test]
fn max_corners_zero_is_honoured() {
    let img = lopsided_texture(128);
    let cfg = CornerConfig {
        max_corners: 0,
        ..CornerConfig::default()
    };
    assert!(detect(&img, &cfg, 0.01, 12.0, &[]).is_empty());
}

#[test]
fn tensor_sums_are_exact() {
    // A step of 4 between the second and the third column: the central
    // difference is 2 on both of them, so its square sums to 16 quarters each.
    let mut img = filled(5, 5, 0);
    for y in 0..5 {
        for x in 2..5 {
            img.set(x, y, 4);
        }
    }
    let sums = tensor_sums(&img, TensorTerm::Xx, 1);
    assert_eq!(sums[2 * 5 + 2], 2 * 3 * 16);
    assert_eq!(sums[2 * 5 + 4], 0);
    assert!(tensor_sums(&img, TensorTerm::Yy, 1).iter().all(|&s| s == 0));
}

// ---------------------------------------------------------------------- flow

#[test]
fn flow_goes_from_coarse_to_fine() {
    assert_eq!(starting_level(3, 2, 10), 2);
    assert_eq!(starting_level(3, 3, 1), 1);
    let mut flow = DirectedFlow::start(2, 10, 0);
    assert_eq!(flow.level, Some(2));
    flow.advance(LevelEvent::Failed {
        status: KltStatus::IllConditioned,
    });
    flow.advance(LevelEvent::Skipped);
    assert_eq!(flow.level, Some(0));
    flow.advance(LevelEvent::Solved {
        px: 12,
        error: 3,
        converged: true,
        out_of_bounds: false,
    });
    assert_eq!(flow.level, None);
    let track = flow.finish(false, 0, 99);
    assert!(track.ok());
    assert_eq!((track.px, track.error), (12, 3));
    assert!(!flow.finish(true, 0, 99).ok());
}

#[test]
fn leaving_the_frame_ends_the_flow() {
    let mut flow = DirectedFlow::start(1, 10, 0);
    flow.advance(LevelEvent::Solved {
        px: 12,
        error: 3,
        converged: true,
        out_of_bounds: true,
    });
    assert_eq!(flow.level, None);
    let track = flow.finish(false, 0, 99);
    assert_eq!(track.status, KltStatus::OutOfBounds);
}

#[test]
fn a_round_trip_that_misses_is_inconsistent() {
    let forward = KltTrack {
        px: 5,
        status: KltStatus::Converged,
        error: 1,
        fb_error: 0,
    };
    assert!(needs_round_trip(&forward, true));
    assert!(!needs_round_trip(&forward, false));
    let missed = after_round_trip(&forward, 7, true);
    assert_eq!(missed.status, KltStatus::InconsistentBackward);
    assert_eq!(missed.fb_error, 7);
    let kept = after_round_trip(&forward, 7, false);
    assert!(kept.ok());
    assert_eq!(unchecked(&forward, 0).fb_error, 0);
    assert_eq!(reported_status(true, false), KltStatus::Converged);
    assert_eq!(reported_status(true, true), KltStatus::InconsistentBackward);
    assert_eq!(reported_status(false, false), KltStatus::NotConverged);
}

#[test]
fn a_prediction_has_to_win_its_trial() {
    assert!(!trial_is_possible(47));
    assert!(trial_is_possible(48));
    let at = trial_features(100);
    assert_eq!(at.len(), 24);
    assert_eq!((at[0], at[1], at[23]), (0, 4, 92));
    assert!(prediction_wins(20, 19));
    assert!(!prediction_wins(20, 20));
}

// ------------------------------------------------------------- damped solves

#[test]
fn cost_never_increases() {
    let mut solve = DampedSolve::start(key(100.0), 5, 8);
    let mut costs = vec![key(100.0)];
    for (cost, small) in [(90.0, false), (95.0, false), (80.0, false), (79.9, true)] {
        if !solve.is_running() {
            break;
        }
        let d = solve.record(Trial::Candidate {
            usable: true,
            cost: key(cost),
            settles: small,
        });
        if cost == 95.0 {
            assert_eq!(d, Damping::Grow);
        } else {
            assert_eq!(d, Damping::Shrink);
            costs.push(key(cost));
        }
    }
    assert!(solve.converged());
    assert!(!solve.is_running());
    assert_eq!(solve.accepted(), 3);
    assert_eq!(solve.history(), &costs[..]);
    assert!(solve.history().windows(2).all(|w| w[1] < w[0]));
}

#[test]
fn a_solve_that_cannot_improve_has_converged() {
    let mut solve = DampedSolve::start(key(1.0), 5, 3);
    for _ in 0..3 {
        assert!(solve.is_running());
        assert_eq!(solve.record(Trial::Unsolvable), Damping::Grow);
    }
    assert!(!solve.is_running());
    assert!(solve.converged());
    assert_eq!(solve.accepted(), 0);
}

// ------------------------------------------------------------------ motion BA

#[test]
fn masked_correspondences_are_never_inliers() {
    let mask = vec![true, false, true];
    assert!(is_selected(None, 9));
    assert!(is_selected(Some(&mask), 0));
    assert!(!is_selected(Some(&mask), 1));
    assert!(!is_selected(Some(&mask), 3));
    let hits = vec![true, true, false, true];
    let r = classify(5, Some(&mask), &hits);
    assert_eq!(r.flags, vec![true, false, false, false, false]);
    assert_eq!(r.count, 1);
    let r = classify(5, None, &hits);
    assert_eq!(r.flags, vec![true, true, false, true, false]);
    assert_eq!((r.count, count_flags(&r.flags)), (3, 3));
    assert!(constrains_a_pose(MIN_VISIBLE));
    assert!(!constrains_a_pose(2));
}

#[test]
fn picking_keeps_order_and_stops_at_the_shorter_list() {
    assert_eq!(pick(&vec![10, 20, 30, 40], &vec![true, false, true]), vec![10, 30]);
    assert_eq!(pick(&vec![10], &vec![true, true]), vec![10]);
}

// ------------------------------------------------------------------------ PnP

#[test]
fn ransac_rejects_inputs_it_cannot_solve() {
    assert!(!is_solvable(3, 3, 100, true));
    assert!(!is_solvable(10, 10, 0, true));
    assert!(!is_solvable(10, 10, 10, false));
    assert!(!is_solvable(10, 9, 10, true));
    assert!(is_solvable(10, 10, 10, true));
}

#[test]
fn the_search_keeps_the_best_supported_pose() {
    let mut c = Consensus::start(10, key(f64::INFINITY));
    for (pose, count, error) in [('a', 5, 2.0), ('b', 5, 1.5), ('c', 4, 0.1), ('d', 5, 1.5)] {
        assert!(c.wants_sample());
        c.consider(Hypothesis {
            pose,
            count,
            error: key(error),
        });
        c.sample_done(100);
    }
    assert_eq!(c.winner().map(|h| h.pose), Some('b'));
    assert_eq!(c.best_count(), 5);
    // The estimate ends the search early.
    c.sample_done(5);
    assert!(!c.wants_sample());

    let mut weak = Consensus::start(3, key(f64::INFINITY));
    weak.consider(Hypothesis {
        pose: 'z',
        count: 3,
        error: key(0.0),
    });
    assert!(weak.winner().is_none());
}

#[test]
fn refitting_runs_three_rounds_at_most() {
    let good = |pose| RefitOutcome::Refined {
        pose,
        kept: 9,
        classified: 9,
    };
    let mut r = start_refit(0);
    let mut rounds = 0;
    while let Refit::Running { pose, .. } = r {
        rounds += 1;
        r = refit_round(r, good(pose + 1));
    }
    assert_eq!(rounds, 3);
    assert!(matches!(r, Refit::Settled { pose: 3 }));

    let r = refit_round(start_refit(0), RefitOutcome::Failed);
    assert!(matches!(r, Refit::Settled { pose: 0 }));
    let starved = RefitOutcome::Refined {
        pose: 1,
        kept: 3,
        classified: 9,
    };
    assert!(matches!(
        refit_round(start_refit(0), starved),
        Refit::Settled { pose: 0 }
    ));
    let lost = RefitOutcome::Refined {
        pose: 1,
        kept: 9,
        classified: 3,
    };
    assert!(matches!(refit_round(start_refit(0), lost), Refit::Refused));
}

#[test]
fn candidates_are_told_apart_by_their_error() {
    let totals = vec![None, Some(key(3.0)), Some(key(1.0)), Some(key(1.0))];
    assert_eq!(least_total(&totals), Some(2));
    assert_eq!(least_total(&vec![None, None]), None);
    assert!(is_supported(4) && !is_supported(3));
    assert!(prefers_linear_seed(6, Some(key(1.0)), key(2.0)));
    assert!(!prefers_linear_seed(5, Some(key(1.0)), key(2.0)));
    assert!(!prefers_linear_seed(9, Some(key(2.0)), key(2.0)));
    assert!(!prefers_linear_seed(9, None, key(2.0)));
}

// ----------------------------------------------------------------------- init

#[test]
fn too_few_correspondences_is_refused() {
    assert!(!enough_matches(7, 0));
    assert!(!enough_matches(10, 15));
    assert!(enough_matches(15, 15));
}

#[test]
fn the_ratio_decides_between_the_models() {
    assert_eq!(
        choose_model(Some(40), Some(50), true, true, 15),
        Some(InitModel::Homography)
    );
    assert_eq!(
        choose_model(Some(40), Some(50), true, false, 15),
        Some(InitModel::Essential)
    );
    assert_eq!(choose_model(Some(40), None, true, false, 15), None);
    assert_eq!(choose_model(Some(14), Some(50), true, true, 15), None);
    assert_eq!(choose_model(None, None, false, true, 0), None);
}

#[test]
fn a_search_of_no_iterations_draws_nothing() {
    let search: ModelSearch<char> = ModelSearch::start(0);
    assert!(!search.wants_sample());
    assert!(search.finish().is_none());
}

#[test]
fn a_model_is_replaced_only_by_a_better_one() {
    let fit = |m: char, flags: &[bool], score: f64| ModelFit::new(m, flags.to_vec(), key(score));
    let mut search = ModelSearch::start(100);
    assert!(search.wants_sample());
    search.consider(fit('a', &[true, true, false], 2.0));
    search.sample_done(50);
    search.consider(fit('b', &[true, true, true], 2.0));
    search.sample_done(50);
    search.consider(fit('c', &[true, false, false], 3.0));
    assert_eq!(search.best_count(), Some(1));
    search.sample_done(3);
    assert!(!search.wants_sample());
    let best = search.finish().unwrap();
    assert_eq!((best.model, best.inlier_count), ('c', 1));

    assert!(!wants_polish(&best, 4, 0));
    let big = fit('d', &[true; 9], 4.0);
    assert!(wants_polish(&big, 8, 7));
    assert!(!wants_polish(&big, 8, 8));
    let (kept, improved) = polished(big, Some(fit('e', &[true; 9], 4.0)));
    assert!(!improved && kept.model == 'd');
    let (kept, improved) = polished(kept, Some(fit('f', &[true; 9], 5.0)));
    assert!(improved && kept.model == 'f');
    let (_, improved) = polished(kept, None);
    assert!(!improved);
}

fn angles(degrees: &[f64]) -> Vec<u64> {
    degrees.iter().map(|d| key(d.to_radians())).collect()
}

const NO_RIVAL: Bars = Bars {
    rival_cheiral: i64::MAX,
    rival_strict: i64::MAX,
    leader_cheiral: 0,
};

#[test]
fn cheirality_leads_and_parallax_breaks_ties() {
    let e = |cheiral, strict| Evidence { cheiral, strict };
    assert_eq!(leader(&vec![e(15, 15), e(55, 0), e(55, 3), e(55, 3)]), Some(2));
    assert_eq!(leader(&Vec::new()), None);
    let bars = Bars {
        rival_cheiral: 41,
        rival_strict: 2,
        leader_cheiral: 0,
    };
    assert!(is_ambiguous(&vec![e(15, 15), e(55, 3), e(55, 3)], 1, bars));
    assert!(!is_ambiguous(&vec![e(15, 15), e(55, 2), e(55, 3)], 2, bars));
    assert_eq!(evidence(&angles(&[0.5, 2.0, 3.0]), key(1f64.to_radians())).strict, 2);
}

#[test]
fn the_first_map_holds_the_points_with_parallax() {
    let floor = key(1f64.to_radians());
    let parallax = angles(&[3.0, 0.2, 1.5, 2.5]);
    let all = vec![evidence(&parallax, floor)];
    let map = reconstruct(&all, 0, NO_RIVAL, &parallax, floor, 3).unwrap();
    assert_eq!(map.landmarks, vec![2, 3, 0]);
    assert_eq!(map.median, key(2.5f64.to_radians()));
    assert!(reconstruct(&all, 0, NO_RIVAL, &parallax, floor, 4).is_none());
    let strict = Bars {
        leader_cheiral: 5,
        ..NO_RIVAL
    };
    assert!(reconstruct(&all, 0, strict, &parallax, floor, 3).is_none());
}

#[test]
fn a_turning_camera_gets_no_map() {
    // Plenty of points clear the floor, but most of the view does not.
    let floor = key(1f64.to_radians());
    let mut degrees = vec![0.1; 39];
    degrees.extend(vec![6.2; 22]);
    let parallax = angles(&degrees);
    let all = vec![evidence(&parallax, floor)];
    assert!(reconstruct(&all, 0, NO_RIVAL, &parallax, floor, 12).is_none());
}

// ------------------------------------------------------------------- local BA

fn ring(poses: usize, points: usize) -> Vec<Observation<(usize, usize)>> {
    (0..poses)
        .flat_map(|k| {
            (0..points).map(move |p| Observation {
                keyframe: k,
                point: p,
                px: (k, p),
            })
        })
        .collect()
}

#[test]
fn an_unanchored_problem_is_refused() {
    let problem = |fixed| LocalBaProblem {
        poses: vec![0; 4],
        fixed_poses: fixed,
        points: vec![0; 40],
        observations: ring(4, 40),
    };
    assert!(plan(&problem(0), true, 2).is_none());
    assert!(plan(&problem(5), true, 2).is_none());
    assert!(plan(&problem(2), true, 2).is_some());
    // With every pose fixed and no landmark free there is nothing to solve for.
    assert!(plan(&problem(4), false, 2).is_none());
}

#[test]
fn the_fixed_anchors_never_move() {
    let problem = LocalBaProblem {
        poses: vec![0, 10, 20, 30, 40],
        fixed_poses: 2,
        points: vec![0; 50],
        observations: ring(5, 50),
    };
    let layout = plan(&problem, true, 2).unwrap();
    assert_eq!((layout.free_poses, layout.free_points), (3, 50));
    let moved = apply(&problem.poses, &layout.pose_slot, &vec![21, 31, 41]);
    assert_eq!(moved, vec![0, 10, 21, 31, 41]);
}

#[test]
fn a_singly_observed_landmark_is_held_fixed() {
    let mut observations = ring(4, 30);
    observations.retain(|o| o.point != 0 || o.keyframe == 0);
    let problem = LocalBaProblem {
        poses: vec![0; 4],
        fixed_poses: 1,
        points: (0..30).collect::<Vec<i32>>(),
        observations,
    };
    let layout = Layout::new(&problem, 2);
    assert_eq!(layout.point_slot[0], None);
    assert_eq!(layout.point_slot[1], Some(0));
    let moved = apply(&problem.points, &layout.point_slot, &vec![99; 29]);
    assert_eq!(moved[0], 0);
    assert_eq!(moved[29], 99);
}

#[test]
fn anchors_that_do_not_span_the_scene_freeze_the_map() {
    let problem = LocalBaProblem {
        poses: vec![0; 4],
        fixed_poses: 2,
        points: vec![7; 30],
        observations: ring(4, 30),
    };
    assert_eq!(plan(&problem, false, 2).unwrap().free_points, 0);
    assert_eq!(plan(&problem, true, 2).unwrap().free_points, 30);
}

#[test]
fn disagreeing_observations_are_reported() {
    let mut observations = ring(2, 2);
    observations.push(Observation {
        keyframe: 9,
        point: 0,
        px: (9, 0),
    });
    let problem = LocalBaProblem {
        poses: vec![0; 2],
        fixed_poses: 1,
        points: vec![0; 2],
        observations,
    };
    let agrees = vec![true, false, true, false, false];
    assert_eq!(outliers(&problem, &agrees), vec![1, 3]);
}

#[test]
fn a_landmark_seen_twice_by_one_keyframe_is_held() {
    let seen = |keyframe: usize, point: usize| Observation {
        keyframe,
        point,
        px: (),
    };
    let problem = LocalBaProblem {
        poses: vec!['a', 'b', 'c'],
        fixed_poses: 1,
        points: vec![10, 20, 30],
        observations: vec![
            seen(1, 0),
            seen(1, 0),
            seen(0, 1),
            seen(1, 1),
            seen(1, 1),
            seen(2, 2),
            seen(7, 9),
        ],
    };
    let layout = Layout::new(&problem, 2);
    assert_eq!(layout.point_slot, vec![None, Some(0), None]);
    assert_eq!(layout.free_points, 1);
    assert_eq!(
        apply(&problem.points, &layout.point_slot, &vec![21]),
        vec![10, 21, 30]
    );
    assert_eq!(Layout::new(&problem, 3).free_points, 0);
    assert_eq!(Layout::new(&problem, 1).free_points, 3);
}

// -------------------------------------------------------------- triangulation

fn candidate(views: Vec<ViewCheck>) -> Candidate {
    Candidate {
        views,
        has_point: true,
        parallax_is_enough: true,
        reprojects: true,
        has_covariance: true,
    }
}

#[test]
fn too_few_views_is_reported_as_such() {
    assert_eq!(
        judge(&candidate(Vec::new())),
        Err(TriangulationRejection::TooFewViews)
    );
    assert_eq!(
        judge(&candidate(vec![ViewCheck::Visible])),
        Err(TriangulationRejection::TooFewViews)
    );
}

#[test]
fn a_landmark_passes_the_gates_in_order() {
    let (visible, beyond, behind) = (ViewCheck::Visible, ViewCheck::Beyond, ViewCheck::Behind);
    assert_eq!(judge(&candidate(vec![visible, visible])), Ok(()));
    assert_eq!(
        judge(&candidate(vec![visible, behind, beyond])),
        Err(TriangulationRejection::Cheirality)
    );
    assert_eq!(
        judge(&candidate(vec![beyond, behind])),
        Err(TriangulationRejection::Cheirality)
    );
    assert_eq!(
        judge(&Candidate {
            parallax_is_enough: false,
            ..candidate(vec![visible, behind])
        }),
        Err(TriangulationRejection::Cheirality)
    );
    assert_eq!(
        judge(&Candidate {
            parallax_is_enough: false,
            ..candidate(vec![beyond, beyond])
        }),
        Err(TriangulationRejection::LowParallax)
    );
    assert_eq!(
        judge(&Candidate {
            reprojects: false,
            ..candidate(vec![visible, beyond])
        }),
        Err(TriangulationRejection::TooFar)
    );
    let c = || candidate(vec![visible, visible]);
    assert_eq!(
        judge(&Candidate {
            has_point: false,
            parallax_is_enough: false,
            ..c()
        }),
        Err(TriangulationRejection::Degenerate)
    );
    assert_eq!(
        judge(&Candidate {
            parallax_is_enough: false,
            reprojects: false,
            ..c()
        }),
        Err(TriangulationRejection::LowParallax)
    );
    assert_eq!(
        judge(&Candidate {
            reprojects: false,
            has_covariance: false,
            ..c()
        }),
        Err(TriangulationRejection::HighReprojection)
    );
    assert_eq!(
        judge(&Candidate {
            has_covariance: false,
            ..c()
        }),
        Err(TriangulationRejection::Degenerate)
    );
}

#[test]
fn rejections_say_what_is_wrong() {
    assert_eq!(TriangulationRejection::TooFewViews.message(), "fewer than two views");
    assert_eq!(TriangulationRejection::Degenerate.message(), "rank-deficient linear system");
    assert_eq!(TriangulationRejection::Cheirality.message(), "point behind a camera");
    assert_eq!(TriangulationRejection::LowParallax.message(), "insufficient parallax");
    assert_eq!(TriangulationRejection::TooFar.message(), "beyond the depth horizon");
    assert_eq!(TriangulationRejection::HighReprojection.message(), "reprojection error too large");
}

#[test]
fn a_solve_that_rescales_the_window_is_refused() {
    let w = SolvedWindow {
        used: 40,
        has_length: true,
        is_limited: true,
        keeps_its_length: true,
    };
    assert!(is_accepted(w));
    let rescaled = SolvedWindow {
        keeps_its_length: false,
        ..w
    };
    assert!(!is_accepted(rescaled));
    assert!(is_accepted(SolvedWindow {
        is_limited: false,
        ..rescaled
    }));
    assert!(is_accepted(SolvedWindow {
        has_length: false,
        ..rescaled
    }));
    assert!(!is_accepted(SolvedWindow { used: 0, ..w }));
}
