//! Tags from drawing to decoding: the library segments, decodes and orders, and the
//! geometry around it is done here.

use nalgebra::DMatrix;
use wslam::fiducial::code36h11::{bit_positions, Codebook, NBITS, TOTAL_WIDTH, WIDTH_AT_BORDER};
use wslam::fiducial::detect::{
    decode_reading, detection_order, find_interfaces, quiet_margin_is_usable, ring_cells,
    turned_corners, DetectorConfig, PayloadReading,
};
use wslam::fiducial::quad::{
    enough_boundary_points, far_corner, four_distinct, is_acceptable, is_convex, run, side_corners,
    side_points, sides_at, Offset, Turn,
};
use wslam::fiducial::render::cell_grid;
use wslam::order::{first_least, stable_order, SortKey};
use wslam::raster::GrayImage;
use wslam::scale::fiducial::{dominant_id, enough_sightings, nearest_within};

type Scalar = f64;
type Vec2 = nalgebra::Vector2<f64>;
type Vec3 = nalgebra::Vector3<f64>;
type Mat3 = nalgebra::Matrix3<f64>;
type Pose = nalgebra::Isometry3<f64>;
type Quad = wslam::fiducial::quad::Quad<Vec2>;

/// Least mean distance of a payload sample from the decision level.
const MIN_DECISION_MARGIN: Scalar = 12.0;

fn key(v: Scalar) -> u64 {
    wslam::order::total_order_key((v + 0.0).to_bits())
}

fn close(a: Scalar, b: Scalar, epsilon: Scalar) {
    assert!((a - b).abs() <= epsilon, "{a} vs {b}");
}

fn pose_of(axis: Vec3, at: Vec3) -> Pose {
    Pose::new(at, axis)
}

/// A centred pinhole camera.
#[derive(Clone, Copy)]
struct Camera {
    focal: Scalar,
    width: u32,
    height: u32,
}

impl Camera {
    fn from_focal(focal: Scalar, width: u32, height: u32) -> Camera {
        Camera {
            focal,
            width,
            height,
        }
    }

    fn centre(&self) -> Vec2 {
        Vec2::new(Scalar::from(self.width) * 0.5, Scalar::from(self.height) * 0.5)
    }

    fn project(&self, p: &Vec3) -> Option<Vec2> {
        if p.z <= 1e-9 {
            return None;
        }
        Some(Vec2::new(p.x, p.y) * (self.focal / p.z) + self.centre())
    }

    fn bearing(&self, px: Vec2) -> Vec3 {
        let n = (px - self.centre()) / self.focal;
        Vec3::new(n.x, n.y, 1.0).normalize()
    }

    fn inverse_matrix(&self) -> Mat3 {
        let c = self.centre();
        Mat3::new(self.focal, 0.0, c.x, 0.0, self.focal, c.y, 0.0, 0.0, 1.0)
            .try_inverse()
            .expect("a camera matrix")
    }
}

/// A point of a tag in camera coordinates.
fn placed(pose: &Pose, p: &Vec3) -> Vec3 {
    pose.rotation * p + pose.translation.vector
}

/// The right singular vector of the smallest singular value.
fn null_vector(a: &DMatrix<Scalar>) -> Option<nalgebra::DVector<Scalar>> {
    let (rows, cols) = a.shape();
    let mut padded = DMatrix::<Scalar>::zeros(rows.max(cols), cols);
    padded.view_mut((0, 0), (rows, cols)).copy_from(a);
    let svd = padded.svd(false, true);
    let v_t = svd.v_t?;
    let (at, _) = svd.singular_values.iter().enumerate().min_by(|x, y| x.1.total_cmp(y.1))?;
    let v = v_t.row(at).transpose();
    v.iter().all(|c| c.is_finite()).then_some(v)
}

/// Apply a homography to a point, dividing through by the third coordinate.
fn apply(h: &Mat3, p: Vec2) -> Option<Vec2> {
    let v = h * Vec3::new(p.x, p.y, 1.0);
    if v.z.abs() < 1e-12 {
        return None;
    }
    Some(Vec2::new(v.x / v.z, v.y / v.z))
}

/// Direct linear transform homography `src -> dst`, with Hartley normalisation.
fn homography_dlt(correspondences: &[(Vec2, Vec2)]) -> Option<Mat3> {
    let n = correspondences.len();
    if n < 4 {
        return None;
    }
    let src: Vec<Vec2> = correspondences.iter().map(|c| c.0).collect();
    let dst: Vec<Vec2> = correspondences.iter().map(|c| c.1).collect();
    let (t_src, ns) = normalise(&src)?;
    let (t_dst, nd) = normalise(&dst)?;

    let mut a = DMatrix::<Scalar>::zeros(2 * n, 9);
    for i in 0..n {
        let (x, y) = (ns[i].x, ns[i].y);
        let (u, v) = (nd[i].x, nd[i].y);
        let top = [-x, -y, -1.0, 0.0, 0.0, 0.0, u * x, u * y, u];
        let bottom = [0.0, 0.0, 0.0, -x, -y, -1.0, v * x, v * y, v];
        for c in 0..9 {
            a[(2 * i, c)] = top[c];
            a[(2 * i + 1, c)] = bottom[c];
        }
    }
    let h_n = Mat3::from_row_slice(null_vector(&a)?.as_slice());

    let h = t_dst.try_inverse()? * h_n * t_src;
    if h.iter().any(|v| !v.is_finite()) || h[(2, 2)].abs() < 1e-15 {
        return None;
    }
    Some(h / h[(2, 2)])
}

/// Hartley normalisation: the transform, and the points it gives.
fn normalise(points: &[Vec2]) -> Option<(Mat3, Vec<Vec2>)> {
    let n = points.len() as Scalar;
    let mean: Vec2 = points.iter().sum::<Vec2>() / n;
    let mean_dist = points.iter().map(|p| (p - mean).norm()).sum::<Scalar>() / n;
    if !(mean_dist.is_finite() && mean_dist > 1e-12) {
        return None;
    }
    let s = std::f64::consts::SQRT_2 / mean_dist;
    let t = Mat3::new(s, 0.0, -s * mean.x, 0.0, s, -s * mean.y, 0.0, 0.0, 1.0);
    let out = points.iter().map(|p| Vec2::new(s * (p.x - mean.x), s * (p.y - mean.y))).collect();
    Some((t, out))
}

/// Pose of a planar target from its plane-to-image homography.
fn pose_from_homography(h: &Mat3, k: &Camera) -> Option<Pose> {
    let m = k.inverse_matrix() * h;
    let (m1, m2, m3) = (m.column(0), m.column(1), m.column(2));

    let mean_norm = 0.5 * (m1.norm() + m2.norm());
    if !(mean_norm.is_finite() && mean_norm > 1e-12) {
        return None;
    }
    let mut lambda = 1.0 / mean_norm;
    if lambda * m3.z < 0.0 {
        lambda = -lambda;
    }

    let r1: Vec3 = m1 * lambda;
    let r2: Vec3 = m2 * lambda;
    let r3: Vec3 = r1.cross(&r2);
    let t: Vec3 = m3 * lambda;
    if t.z <= 0.0 || !t.iter().all(|v| v.is_finite()) {
        return None;
    }

    let mut approx = Mat3::zeros();
    approx.set_column(0, &r1);
    approx.set_column(1, &r2);
    approx.set_column(2, &r3);
    let rotation = nearest_rotation(&approx)?;

    let rotation = nalgebra::Rotation3::from_matrix_unchecked(rotation);
    Some(Pose::from_parts(
        t.into(),
        nalgebra::UnitQuaternion::from_rotation_matrix(&rotation),
    ))
}

/// Closest rotation matrix in the Frobenius sense.
fn nearest_rotation(m: &Mat3) -> Option<Mat3> {
    if m.iter().any(|v| !v.is_finite()) {
        return None;
    }
    let svd = m.svd(true, true);
    let u = svd.u?;
    let v_t = svd.v_t?;
    let mut d = Mat3::identity();
    if (u * v_t).determinant() < 0.0 {
        d[(2, 2)] = -1.0;
    }
    Some(u * d * v_t)
}

/// Root-mean-square reprojection error of the tag corners under a pose.
fn reprojection_rmse(
    pose: &Pose,
    k: &Camera,
    object: &[Vec3; 4],
    image: &[Vec2; 4],
) -> Scalar {
    let mut sse = 0.0;
    for (o, i) in object.iter().zip(image.iter()) {
        match k.project(&placed(pose, o)) {
            Some(p) => sse += (p - i).norm_squared(),
            None => return Scalar::INFINITY,
        }
    }
    (sse * 0.25).sqrt()
}

fn sides(quad: &Quad) -> [Scalar; 4] {
    std::array::from_fn(|i| (quad.corners[(i + 1) % 4] - quad.corners[i]).norm())
}

/// Signed area by the shoelace formula.
fn signed_area(quad: &Quad) -> Scalar {
    let c = &quad.corners;
    0.5 * (0..4)
        .map(|i| {
            let (a, b) = (c[i], c[(i + 1) % 4]);
            a.x * b.y - b.x * a.y
        })
        .sum::<Scalar>()
}

/// Length of the shortest side.
fn min_side(quad: &Quad) -> Scalar {
    sides(quad).into_iter().fold(Scalar::INFINITY, Scalar::min)
}

/// Length of the longest side.
fn max_side(quad: &Quad) -> Scalar {
    sides(quad).into_iter().fold(0.0, Scalar::max)
}

/// Centroid of the corners.
fn centre(quad: &Quad) -> Vec2 {
    quad.corners.iter().sum::<Vec2>() / 4.0
}

/// Which way the boundary turns at each corner.
fn turns(quad: &Quad) -> [Turn; 4] {
    let c = &quad.corners;
    std::array::from_fn(|i| {
        let a = c[(i + 1) % 4] - c[i];
        let b = c[(i + 2) % 4] - c[(i + 1) % 4];
        let cross = a.x * b.y - a.y * b.x;
        if cross.abs() < 1e-12 {
            Turn::Straight
        } else if cross > 0.0 {
            Turn::Left
        } else {
            Turn::Right
        }
    })
}

/// Acceptance limits for a fitted quad.
#[derive(Debug, Clone, Copy, PartialEq)]
struct QuadConfig {
    /// Shortest side a quad may have, in pixels.
    min_side_px: Scalar,
    /// Largest ratio of longest to shortest side.
    max_side_ratio: Scalar,
    /// Fraction of each side's points discarded at both ends before the line fit, so
    /// that corner rounding does not bend the line.
    corner_trim: Scalar,
    /// Minimum surviving points per side for the refinement to be used.
    min_points_per_side: usize,
}

impl Default for QuadConfig {
    fn default() -> Self {
        QuadConfig {
            min_side_px: 8.0,
            max_side_ratio: 8.0,
            corner_trim: 0.2,
            min_points_per_side: 4,
        }
    }
}

/// Fit a quadrilateral to a closed boundary contour.
fn fit_quad(points: &[Vec2], config: &QuadConfig) -> Option<Quad> {
    if !enough_boundary_points(points.len()) {
        return None;
    }
    let coarse = extreme_corners(points)?;
    let quad = refine_corners(points, &coarse, config).unwrap_or(coarse);
    let shortest = min_side(&quad);
    let accepted = is_acceptable(
        quad.corners.iter().all(|c| c.x.is_finite() && c.y.is_finite()),
        &turns(&quad),
        !(shortest < config.min_side_px),
        !(max_side(&quad) > config.max_side_ratio * shortest),
    );
    if !accepted {
        return None;
    }
    let area_is_negative = signed_area(&quad) < 0.0;
    Some(quad.wound_positive(area_is_negative))
}

/// Four extreme points of a convex contour, in traversal order: floating-point distances,
/// compared by the library.
fn extreme_corners(points: &[Vec2]) -> Option<Quad> {
    let centroid: Vec2 = points.iter().sum::<Vec2>() / points.len() as Scalar;
    let squares_from = |from: Vec2| -> Vec<u64> {
        points.iter().map(|p| key((p - from).norm_squared())).collect()
    };
    let p0 = points[far_corner(&squares_from(centroid))?];
    let p2 = points[far_corner(&squares_from(p0))?];

    let axis = p2 - p0;
    let len = axis.norm();
    if len < 1e-9 {
        return None;
    }
    let normal = Vec2::new(-axis.y, axis.x) / len;
    let offsets: Vec<Offset> = points
        .iter()
        .map(|p| {
            let d = normal.dot(&(p - p0));
            Offset {
                is_positive: d > 0.0,
                magnitude: key(if d.is_nan() { 0.0 } else { d.abs() }),
            }
        })
        .collect();
    let (left, right) = side_corners(&offsets, key(1e-9))?;
    Some(Quad {
        corners: [p0, points[left], p2, points[right]],
    })
}

/// Refine corners by intersecting total-least-squares lines fitted to the four sides.
fn refine_corners(points: &[Vec2], coarse: &Quad, config: &QuadConfig) -> Option<Quad> {
    let centroid: Vec2 = points.iter().sum::<Vec2>() / points.len() as Scalar;
    let angle = |p: &Vec2| (p.y - centroid.y).atan2(p.x - centroid.x);
    let keys: Vec<SortKey> = points
        .iter()
        .map(|p| SortKey {
            major: wslam::order::total_order_key(angle(p).to_bits()),
            minor: 0,
            last: 0,
        })
        .collect();
    let ordered: Vec<Vec2> = stable_order(&keys).iter().map(|&i| points[i]).collect();

    let mut nearest = [0usize; 4];
    for (slot, corner) in nearest.iter_mut().zip(&coarse.corners) {
        let a = angle(corner);
        let gaps: Vec<u64> = ordered.iter().map(|p| key((angle(p) - a).abs())).collect();
        *slot = first_least(&gaps).unwrap_or(0);
    }
    let corners = four_distinct(nearest)?;

    let n = ordered.len();
    let mut lines = [Line::default(); 4];
    for (side, line) in lines.iter_mut().enumerate() {
        let count = run(&corners, side, n)?;
        let trim = ((count as Scalar) * config.corner_trim).floor() as usize;
        let chosen = side_points(corners[side], count, trim, n, config.min_points_per_side)?;
        let side_points: Vec<Vec2> = chosen.iter().map(|&i| ordered[i]).collect();
        *line = fit_line_tls(&side_points)?;
    }

    let mut refined = [Vec2::zeros(); 4];
    for (i, corner) in refined.iter_mut().enumerate() {
        let (arriving, leaving) = sides_at(i);
        *corner = intersect(&lines[arriving], &lines[leaving])?;
    }
    Some(Quad { corners: refined })
}

/// A line as a point and a unit direction.
#[derive(Debug, Clone, Copy, Default)]
struct Line {
    point: Vec2,
    direction: Vec2,
}

/// Total-least-squares line fit.
fn fit_line_tls(points: &[Vec2]) -> Option<Line> {
    if points.len() < 2 {
        return None;
    }
    let mean: Vec2 = points.iter().sum::<Vec2>() / points.len() as Scalar;
    let (mut sxx, mut sxy, mut syy) = (0.0, 0.0, 0.0);
    for p in points {
        let d = p - mean;
        sxx += d.x * d.x;
        sxy += d.x * d.y;
        syy += d.y * d.y;
    }
    let trace = sxx + syy;
    if trace < 1e-12 {
        return None;
    }
    let diff = sxx - syy;
    let lambda = 0.5 * (trace + (diff * diff + 4.0 * sxy * sxy).sqrt());
    let dir = if (lambda - syy).abs() > (lambda - sxx).abs() {
        Vec2::new(lambda - syy, sxy)
    } else {
        Vec2::new(sxy, lambda - sxx)
    };
    let norm = dir.norm();
    if norm < 1e-12 {
        return None;
    }
    Some(Line {
        point: mean,
        direction: dir / norm,
    })
}

fn intersect(a: &Line, b: &Line) -> Option<Vec2> {
    let denom = a.direction.x * b.direction.y - a.direction.y * b.direction.x;
    if denom.abs() < 1e-6 {
        return None;
    }
    let d = b.point - a.point;
    let t = (d.x * b.direction.y - d.y * b.direction.x) / denom;
    Some(a.point + a.direction * t)
}

/// The brightness at a point, bilinear between pixels and clamped at the edge.
fn sample_bilinear(image: &GrayImage, x: Scalar, y: Scalar) -> Scalar {
    let (x0, y0) = (x.floor(), y.floor());
    let (fx, fy) = (x - x0, y - y0);
    let (ix, iy) = (x0 as i32, y0 as i32);
    let at = |dx: i32, dy: i32| {
        Scalar::from(image.at(ix.saturating_add(dx), iy.saturating_add(dy)))
    };
    (at(0, 0) * (1.0 - fx) + at(1, 0) * fx) * (1.0 - fy)
        + (at(0, 1) * (1.0 - fx) + at(1, 1) * fx) * fy
}

/// One decoded tag.
#[derive(Clone, Copy)]
struct Detection {
    /// Codebook index.
    id: u32,
    /// Bit errors corrected.
    hamming: u32,
    /// Corners in the tag's canonical order.
    corners: [Vec2; 4],
    /// Centre of the black-bordered square in pixels.
    centre: Vec2,
}

impl Detection {
    /// Mean side length in pixels.
    fn size_px(&self) -> Scalar {
        (0..4)
            .map(|i| (self.corners[(i + 1) % 4] - self.corners[i]).norm())
            .sum::<Scalar>()
            * 0.25
    }
}

/// Metric corner model of a tag whose black-bordered square is `size_meters` across, in
/// the canonical corner order.
fn tag_object_points(size_meters: Scalar) -> [Vec3; 4] {
    let h = 0.5 * size_meters;
    [
        Vec3::new(-h, -h, 0.0),
        Vec3::new(h, -h, 0.0),
        Vec3::new(h, h, 0.0),
        Vec3::new(-h, h, 0.0),
    ]
}

/// Recover a tag's metric pose from its corners.
fn estimate_tag_pose(
    corners: &[Vec2; 4],
    k: &Camera,
    size_meters: Scalar,
) -> Option<(Pose, Scalar)> {
    if !(size_meters.is_finite() && size_meters > 0.0) {
        return None;
    }
    let object = tag_object_points(size_meters);
    let corr: Vec<(Vec2, Vec2)> = object
        .iter()
        .zip(corners.iter())
        .map(|(o, c)| (Vec2::new(o.x, o.y), *c))
        .collect();
    let h = homography_dlt(&corr)?;
    let pose = pose_from_homography(&h, k)?;
    let rmse = reprojection_rmse(&pose, k, &object, corners);
    Some((pose, rmse))
}

/// Detect and decode every tag in an image.
fn detect(image: &GrayImage) -> Vec<Detection> {
    let config = DetectorConfig::default();
    let book = Codebook::standard();
    let mut found: Vec<Detection> = Vec::new();
    for cluster in find_interfaces(image, &config) {
        let points: Vec<Vec2> = cluster
            .points
            .iter()
            .map(|p| Vec2::new(p.x2 as Scalar * 0.5, p.y2 as Scalar * 0.5))
            .collect();
        if let Some(q) = fit_quad(&points, &QuadConfig::default()) {
            found.extend(decode_quad(image, &q, &config, &book));
        }
    }
    let order = detection_order(
        &found
            .iter()
            .map(|d| (d.id, key(d.centre.x), key(d.centre.y)))
            .collect(),
    );
    order.iter().map(|&i| found[i]).collect()
}

/// Homography taking unit tag coordinates (`[-1, 1]` across the black-bordered square)
/// to pixels.
fn unit_homography(q: &Quad) -> Option<Mat3> {
    let unit = [
        Vec2::new(-1.0, -1.0),
        Vec2::new(1.0, -1.0),
        Vec2::new(1.0, 1.0),
        Vec2::new(-1.0, 1.0),
    ];
    let corr: Vec<(Vec2, Vec2)> = unit
        .iter()
        .zip(q.corners.iter())
        .map(|(u, c)| (*u, *c))
        .collect();
    homography_dlt(&corr)
}

/// Sample the image at a unit tag coordinate.
fn sample_unit(image: &GrayImage, h: &Mat3, u: Scalar, v: Scalar) -> Option<Scalar> {
    let p = apply(h, Vec2::new(u, v))?;
    if p.x < 0.0
        || p.y < 0.0
        || p.x > (image.width() - 1) as Scalar
        || p.y > (image.height() - 1) as Scalar
    {
        return None;
    }
    Some(sample_bilinear(image, p.x, p.y))
}

/// Centre of cell `(col, row)` of the 8x8 border square, in unit coordinates.
fn cell_centre(col: usize, row: usize) -> (Scalar, Scalar) {
    let step = 2.0 / WIDTH_AT_BORDER as Scalar;
    (
        -1.0 + step * (col as Scalar + 0.5),
        -1.0 + step * (row as Scalar + 0.5),
    )
}

/// Mean brightness over the ring of a square `width` cells across, whose half side is
/// `span`, and how many of its cells lie in the image.
fn ring_level(image: &GrayImage, h: &Mat3, width: usize, span: Scalar) -> (Scalar, usize) {
    let step = 2.0 * span / width as Scalar;
    let samples: Vec<Scalar> = ring_cells(width)
        .iter()
        .filter_map(|&(col, row)| {
            let u = -span + step * (col as Scalar + 0.5);
            let v = -span + step * (row as Scalar + 0.5);
            sample_unit(image, h, u, v)
        })
        .collect();
    let sum: Scalar = samples.iter().sum();
    (sum / samples.len() as Scalar, samples.len())
}

/// Read a quadrilateral as a tag: floating-point brightness levels, decoded by the
/// library.
fn decode_quad(
    image: &GrayImage,
    q: &Quad,
    config: &DetectorConfig,
    book: &Codebook,
) -> Option<Detection> {
    let h = unit_homography(q)?;
    let (black_level, border_samples) = ring_level(image, &h, WIDTH_AT_BORDER, 1.0);
    let margin_span = TOTAL_WIDTH as Scalar / WIDTH_AT_BORDER as Scalar;
    let (margin_level, margin_samples) = ring_level(image, &h, TOTAL_WIDTH, margin_span);

    let mut samples = Vec::with_capacity(NBITS);
    for &(x, y) in &bit_positions() {
        let (u, v) = cell_centre(x, y);
        samples.push(sample_unit(image, &h, u, v)?);
    }
    let white_level = if quiet_margin_is_usable(margin_samples) {
        margin_level
    } else {
        samples.iter().copied().fold(Scalar::NEG_INFINITY, Scalar::max)
    };
    let level = 0.5 * (black_level + white_level);
    let decision_margin =
        samples.iter().map(|s| (s - level).abs()).sum::<Scalar>() / NBITS as Scalar;

    let reading = PayloadReading {
        border_samples,
        white_cells: Some(samples.iter().map(|&s| s > level).collect()),
        contrast_is_enough: !(white_level - black_level < MIN_DECISION_MARGIN * 2.0),
        margin_is_enough: !(decision_margin < MIN_DECISION_MARGIN),
    };
    let m = decode_reading(&reading, book, config.max_hamming)?;
    Some(Detection {
        id: m.id,
        hamming: m.hamming,
        corners: turned_corners(&q.corners, m.rotation % 4),
        centre: centre(q),
    })
}

/// How to draw a tag.
#[derive(Clone)]
struct RenderConfig {
    camera: Camera,
    pose: Pose,
    size_meters: Scalar,
    supersample: u32,
    black: u8,
    white: u8,
    background: u8,
}

impl RenderConfig {
    /// A tag facing the camera at `distance` metres.
    fn facing(camera: Camera, size_meters: Scalar, distance: Scalar) -> RenderConfig {
        RenderConfig {
            camera,
            pose: pose_of(Vec3::zeros(), Vec3::new(0.0, 0.0, distance)),
            size_meters,
            supersample: 3,
            black: 25,
            white: 230,
            background: 230,
        }
    }
}

/// Draw a tag of the standard codebook, or `None` for an unknown tag or a size that makes
/// no sense.
fn render_tag(id: u32, config: &RenderConfig) -> Option<GrayImage> {
    let code = Codebook::standard().code(id)?;
    if !(config.size_meters.is_finite() && config.size_meters > 0.0) {
        return None;
    }
    let cells = cell_grid(code);
    let (w, h) = (config.camera.width, config.camera.height);
    let mut img = GrayImage::new(w, h);
    img.fill(config.background);
    let ss = config.supersample;
    for py in 0..h {
        for px in 0..w {
            let mut acc = 0.0;
            for sy in 0..ss {
                for sx in 0..ss {
                    let sample = Vec2::new(
                        Scalar::from(px) + (Scalar::from(sx) + 0.5) / Scalar::from(ss),
                        Scalar::from(py) + (Scalar::from(sy) + 0.5) / Scalar::from(ss),
                    );
                    acc += Scalar::from(shade(config, &cells, sample));
                }
            }
            let mean = acc / Scalar::from(ss * ss);
            img.set(px, py, mean.round().clamp(0.0, 255.0) as u8);
        }
    }
    Some(img)
}

/// The brightness along the ray through a point of the image.
fn shade(
    config: &RenderConfig,
    cells: &[[bool; WIDTH_AT_BORDER]; WIDTH_AT_BORDER],
    at: Vec2,
) -> u8 {
    let t = config.pose.translation.vector;
    let normal = config.pose.rotation * Vec3::z();
    let bearing = config.camera.bearing(at);
    let denom = normal.dot(&bearing);
    if denom.abs() < 1e-12 {
        return config.background;
    }
    let lambda = normal.dot(&t) / denom;
    if lambda <= 0.0 {
        return config.background;
    }
    let p = config.pose.rotation.inverse() * (bearing * lambda - t);
    let half = 0.5 * config.size_meters;
    let margin = half * TOTAL_WIDTH as Scalar / WIDTH_AT_BORDER as Scalar;
    if p.x.abs() <= half && p.y.abs() <= half {
        let cell = half * 2.0 / WIDTH_AT_BORDER as Scalar;
        let col = (((p.x + half) / cell) as usize).min(WIDTH_AT_BORDER - 1);
        let row = (((p.y + half) / cell) as usize).min(WIDTH_AT_BORDER - 1);
        if cells[row][col] {
            config.white
        } else {
            config.black
        }
    } else if p.x.abs() <= margin && p.y.abs() <= margin {
        config.white
    } else {
        config.background
    }
}

/// The outline of a quadrilateral, on the grid of half pixels if asked.
fn outline(corners: [Vec2; 4], per_side: usize, quantise: bool) -> Vec<Vec2> {
    let mut pts = Vec::new();
    for i in 0..4 {
        let a = corners[i];
        let b = corners[(i + 1) % 4];
        for k in 0..per_side {
            let t = k as Scalar / per_side as Scalar;
            let p = a + (b - a) * t;
            pts.push(if quantise {
                Vec2::new((p.x - 0.5).round() + 0.5, (p.y - 0.5).round() + 0.5)
            } else {
                p
            });
        }
    }
    pts
}

#[test]
fn recovers_an_axis_aligned_square_exactly() {
    let truth = [
        Vec2::new(10.0, 10.0),
        Vec2::new(50.0, 10.0),
        Vec2::new(50.0, 50.0),
        Vec2::new(10.0, 50.0),
    ];
    let q = fit_quad(&outline(truth, 40, false), &QuadConfig::default()).unwrap();
    for (got, want) in q.corners.iter().zip(truth.iter()) {
        close(got.x, want.x, 1e-6);
        close(got.y, want.y, 1e-6);
    }
}

#[test]
fn line_refinement_beats_pixel_quantisation() {
    let truth = [
        Vec2::new(12.3, 9.7),
        Vec2::new(63.8, 14.1),
        Vec2::new(59.2, 66.4),
        Vec2::new(8.6, 61.0),
    ];
    let q = fit_quad(&outline(truth, 60, true), &QuadConfig::default()).unwrap();
    for (got, want) in q.corners.iter().zip(truth.iter()) {
        assert!(
            (got - want).norm() < 0.35,
            "corner {got:?} vs {want:?}: refinement did not beat the grid"
        );
    }
}

#[test]
fn recovers_a_perspective_distorted_quad() {
    let truth = [
        Vec2::new(20.0, 30.0),
        Vec2::new(120.0, 12.0),
        Vec2::new(140.0, 95.0),
        Vec2::new(28.0, 110.0),
    ];
    let q = fit_quad(&outline(truth, 80, false), &QuadConfig::default()).unwrap();
    for (got, want) in q.corners.iter().zip(truth.iter()) {
        assert!((got - want).norm() < 1e-6, "{got:?} vs {want:?}");
    }
    assert!(is_convex(&turns(&q)));
    assert!(signed_area(&q) > 0.0, "winding must be normalised");
}

#[test]
fn corner_set_is_independent_of_the_starting_point() {
    let truth = [
        Vec2::new(15.0, 20.0),
        Vec2::new(85.0, 18.0),
        Vec2::new(88.0, 77.0),
        Vec2::new(12.0, 80.0),
    ];
    let base = fit_quad(&outline(truth, 50, false), &QuadConfig::default()).unwrap();
    for shift in [1usize, 37, 99] {
        let mut pts = outline(truth, 50, false);
        let n = pts.len();
        pts.rotate_left(shift % n);
        let q = fit_quad(&pts, &QuadConfig::default()).unwrap();
        for c in q.corners {
            assert!(
                base.corners.iter().any(|b| (b - c).norm() < 1e-6),
                "corner {c:?} not in the reference set"
            );
        }
    }
}

#[test]
fn rejects_a_quad_smaller_than_the_payload_can_be_sampled_in() {
    let truth = [
        Vec2::new(2.0, 2.0),
        Vec2::new(6.0, 2.0),
        Vec2::new(6.0, 6.0),
        Vec2::new(2.0, 6.0),
    ];
    assert!(fit_quad(&outline(truth, 12, false), &QuadConfig::default()).is_none());
}

#[test]
fn rejects_a_sliver() {
    let truth = [
        Vec2::new(10.0, 10.0),
        Vec2::new(200.0, 10.0),
        Vec2::new(200.0, 19.0),
        Vec2::new(10.0, 19.0),
    ];
    let cfg = QuadConfig {
        max_side_ratio: 4.0,
        ..QuadConfig::default()
    };
    assert!(fit_quad(&outline(truth, 60, false), &cfg).is_none());
}

#[test]
fn rejects_too_few_points() {
    assert!(fit_quad(&[], &QuadConfig::default()).is_none());
    assert!(fit_quad(&[Vec2::zeros(); 4], &QuadConfig::default()).is_none());
}

fn small() -> Camera {
    Camera::from_focal(600.0, 320, 240)
}

#[test]
fn a_fronto_parallel_tag_lands_where_the_pinhole_says_it_should() {
    let img = render_tag(0, &RenderConfig::facing(small(), 0.1, 0.6)).unwrap();
    assert!(img.at(160, 120) != 0, "something was drawn");
    assert!(img.at(160, 120 - 48) < 60, "border ring should be dark");
    assert!(
        img.at(160, 120 - 70) > 200,
        "outside the tag should be light"
    );
}

#[test]
fn tag_size_scales_inversely_with_distance() {
    let dark_pixels = |distance: Scalar| {
        let img = render_tag(1, &RenderConfig::facing(small(), 0.1, distance)).unwrap();
        img.data().iter().filter(|&&v| v < 128).count()
    };
    let ratio = dark_pixels(0.5) as Scalar / dark_pixels(1.0) as Scalar;
    assert!((3.4..4.6).contains(&ratio), "area ratio {ratio}");
}

#[test]
fn unknown_ids_and_bad_sizes_are_refused() {
    let cfg = RenderConfig::facing(small(), 0.1, 0.6);
    assert!(render_tag(99_999, &cfg).is_none());
    let mut bad = cfg.clone();
    bad.size_meters = 0.0;
    assert!(render_tag(0, &bad).is_none());
}

#[test]
fn a_tag_behind_the_camera_draws_nothing() {
    let mut cfg = RenderConfig::facing(small(), 0.1, 0.6);
    cfg.pose = pose_of(Vec3::zeros(), Vec3::new(0.0, 0.0, -0.6));
    let img = render_tag(0, &cfg).unwrap();
    assert!(img.data().iter().all(|&v| v == cfg.background));
}

#[test]
fn a_rendered_tag_survives_the_whole_pipeline_and_its_distance_is_exact() {
    let k = Camera::from_focal(600.0, 640, 480);
    let size = 0.1;
    for z in [0.4, 0.5, 0.6, 1.0, 1.5, 2.0] {
        let img = render_tag(7, &RenderConfig::facing(k, size, z)).unwrap();
        let dets = detect(&img);
        assert_eq!(
            dets.len(),
            1,
            "exactly one tag at {z} m, got {}",
            dets.len()
        );
        assert_eq!(dets[0].id, 7);
        assert_eq!(dets[0].hamming, 0, "a clean render must decode uncorrected");
        close(dets[0].size_px(), 600.0 * size / z, 1e-9);

        let (pose, rmse) = estimate_tag_pose(&dets[0].corners, &k, size).unwrap();
        let t = pose.translation.vector;
        close(t.z, z, 1e-9);
        let half_pixel_m = 0.5 * z / 600.0;
        close(t.x, -half_pixel_m, 1e-12);
        close(t.y, -half_pixel_m, 1e-12);
        assert!(rmse < 1e-9, "{rmse}");
    }
}

#[test]
fn a_tilted_rendered_tag_recovers_its_pose_to_sub_millimetre() {
    let k = Camera::from_focal(600.0, 640, 480);
    let size = 0.1;
    let truth = pose_of(Vec3::new(0.15, -0.2, 0.05), Vec3::new(0.02, -0.01, 0.5));
    let img = render_tag(
        7,
        &RenderConfig {
            pose: truth,
            ..RenderConfig::facing(k, size, 0.5)
        },
    )
    .unwrap();
    let dets = detect(&img);
    assert_eq!(dets.len(), 1);
    assert_eq!(dets[0].id, 7);
    let (pose, rmse) = estimate_tag_pose(&dets[0].corners, &k, size).unwrap();
    let dt = (pose.translation.vector - truth.translation.vector).norm();
    assert!(dt < 1.5e-3, "translation error {dt} m");
    let rotation_error = (truth.rotation.inverse() * pose.rotation).angle();
    assert!(rotation_error < 0.03, "rotation error {rotation_error} rad");
    assert!(rmse < 0.3, "{rmse}");
}

/// A tag seen at a time, from a place in its own frame.
struct Sighting {
    at: Scalar,
    id: u32,
    camera_in_tag: Vec3,
}

/// The multiplier between the sightings of the most seen tag and a trajectory in units.
fn trajectory_scale(seen: &[Sighting], window: &[(Scalar, Vec3)]) -> Option<Scalar> {
    let id = dominant_id(&seen.iter().map(|s| s.id).collect())?;
    let mut pairs: Vec<(Vec3, Vec3)> = Vec::new();
    for s in seen.iter().filter(|s| s.id == id) {
        let distances: Vec<u64> = window.iter().map(|(t, _)| key((t - s.at).abs())).collect();
        if let Some(i) = nearest_within(&distances, key(0.05)) {
            pairs.push((s.camera_in_tag, window[i].1));
        }
    }
    if !enough_sightings(pairs.len(), 2) {
        return None;
    }
    let (mut num, mut den) = (0.0, 0.0);
    for (i, (metric, units)) in pairs.iter().enumerate() {
        for (other_metric, other_units) in &pairs[i + 1..] {
            let du = (units - other_units).norm();
            num += (metric - other_metric).norm() * du;
            den += du * du;
        }
    }
    (den.is_finite() && den > 1e-18).then_some(num / den)
}

#[test]
fn trajectory_alignment_recovers_a_known_multiplier() {
    let scale = 4.25;
    let mut seen = Vec::new();
    let mut window = Vec::new();
    for i in 0..12 {
        let f = Scalar::from(i);
        let place = Vec3::new(0.15 * (f * 0.5).sin(), 0.08 * (f * 0.3).cos(), 0.9 + 0.02 * f);
        seen.push(Sighting {
            at: f * 0.1,
            id: 0,
            camera_in_tag: place,
        });
        let turned = nalgebra::Rotation3::new(Vec3::new(0.3, 0.1, -0.2)) * place;
        window.push((f * 0.1, turned / scale + Vec3::new(5.0, -2.0, 1.0)));
    }
    let value = trajectory_scale(&seen, &window).expect("well-conditioned alignment");
    close(value / scale, 1.0, 1e-9);
}

#[test]
fn a_static_camera_yields_no_trajectory_scale() {
    let mut seen = Vec::new();
    let mut window = Vec::new();
    for i in 0..10 {
        seen.push(Sighting {
            at: Scalar::from(i) * 0.1,
            id: 0,
            camera_in_tag: Vec3::new(0.0, 0.0, -0.8),
        });
        window.push((Scalar::from(i) * 0.1, Vec3::zeros()));
    }
    assert!(trajectory_scale(&seen, &window).is_none());
}

#[test]
fn observations_without_matching_poses_are_unusable() {
    let mut seen = Vec::new();
    let mut window = Vec::new();
    for i in 0..8 {
        let f = Scalar::from(i);
        seen.push(Sighting {
            at: f * 0.1,
            id: 0,
            camera_in_tag: Vec3::new(-0.01 * f, 0.0, -0.8),
        });
        window.push((60.0 + f * 0.1, Vec3::new(0.002 * f, 0.0, 0.0)));
    }
    assert!(trajectory_scale(&seen, &window).is_none());
}

#[test]
fn observe_turns_a_rendered_frame_into_a_metric_tag_observation() {
    let k = Camera::from_focal(600.0, 640, 480);
    let size = 0.1;
    let img = render_tag(7, &RenderConfig::facing(k, size, 0.6)).unwrap();
    let seen: Vec<Sighting> = detect(&img)
        .iter()
        .map(|d| {
            let (pose, rmse) = estimate_tag_pose(&d.corners, &k, size).unwrap();
            assert!(rmse <= 3.0);
            close(pose.translation.vector.z, 0.6, 1e-9);
            Sighting {
                at: 0.5,
                id: d.id,
                camera_in_tag: pose.inverse().translation.vector,
            }
        })
        .collect();
    assert_eq!(seen.len(), 1);
    assert_eq!(seen[0].id, 7);
    assert!(trajectory_scale(&seen, &[]).is_none());
}
