//! The pose, triangulation and bootstrap solvers on synthetic scenes, run by the library's
//! searches, gates and damped solves.

use nalgebra::{DMatrix, DVector, Matrix2x3, Matrix2x6, Matrix3x6, Rotation3, UnitQuaternion};
use wslam::track::damping::{DampedSolve, Damping, Trial};
use wslam::track::init::{
    choose_model, enough_matches, evidence, leader, polished, reconstruct, wants_polish, Bars,
    Evidence, InitModel, ModelSearch,
};
use wslam::track::motion_ba::{
    classify, constrains_a_pose, count_flags, is_selected, pick, MAX_ESCALATIONS,
};
use wslam::track::pnp::{
    is_solvable, is_supported, least_total, prefers_linear_seed, refit_round, start_refit,
    Consensus, Hypothesis, Refit, RefitOutcome, MIN_DLT_POINTS, SAMPLE_SIZE,
};
use wslam::track::triangulate::{judge, Candidate, TriangulationRejection, ViewCheck};

/// The number type of the front end.
type Scalar = f64;
/// A pixel, or any pair of numbers.
type Vec2 = nalgebra::Vector2<Scalar>;
/// A point or a direction in space.
type Vec3 = nalgebra::Vector3<Scalar>;
/// A step of a pose: translation first, then rotation.
type Vec6 = nalgebra::Vector6<Scalar>;
/// A matrix on space.
type Mat3 = nalgebra::Matrix3<Scalar>;
/// A matrix on steps of a pose.
type Mat6 = nalgebra::Matrix6<Scalar>;

/// The integer that orders `v` among all numbers, with the two zeros made one.
fn key(v: Scalar) -> u64 {
    wslam::order::total_order_key((v + 0.0).to_bits())
}

/// The matrix of the cross product with `v`.
fn hat(v: &Vec3) -> Mat3 {
    Mat3::new(0.0, -v.z, v.y, v.z, 0.0, -v.x, -v.y, v.x, 0.0)
}

/// The symmetric part of `m`.
fn symmetrize(m: &Mat6) -> Mat6 {
    (m + m.transpose()) * 0.5
}

/// The right singular vector of the smallest singular value.
fn null_vector(a: &DMatrix<Scalar>) -> Option<DVector<Scalar>> {
    let (rows, cols) = a.shape();
    let mut padded = DMatrix::<Scalar>::zeros(rows.max(cols), cols);
    padded.view_mut((0, 0), (rows, cols)).copy_from(a);
    let svd = padded.svd(false, true);
    let v_t = svd.v_t?;
    let (at, _) = svd.singular_values.iter().enumerate().min_by(|x, y| x.1.total_cmp(y.1))?;
    let v = v_t.row(at).transpose();
    v.iter().all(|c| c.is_finite()).then_some(v)
}

/// A rotation.
#[derive(Debug, Clone, Copy, PartialEq)]
struct So3(UnitQuaternion<Scalar>);

impl So3 {
    /// No rotation.
    fn identity() -> Self {
        So3(UnitQuaternion::identity())
    }

    /// The rotation about `w` by its length.
    fn exp(w: &Vec3) -> Self {
        So3(UnitQuaternion::from_scaled_axis(*w))
    }

    /// The axis of the rotation, as long as its angle.
    fn log(&self) -> Vec3 {
        self.0.scaled_axis()
    }

    /// The rotation nearest to a matrix.
    fn from_matrix(m: &Mat3) -> Self {
        So3(UnitQuaternion::from_rotation_matrix(&Rotation3::from_matrix(m)))
    }

    /// The rotation of a matrix that is orthonormal already.
    fn from_orthonormal(m: &Mat3) -> Self {
        So3(UnitQuaternion::from_rotation_matrix(&Rotation3::from_matrix_unchecked(*m)))
    }

    /// The matrix of the rotation.
    fn matrix(&self) -> Mat3 {
        self.0.to_rotation_matrix().into_inner()
    }

    /// The rotation back.
    fn inverse(&self) -> Self {
        So3(self.0.inverse())
    }

    /// First `other`, then this.
    fn compose(&self, other: &So3) -> Self {
        So3(self.0 * other.0)
    }

    /// `v` rotated.
    fn act(&self, v: &Vec3) -> Vec3 {
        self.0 * v
    }

    /// The angle of the rotation.
    fn angle(&self) -> Scalar {
        self.0.angle()
    }
}

/// A rigid motion. A pose takes camera coordinates to world coordinates.
#[derive(Debug, Clone, Copy, PartialEq)]
struct Se3 {
    rotation: So3,
    translation: Vec3,
}

impl Se3 {
    /// The motion that rotates, then translates.
    fn new(rotation: So3, translation: Vec3) -> Self {
        Se3 { rotation, translation }
    }

    /// No motion.
    fn identity() -> Self {
        Se3::new(So3::identity(), Vec3::zeros())
    }

    /// A translation.
    fn from_translation(translation: Vec3) -> Self {
        Se3::new(So3::identity(), translation)
    }

    /// The rotation of the motion.
    fn rotation(&self) -> So3 {
        self.rotation
    }

    /// The translation of the motion.
    fn translation(&self) -> Vec3 {
        self.translation
    }

    /// The motion back.
    fn inverse(&self) -> Self {
        let r = self.rotation.inverse();
        Se3::new(r, -r.act(&self.translation))
    }

    /// First `other`, then this.
    fn compose(&self, other: &Se3) -> Self {
        Se3::new(
            self.rotation.compose(&other.rotation),
            self.rotation.act(&other.translation) + self.translation,
        )
    }

    /// `p` moved.
    fn act(&self, p: &Vec3) -> Vec3 {
        self.rotation.act(p) + self.translation
    }

    /// The motion of a twist, translation first.
    fn exp(twist: &Vec6) -> Self {
        let rho = Vec3::new(twist[0], twist[1], twist[2]);
        let phi = Vec3::new(twist[3], twist[4], twist[5]);
        let theta = phi.norm();
        let w = hat(&phi);
        let (a, b) = if theta < 1e-6 {
            (0.5 - theta * theta / 24.0, 1.0 / 6.0 - theta * theta / 120.0)
        } else {
            ((1.0 - theta.cos()) / (theta * theta), (theta - theta.sin()) / (theta * theta * theta))
        };
        let v = Mat3::identity() + w * a + w * w * b;
        Se3::new(So3::exp(&phi), v * rho)
    }

    /// How far apart two poses are: translation, then rotation.
    fn minus(&self, other: &Se3) -> Vec6 {
        let d = other.inverse().compose(self);
        let (t, r) = (d.translation(), d.rotation().log());
        Vec6::new(t.x, t.y, t.z, r.x, r.y, r.z)
    }

    /// This pose after a small step in its own frame.
    fn plus(&self, step: &Vec6) -> Self {
        self.compose(&Se3::exp(step))
    }
}

/// The rigid motion that takes one point set to another with the least squared error.
#[derive(Debug, Clone, Copy)]
struct Alignment {
    /// The motion.
    motion: Se3,
    /// Root mean square of what is left.
    rmse: Scalar,
}

/// Umeyama's alignment of `src` to `dst`, without a scale.
fn umeyama(src: &[Vec3], dst: &[Vec3]) -> Option<Alignment> {
    let n = src.len();
    if n < 3 || dst.len() != n {
        return None;
    }
    let count = n as Scalar;
    let mean_src = src.iter().sum::<Vec3>() / count;
    let mean_dst = dst.iter().sum::<Vec3>() / count;
    let mut cov = Mat3::zeros();
    for (a, b) in src.iter().zip(dst) {
        cov += (b - mean_dst) * (a - mean_src).transpose() / count;
    }
    let mut svd = cov.svd(true, true);
    svd.sort_by_singular_values();
    let (u, v_t) = (svd.u?, svd.v_t?);
    let mut sign = Vec3::new(1.0, 1.0, 1.0);
    if u.determinant() * v_t.determinant() < 0.0 {
        sign.z = -1.0;
    }
    let rotation = So3::from_orthonormal(&(u * Mat3::from_diagonal(&sign) * v_t));
    let motion = Se3::new(rotation, mean_dst - rotation.act(&mean_src));
    let sum: Scalar = src.iter().zip(dst).map(|(a, b)| (motion.act(a) - b).norm_squared()).sum();
    let rmse = (sum / count).sqrt();
    rmse.is_finite().then_some(Alignment { motion, rmse })
}

/// A centred pinhole camera.
#[derive(Debug, Clone, Copy, PartialEq)]
struct CameraIntrinsics {
    fx: Scalar,
    fy: Scalar,
    cx: Scalar,
    cy: Scalar,
    width: u32,
    height: u32,
}

impl CameraIntrinsics {
    fn from_focal(focal: Scalar, width: u32, height: u32) -> Self {
        CameraIntrinsics {
            fx: focal,
            fy: focal,
            cx: Scalar::from(width) * 0.5,
            cy: Scalar::from(height) * 0.5,
            width,
            height,
        }
    }

    fn unproject_normalized(&self, px: Vec2) -> Vec2 {
        Vec2::new((px.x - self.cx) / self.fx, (px.y - self.cy) / self.fy)
    }

    fn unproject_bearing(&self, px: Vec2) -> Vec3 {
        let n = self.unproject_normalized(px);
        Vec3::new(n.x, n.y, 1.0).normalize()
    }

    /// How the pixel moves with the point.
    fn projection_jacobian(&self, p: &Vec3) -> Matrix2x3<Scalar> {
        let iz = 1.0 / p.z;
        Matrix2x3::new(
            self.fx * iz,
            0.0,
            -self.fx * p.x * iz * iz,
            0.0,
            self.fy * iz,
            -self.fy * p.y * iz * iz,
        )
    }

    fn contains(&self, px: Vec2, border: Scalar) -> bool {
        px.x >= border
            && px.y >= border
            && px.x <= Scalar::from(self.width) - 1.0 - border
            && px.y <= Scalar::from(self.height) - 1.0 - border
    }
}

/// A random number generator that a label and a seed fix completely.
#[derive(Debug, Clone)]
struct DeterministicRng {
    root: u64,
    state: u64,
}

fn mixed(mut z: u64) -> u64 {
    z = (z ^ (z >> 30)).wrapping_mul(0xbf58_476d_1ce4_e5b9);
    z = (z ^ (z >> 27)).wrapping_mul(0x94d0_49bb_1331_11eb);
    z ^ (z >> 31)
}

fn labelled(seed: u64, label: &str) -> u64 {
    label.bytes().fold(mixed(seed), |h, b| {
        (h ^ u64::from(b)).wrapping_mul(0x0100_0000_01b3)
    })
}

impl DeterministicRng {
    /// The generator of a label and a seed.
    fn new(label: &str, seed: u64) -> Self {
        let root = mixed(labelled(seed, label));
        DeterministicRng { root, state: root }
    }

    /// A generator of its own for one purpose, whatever was drawn from this one.
    fn fork(&self, label: &str, index: u64) -> Self {
        let root = mixed(labelled(self.root, label) ^ mixed(index));
        DeterministicRng { root, state: root }
    }

    /// The next number.
    fn next_u64(&mut self) -> u64 {
        self.state = self.state.wrapping_add(0x9e37_79b9_7f4a_7c15);
        mixed(self.state)
    }

    fn uniform_range(&mut self, low: Scalar, high: Scalar) -> Scalar {
        let u = (self.next_u64() >> 11) as Scalar / (1u64 << 53) as Scalar;
        low + (high - low) * u
    }

    fn normal(&mut self) -> Scalar {
        let u = self.uniform_range(0.0, 1.0);
        let v = self.uniform_range(0.0, std::f64::consts::TAU);
        (-2.0 * (1.0 - u).ln()).sqrt() * v.cos()
    }

    /// `count` distinct indices below `n` into `out`, or none when there are too few.
    fn sample_distinct(&mut self, n: usize, count: usize, out: &mut Vec<usize>) {
        out.clear();
        if count > n {
            return;
        }
        while out.len() < count {
            let i = (self.next_u64() % n as u64) as usize;
            if !out.contains(&i) {
                out.push(i);
            }
        }
    }
}

/// Two vectors agree in every entry.
fn near(a: Vec3, b: Vec3, epsilon: Scalar) {
    assert!((a - b).amax() <= epsilon, "{a:?} vs {b:?}");
}

/// Depth below which a landmark is treated as unobservable rather than projected.
const MIN_DEPTH: Scalar = 1e-6;

/// The camera as a pinhole, which it is already.
fn pinhole_only(k: &CameraIntrinsics) -> CameraIntrinsics {
    *k
}

/// Pinhole projection of a camera-frame point.
fn project_pinhole(k: &CameraIntrinsics, p_cam: &Vec3) -> Option<Vec2> {
    if p_cam.z <= MIN_DEPTH {
        return None;
    }
    Some(Vec2::new(k.fx * p_cam.x / p_cam.z + k.cx, k.fy * p_cam.y / p_cam.z + k.cy))
}

/// Predicted pixel and the 2x6 Jacobian of that pixel with respect to a right perturbation of the
/// pose, `d(pixel) / dδ` with `T + δ = T · exp(δ)`.
fn pose_jacobian(
    pose: &Se3,
    p_world: &Vec3,
    k: &CameraIntrinsics,
) -> Option<(Vec2, Matrix2x6<Scalar>)> {
    let p_cam = pose.inverse().act(p_world);
    let px = project_pinhole(k, &p_cam)?;
    let mut d_pcam = Matrix3x6::zeros();
    d_pcam.fixed_view_mut::<3, 3>(0, 0).copy_from(&(-Mat3::identity()));
    d_pcam.fixed_view_mut::<3, 3>(0, 3).copy_from(&hat(&p_cam));
    Some((px, k.projection_jacobian(&p_cam) * d_pcam))
}

/// Reprojection error in pixels for a single landmark, or `None` if it falls behind the camera.
fn reprojection_error(
    pose: &Se3,
    p_world: &Vec3,
    px: Vec2,
    k: &CameraIntrinsics,
) -> Option<Scalar> {
    let kp = pinhole_only(k);
    let p_cam = pose.inverse().act(p_world);
    Some((project_pinhole(&kp, &p_cam)? - px).norm())
}

/// Gauss-Newton normal equations for the reprojection problem at a pose.
#[derive(Debug, Clone, Copy)]
struct NormalEquations {
    /// `sum w J^T J`, the Gauss-Newton approximation to the Hessian.
    hessian: Mat6,
    /// `sum w J^T r`, the gradient of half the cost.
    gradient: Vec6,
    /// Robustified cost `sum rho(|r|)`, in squared pixels.
    cost: Scalar,
    /// Landmarks that contributed (in front of the camera and not masked out).
    used: usize,
}

/// Accumulate the normal equations at `pose`.
fn normal_equations(
    pose: &Se3,
    points_3d: &[Vec3],
    points_2d: &[Vec2],
    k: &CameraIntrinsics,
    mask: Option<&Vec<bool>>,
    huber_delta_px: Option<Scalar>,
) -> NormalEquations {
    let kp = pinhole_only(k);
    let mut out = NormalEquations {
        hessian: Mat6::zeros(),
        gradient: Vec6::zeros(),
        cost: 0.0,
        used: 0,
    };
    let n = points_3d.len().min(points_2d.len());
    for i in 0..n {
        if !is_selected(mask, i) {
            continue;
        }
        let Some((predicted, j)) = pose_jacobian(pose, &points_3d[i], &kp) else {
            continue;
        };
        let r = predicted - points_2d[i];
        let e = r.norm();
        let (w, rho) = match huber_delta_px {
            Some(d) if e > d && d > 0.0 => (d / e, d * (2.0 * e - d)),
            _ => (1.0, e * e),
        };
        out.hessian += j.transpose() * j * w;
        out.gradient += j.transpose() * r * w;
        out.cost += rho;
        out.used += 1;
    }
    out
}

/// Tuning for [`refine_motion_only`].
#[derive(Debug, Clone, Copy)]
struct MotionBaConfig {
    /// Maximum Levenberg-Marquardt iterations.
    max_iterations: usize,
    /// Huber transition point in pixels.
    huber_delta_px: Scalar,
    /// Initial LM damping.
    initial_lambda: Scalar,
    /// Relative cost decrease below which the solve is declared converged.
    tolerance: Scalar,
    /// Assumed per-axis pixel measurement noise, used only for the covariance.
    pixel_sigma: Scalar,
    /// Reprojection error above which a landmark is no inlier, in pixels.
    outlier_threshold_px: Scalar,
}

impl Default for MotionBaConfig {
    fn default() -> Self {
        MotionBaConfig {
            max_iterations: 20,
            huber_delta_px: 2.0,
            initial_lambda: 1e-4,
            tolerance: 1e-10,
            pixel_sigma: 1.0,
            outlier_threshold_px: 4.0,
        }
    }
}

/// Result of a motion-only bundle adjustment.
#[derive(Debug, Clone)]
struct MotionBaResult {
    /// Refined `T_world_camera`.
    pose: Se3,
    /// 6x6 covariance in `[translation.
    covariance: Mat6,
    /// Per-correspondence inlier flags, full length, `false` where masked out.
    inliers: Vec<bool>,
    /// Number of `true` entries in [`MotionBaResult::inliers`].
    inlier_count: usize,
    /// Accepted LM steps.
    iterations: usize,
    /// Robust cost before and after each accepted step.
    cost_history: Vec<Scalar>,
    /// Whether the relative-decrease test fired before the iteration cap.
    converged: bool,
    /// Mean reprojection error over the inliers, in pixels.
    mean_reprojection_error: Scalar,
}

/// Levenberg-Marquardt motion-only bundle adjustment.
fn refine_motion_only(
    initial: &Se3,
    points_3d: &[Vec3],
    points_2d: &[Vec2],
    k: &CameraIntrinsics,
    mask: Option<&Vec<bool>>,
    config: &MotionBaConfig,
) -> Option<MotionBaResult> {
    let kp = pinhole_only(k);
    let huber = Some(config.huber_delta_px);
    let mut pose = *initial;
    let mut ne = normal_equations(&pose, points_3d, points_2d, &kp, mask, huber);
    if !constrains_a_pose(ne.used) {
        return None;
    }
    let mut lambda = config.initial_lambda;
    let mut cost_history = vec![ne.cost];
    let mut solve = DampedSolve::start(key(ne.cost), config.max_iterations, MAX_ESCALATIONS);
    while solve.is_running() {
        let mut damped = ne.hessian;
        for d in 0..6 {
            let diag = ne.hessian[(d, d)];
            damped[(d, d)] += lambda * if diag > 0.0 { diag } else { 1.0 };
        }
        let damping = match solve_spd(&damped, &(-ne.gradient)) {
            None => solve.record(Trial::Unsolvable),
            Some(step) => {
                let candidate = pose.plus(&step);
                let next = normal_equations(&candidate, points_3d, points_2d, &kp, mask, huber);
                let damping = solve.record(Trial::Candidate {
                    usable: constrains_a_pose(next.used) && !next.cost.is_nan(),
                    cost: key(next.cost),
                    settles: ne.cost - next.cost <= config.tolerance * (1.0 + ne.cost),
                });
                if damping == Damping::Shrink {
                    pose = candidate;
                    ne = next;
                    cost_history.push(ne.cost);
                }
                damping
            }
        };
        lambda = match damping {
            Damping::Shrink => (lambda * 0.3).max(1e-12),
            Damping::Grow => lambda * 10.0,
        };
    }

    let n = points_3d.len().min(points_2d.len());
    let errors: Vec<Option<Scalar>> = (0..n)
        .map(|i| reprojection_error(&pose, &points_3d[i], points_2d[i], &kp))
        .collect();
    let hits: Vec<bool> = errors
        .iter()
        .map(|e| e.is_some_and(|e| e <= config.outlier_threshold_px))
        .collect();
    let inliers = classify(points_3d.len(), mask, &hits);
    let err_sum: Scalar = errors
        .iter()
        .zip(&inliers.flags)
        .filter_map(|(e, &ok)| if ok { *e } else { None })
        .sum();

    let covariance =
        pose_covariance(&pose, points_3d, &kp, config.pixel_sigma, Some(&inliers.flags))
            .unwrap_or_else(Mat6::zeros);
    Some(MotionBaResult {
        pose,
        covariance,
        inlier_count: inliers.count,
        iterations: solve.accepted(),
        cost_history,
        converged: solve.converged(),
        mean_reprojection_error: if inliers.count > 0 {
            err_sum / inliers.count as Scalar
        } else {
            Scalar::INFINITY
        },
        inliers: inliers.flags,
    })
}

fn solve_spd(a: &Mat6, b: &Vec6) -> Option<Vec6> {
    let x = match nalgebra::linalg::Cholesky::new(*a) {
        Some(chol) => chol.solve(b),
        None => a.lu().solve(b)?,
    };
    x.iter().all(|v| v.is_finite()).then_some(x)
}

/// Acceptance criteria for a triangulated landmark.
#[derive(Debug, Clone, Copy)]
struct TriangulationConfig {
    /// Minimum angle subtended at the landmark by the two most separated viewpoints, in radians.
    min_parallax_rad: Scalar,
    /// Maximum per-view reprojection error, in pixels.
    max_reprojection_px: Scalar,
    /// Pixel measurement noise, per axis.
    pixel_sigma: Scalar,
    /// Depth horizon in world units.
    max_depth: Scalar,
}

impl Default for TriangulationConfig {
    fn default() -> Self {
        TriangulationConfig {
            min_parallax_rad: 1.0_f64.to_radians(),
            max_reprojection_px: 4.0,
            pixel_sigma: 1.0,
            max_depth: 1.0e4,
        }
    }
}

/// An accepted landmark and everything the caller needs to judge it.
#[derive(Debug, Clone, Copy)]
struct TriangulatedPoint {
    /// Position in world coordinates.
    position: Vec3,
    /// 3x3 position covariance, `pixel_sigma^2 (J^T J)^-1`.
    covariance: Mat3,
    /// Largest angle subtended at the point by any pair of viewpoints.
    parallax_rad: Scalar,
    /// Worst per-view reprojection error, in pixels.
    max_reprojection_px: Scalar,
    /// Views that contributed.
    views: usize,
}

/// Linear DLT triangulation from two views.
fn triangulate_dlt(
    pose_a: &Se3,
    px_a: Vec2,
    pose_b: &Se3,
    px_b: Vec2,
    k: &CameraIntrinsics,
) -> Option<Vec3> {
    triangulate_dlt_n(&[(*pose_a, px_a), (*pose_b, px_b)], k)
}

/// Linear DLT triangulation from n views.
fn triangulate_dlt_n(observations: &[(Se3, Vec2)], k: &CameraIntrinsics) -> Option<Vec3> {
    if observations.len() < 2 {
        return None;
    }
    let kp = pinhole_only(k);
    let mut a = DMatrix::<Scalar>::zeros(2 * observations.len(), 4);
    for (i, (pose, px)) in observations.iter().enumerate() {
        let n = kp.unproject_normalized(*px);
        let t_cw = pose.inverse();
        let r = t_cw.rotation().matrix();
        let t = t_cw.translation();
        let row0 = r.row(2) * n.x - r.row(0);
        let row1 = r.row(2) * n.y - r.row(1);
        a.fixed_view_mut::<1, 3>(2 * i, 0).copy_from(&row0);
        a.fixed_view_mut::<1, 3>(2 * i + 1, 0).copy_from(&row1);
        a[(2 * i, 3)] = n.x * t.z - t.x;
        a[(2 * i + 1, 3)] = n.y * t.z - t.y;
    }

    let v = null_vector(&a)?;
    if v[3].abs() < 1e-12 {
        return None;
    }
    let p = Vec3::new(v[0] / v[3], v[1] / v[3], v[2] / v[3]);
    p.iter().all(|c| c.is_finite()).then_some(p)
}

/// Midpoint triangulation.
fn triangulate_midpoint(observations: &[(Se3, Vec2)], k: &CameraIntrinsics) -> Option<Vec3> {
    if observations.len() < 2 {
        return None;
    }
    let kp = pinhole_only(k);
    let mut normal = Mat3::zeros();
    let mut rhs = Vec3::zeros();
    for (pose, px) in observations {
        let d = pose.rotation().act(&kp.unproject_bearing(*px));
        let o = pose.translation();
        let projector = Mat3::identity() - d * d.transpose();
        normal += projector;
        rhs += projector * o;
    }
    let x = normal.try_inverse()? * rhs;
    x.iter().all(|c| c.is_finite()).then_some(x)
}

/// Largest angle subtended at `point` by any pair of viewpoints.
fn max_parallax(point: &Vec3, poses: &[Se3]) -> Scalar {
    let dirs: Vec<Vec3> = poses
        .iter()
        .map(|p| point - p.translation())
        .filter(|v| v.norm() > 1e-12)
        .map(|v| v.normalize())
        .collect();
    let mut best = 0.0_f64;
    for (i, a) in dirs.iter().enumerate() {
        for b in dirs.iter().skip(i + 1) {
            best = best.max(a.dot(b).clamp(-1.0, 1.0).acos());
        }
    }
    best
}

/// 3x3 position covariance of a triangulated landmark.
fn point_covariance(
    point: &Vec3,
    poses: &[Se3],
    k: &CameraIntrinsics,
    pixel_sigma: Scalar,
) -> Option<Mat3> {
    if !(pixel_sigma.is_finite() && pixel_sigma > 0.0) {
        return None;
    }
    let kp = pinhole_only(k);
    let mut information = Mat3::zeros();
    let mut used = 0usize;
    for pose in poses {
        let t_cw = pose.inverse();
        let p_cam = t_cw.act(point);
        if p_cam.z <= MIN_DEPTH {
            continue;
        }
        let j = kp.projection_jacobian(&p_cam) * t_cw.rotation().matrix();
        information += j.transpose() * j;
        used += 1;
    }
    if used < 2 {
        return None;
    }
    let raw = information.try_inverse()? * (pixel_sigma * pixel_sigma);
    let cov = (raw + raw.transpose()) * 0.5;
    let sane = cov.iter().all(|v| v.is_finite()) && (0..3).all(|i| cov[(i, i)] > 0.0);
    sane.then_some(cov)
}

/// Triangulate from two views with every check applied.
fn triangulate_two_view(
    pose_a: &Se3,
    px_a: Vec2,
    pose_b: &Se3,
    px_b: Vec2,
    k: &CameraIntrinsics,
    config: &TriangulationConfig,
) -> Result<TriangulatedPoint, TriangulationRejection> {
    triangulate_n_view(&[(*pose_a, px_a), (*pose_b, px_b)], k, config)
}

/// Triangulate from n views with every check applied.
fn triangulate_n_view(
    observations: &[(Se3, Vec2)],
    k: &CameraIntrinsics,
    config: &TriangulationConfig,
) -> Result<TriangulatedPoint, TriangulationRejection> {
    let kp = pinhole_only(k);
    let point = triangulate_dlt_n(observations, &kp);
    let position = point.unwrap_or_else(Vec3::zeros);
    let poses: Vec<Se3> = observations.iter().map(|(p, _)| *p).collect();

    let mut worst_reprojection = 0.0_f64;
    let mut views = Vec::with_capacity(observations.len());
    for (pose, px) in observations {
        let p_cam = pose.inverse().act(&position);
        views.push(match project_pinhole(&kp, &p_cam) {
            None => ViewCheck::Behind,
            Some(predicted) => {
                worst_reprojection = worst_reprojection.max((predicted - px).norm());
                if p_cam.z > config.max_depth {
                    ViewCheck::Beyond
                } else {
                    ViewCheck::Visible
                }
            }
        });
    }
    let parallax = max_parallax(&position, &poses);
    let covariance = point_covariance(&position, &poses, &kp, config.pixel_sigma);
    judge(&Candidate {
        views,
        has_point: point.is_some(),
        parallax_is_enough: parallax.is_finite() && parallax >= config.min_parallax_rad,
        reprojects: worst_reprojection <= config.max_reprojection_px,
        has_covariance: covariance.is_some(),
    })?;
    Ok(TriangulatedPoint {
        position,
        covariance: covariance.unwrap_or_else(Mat3::zeros),
        parallax_rad: parallax,
        max_reprojection_px: worst_reprojection,
        views: observations.len(),
    })
}

/// Outcome of a robust PnP solve.
#[derive(Debug, Clone)]
struct PnpResult {
    /// Estimated `T_world_camera`.
    pose: Se3,
    /// Per-correspondence inlier flags, in input order.
    inliers: Vec<bool>,
    /// Number of `true` entries in [`PnpResult::inliers`].
    inlier_count: usize,
    /// Mean reprojection error over the inliers, in pixels.
    mean_reprojection_error: Scalar,
}

/// Grunert's P3P (Haralick et al., IJCV 1994, "Review and Analysis of Solutions of the Three
/// Point Perspective Pose Estimation Problem").
fn solve_p3p(points_3d: &[Vec3; 3], points_2d: &[Vec2; 3], k: &CameraIntrinsics) -> Vec<Se3> {
    let kp = pinhole_only(k);
    let bearings = [
        kp.unproject_bearing(points_2d[0]),
        kp.unproject_bearing(points_2d[1]),
        kp.unproject_bearing(points_2d[2]),
    ];

    let (p1, p2, p3) = (points_3d[0], points_3d[1], points_3d[2]);
    let side_a = (p3 - p2).norm();
    let side_b = (p3 - p1).norm();
    let side_c = (p2 - p1).norm();
    let scale = side_a.max(side_b).max(side_c);
    if scale <= 0.0 || side_a < 1e-9 * scale || side_b < 1e-9 * scale || side_c < 1e-9 * scale {
        return Vec::new();
    }
    if (p2 - p1).cross(&(p3 - p1)).norm() < 1e-8 * side_b * side_c {
        return Vec::new();
    }

    let cos_alpha = bearings[1].dot(&bearings[2]).clamp(-1.0, 1.0);
    let cos_beta = bearings[0].dot(&bearings[2]).clamp(-1.0, 1.0);
    let cos_gamma = bearings[0].dot(&bearings[1]).clamp(-1.0, 1.0);
    if (1.0 - cos_alpha.abs()) < 1e-14
        || (1.0 - cos_beta.abs()) < 1e-14
        || (1.0 - cos_gamma.abs()) < 1e-14
    {
        return Vec::new();
    }

    let m = (side_a * side_a - side_c * side_c) / (side_b * side_b);
    let n = (side_c * side_c) / (side_b * side_b);

    let (n2, n1, n0) = (m - 1.0, -2.0 * m * cos_beta, m + 1.0);
    let (d1, d0) = (-2.0 * cos_alpha, 2.0 * cos_gamma);
    let (g2, g1, g0) = (-n, 2.0 * n * cos_beta, 1.0 - n);
    let kk = -2.0 * cos_gamma;

    let quartic = [
        n0 * n0 + kk * n0 * d0 + g0 * d0 * d0,
        2.0 * n1 * n0 + kk * (n1 * d0 + n0 * d1) + g1 * d0 * d0 + 2.0 * g0 * d1 * d0,
        n1 * n1
            + 2.0 * n2 * n0
            + kk * (n2 * d0 + n1 * d1)
            + g2 * d0 * d0
            + 2.0 * g1 * d1 * d0
            + g0 * d1 * d1,
        2.0 * n2 * n1 + kk * n2 * d1 + 2.0 * g2 * d1 * d0 + g1 * d1 * d1,
        n2 * n2 + g2 * d1 * d1,
    ];

    let mut out = Vec::with_capacity(4);
    for v in solve_quartic(&quartic) {
        if !(v.is_finite() && v > 0.0) {
            continue;
        }
        let denom = 1.0 + v * v - 2.0 * v * cos_beta;
        if denom <= 1e-12 {
            continue;
        }
        let s1 = (side_b * side_b / denom).sqrt();

        let d_of_v = d1 * v + d0;
        let candidates_u = if d_of_v.abs() > 1e-9 {
            let n_of_v = n2 * v * v + n1 * v + n0;
            vec![n_of_v / d_of_v]
        } else {
            let c = 1.0 - n * denom;
            let disc = cos_gamma * cos_gamma - c;
            if disc < 0.0 {
                continue;
            }
            let root = disc.sqrt();
            vec![cos_gamma + root, cos_gamma - root]
        };

        for u in candidates_u {
            if !(u.is_finite() && u > 0.0) {
                continue;
            }
            let cam = [bearings[0] * s1, bearings[1] * (u * s1), bearings[2] * (v * s1)];
            let fit_a = ((cam[2] - cam[1]).norm() - side_a).abs();
            let fit_c = ((cam[1] - cam[0]).norm() - side_c).abs();
            if fit_a > 1e-6 * scale || fit_c > 1e-6 * scale {
                continue;
            }
            let Some(align) = umeyama(points_3d, &cam) else {
                continue;
            };
            if align.rmse > 1e-7 * scale {
                continue;
            }
            out.push(align.motion.inverse());
        }
    }
    out
}

/// P3P over the first three correspondences, disambiguated by the reprojection error of every
/// remaining correspondence.
fn solve_p3p_disambiguated(
    points_3d: &[Vec3],
    points_2d: &[Vec2],
    k: &CameraIntrinsics,
) -> Option<Se3> {
    if points_3d.len() < 4 || points_2d.len() < points_3d.len() {
        return None;
    }
    let triple_3d = [points_3d[0], points_3d[1], points_3d[2]];
    let triple_2d = [points_2d[0], points_2d[1], points_2d[2]];
    let solutions = solve_p3p(&triple_3d, &triple_2d, k);
    select_by_reprojection(&solutions, &points_3d[3..], &points_2d[3..], k)
}

/// Pick the pose with the lowest total reprojection error over a validation set, rejecting any
/// pose that puts a validation point behind the camera.
fn select_by_reprojection(
    candidates: &[Se3],
    points_3d: &[Vec3],
    points_2d: &[Vec2],
    k: &CameraIntrinsics,
) -> Option<Se3> {
    let kp = pinhole_only(k);
    let totals: Vec<Option<u64>> = candidates
        .iter()
        .map(|pose| {
            let inv = pose.inverse();
            let mut total = 0.0;
            for (p, px) in points_3d.iter().zip(points_2d.iter()) {
                total += (project_pinhole(&kp, &inv.act(p))? - px).norm();
            }
            Some(key(total))
        }).collect();
    least_total(&totals).map(|i| candidates[i])
}

/// Direct linear transform PnP.
fn solve_pnp_dlt(points_3d: &[Vec3], points_2d: &[Vec2], k: &CameraIntrinsics) -> Option<Se3> {
    let n = points_3d.len();
    if n < MIN_DLT_POINTS || points_2d.len() < n {
        return None;
    }
    let kp = pinhole_only(k);

    let centroid: Vec3 = points_3d.iter().sum::<Vec3>() / n as Scalar;
    let mean_dist = points_3d.iter().map(|p| (p - centroid).norm()).sum::<Scalar>()
        / n as Scalar;
    if !(mean_dist.is_finite() && mean_dist > 1e-12) {
        return None;
    }
    let s = (3.0 as Scalar).sqrt() / mean_dist;

    let mut a = DMatrix::<Scalar>::zeros(2 * n, 12);
    for i in 0..n {
        let q = (points_3d[i] - centroid) * s;
        let z = kp.unproject_normalized(points_2d[i]);
        let xh = [q.x, q.y, q.z, 1.0];
        for (c, &v) in xh.iter().enumerate() {
            a[(2 * i, c)] = -v;
            a[(2 * i, 8 + c)] = z.x * v;
            a[(2 * i + 1, 4 + c)] = -v;
            a[(2 * i + 1, 8 + c)] = z.y * v;
        }
    }

    let v = null_vector(&a)?;
    let mut p_norm = nalgebra::Matrix3x4::<Scalar>::zeros();
    for r in 0..3 {
        for c in 0..4 {
            p_norm[(r, c)] = v[r * 4 + c];
        }
    }
    let mut u = nalgebra::Matrix4::<Scalar>::identity();
    u[(0, 0)] = s;
    u[(1, 1)] = s;
    u[(2, 2)] = s;
    u[(0, 3)] = -s * centroid.x;
    u[(1, 3)] = -s * centroid.y;
    u[(2, 3)] = -s * centroid.z;
    let mut p = p_norm * u;

    let depth =
        p[(2, 0)] * centroid.x + p[(2, 1)] * centroid.y + p[(2, 2)] * centroid.z + p[(2, 3)];
    if depth < 0.0 {
        p = -p;
    }

    let m: Mat3 = p.fixed_view::<3, 3>(0, 0).into_owned();
    let svd = m.svd(true, true);
    let (u_m, vt_m) = (svd.u?, svd.v_t?);
    let rot = u_m * vt_m;
    if rot.determinant() < 0.0 {
        return None;
    }
    let sv = svd.singular_values;
    let lambda = (sv[0] + sv[1] + sv[2]) / 3.0;
    if !(lambda.is_finite() && lambda > 1e-12) {
        return None;
    }
    let t_cw = Vec3::new(p[(0, 3)], p[(1, 3)], p[(2, 3)]) / lambda;
    Some(Se3::new(So3::from_orthonormal(&rot), t_cw).inverse())
}

/// Robust PnP.
fn solve_pnp_ransac(
    points_3d: &[Vec3],
    points_2d: &[Vec2],
    k: &CameraIntrinsics,
    threshold_px: Scalar,
    iterations: usize,
    rng: &mut DeterministicRng,
) -> Option<PnpResult> {
    let n = points_3d.len();
    if !is_solvable(n, points_2d.len(), iterations, threshold_px > 0.0) {
        return None;
    }
    let kp = pinhole_only(k);

    let mut search: Consensus<Se3> = Consensus::start(iterations, key(Scalar::INFINITY));
    let mut sample = Vec::with_capacity(SAMPLE_SIZE);
    while search.wants_sample() {
        rng.sample_distinct(n, SAMPLE_SIZE, &mut sample);
        if sample.len() < SAMPLE_SIZE {
            break;
        }
        let triple_3d = [points_3d[sample[0]], points_3d[sample[1]], points_3d[sample[2]]];
        let triple_2d = [points_2d[sample[0]], points_2d[sample[1]], points_2d[sample[2]]];
        for pose in solve_p3p(&triple_3d, &triple_2d, &kp) {
            let (flags, error) = classify_pose(&pose, points_3d, points_2d, &kp, threshold_px);
            search.consider(Hypothesis { pose, count: count_flags(&flags), error: key(error) });
        }
        let ratio = search.best_count() as Scalar / n as Scalar;
        search.sample_done(adaptive_iterations(ratio, SAMPLE_SIZE as u32, 0.99));
    }
    let winner = search.winner()?;
    if !is_supported(winner.count) {
        return None;
    }

    let (mut inliers, _) = classify_pose(&winner.pose, points_3d, points_2d, &kp, threshold_px);
    let ba_config = MotionBaConfig {
        huber_delta_px: threshold_px,
        outlier_threshold_px: threshold_px,
        max_iterations: 15,
        ..MotionBaConfig::default()
    };
    let mut refit = start_refit(winner.pose);
    let pose = loop {
        let current = match refit {
            Refit::Running { pose, .. } => pose,
            Refit::Settled { pose } => break pose,
            Refit::Refused => return None,
        };
        let seed = better_seed(&current, points_3d, points_2d, &inliers, &kp);
        let refined =
            refine_motion_only(&seed, points_3d, points_2d, &kp, Some(&inliers), &ba_config);
        let outcome = match refined {
            None => RefitOutcome::Failed,
            Some(r) => {
                let (flags, _) = classify_pose(&r.pose, points_3d, points_2d, &kp, threshold_px);
                let classified = count_flags(&flags);
                if is_supported(r.inlier_count) {
                    inliers = flags;
                }
                RefitOutcome::Refined { pose: r.pose, kept: r.inlier_count, classified }
            }
        };
        refit = refit_round(refit, outcome);
    };

    let (inliers, error_sum) = classify_pose(&pose, points_3d, points_2d, &kp, threshold_px);
    let inlier_count = count_flags(&inliers);
    if !is_supported(inlier_count) {
        return None;
    }
    Some(PnpResult {
        pose,
        inliers,
        inlier_count,
        mean_reprojection_error: error_sum / inlier_count as Scalar,
    })
}

/// 6x6 pose covariance from the Gauss-Newton normal equations at `pose`.
fn pose_covariance(
    pose: &Se3,
    points_3d: &[Vec3],
    k: &CameraIntrinsics,
    pixel_sigma: Scalar,
    inliers: Option<&Vec<bool>>,
) -> Option<Mat6> {
    if !(pixel_sigma.is_finite() && pixel_sigma > 0.0) {
        return None;
    }
    let kp = pinhole_only(k);
    let mut information = Mat6::zeros();
    let mut used = 0usize;
    for (i, p) in points_3d.iter().enumerate() {
        if !is_selected(inliers, i) {
            continue;
        }
        if let Some((_, j)) = pose_jacobian(pose, p, &kp) {
            information += j.transpose() * j;
            used += 1;
        }
    }
    if !constrains_a_pose(used) {
        return None;
    }
    let cov = symmetrize(&(information.try_inverse()? * (pixel_sigma * pixel_sigma)));
    let sane = cov.iter().all(|v| v.is_finite()) && (0..6).all(|i| cov[(i, i)] > 0.0);
    sane.then_some(cov)
}

/// RANSAC iteration count for a given inlier ratio, sample size and confidence.
fn adaptive_iterations(inlier_ratio: Scalar, sample_size: u32, confidence: Scalar) -> usize {
    let w = inlier_ratio.clamp(1e-6, 1.0 - 1e-9);
    let p_clean = w.powi(sample_size as i32);
    let denom = (-p_clean).ln_1p();
    if !denom.is_finite() {
        return 1;
    }
    if denom == 0.0 {
        return usize::MAX;
    }
    let n = (1.0 - confidence).ln() / denom;
    if n.is_nan() || n <= 1.0 {
        1
    } else {
        n.ceil() as usize
    }
}

/// The inlier flags of `pose` and the sum of the inliers' errors.
fn classify_pose(
    pose: &Se3,
    points_3d: &[Vec3],
    points_2d: &[Vec2],
    k: &CameraIntrinsics,
    threshold_px: Scalar,
) -> (Vec<bool>, Scalar) {
    let inv = pose.inverse();
    let mut sum = 0.0;
    let flags = points_3d
        .iter()
        .zip(points_2d)
        .map(|(p, px)| {
            let error = project_pinhole(k, &inv.act(p)).map(|pred| (pred - px).norm());
            match error {
                Some(e) if e <= threshold_px => {
                    sum += e;
                    true
                }
                _ => false,
            }
        }).collect();
    (flags, sum)
}

/// Whichever of the current pose and a fresh linear fit over the consensus set has the lower
/// reprojection cost.
fn better_seed(
    current: &Se3,
    points_3d: &[Vec3],
    points_2d: &[Vec2],
    inliers: &Vec<bool>,
    k: &CameraIntrinsics,
) -> Se3 {
    let cost = |p: &Se3| {
        key(normal_equations(p, points_3d, points_2d, k, Some(inliers), None).cost)
    };
    let sub_3d = pick(&points_3d.to_vec(), inliers);
    let sub_2d = pick(&points_2d.to_vec(), inliers);
    let linear = solve_pnp_dlt(&sub_3d, &sub_2d, k);
    match linear {
        Some(seed)
            if prefers_linear_seed(count_flags(inliers), Some(cost(&seed)), cost(current)) =>
        {
            seed
        }
        _ => *current,
    }
}

/// Real roots of `c[4] x^4 + c[3] x^3 + c[2] x^2 + c[1] x + c[0]`, via Ferrari's resolvent cubic
/// and a Newton polish.
fn solve_quartic(c: &[Scalar; 5]) -> Vec<Scalar> {
    let scale = c.iter().fold(0.0_f64, |m, v| m.max(v.abs()));
    if !scale.is_finite() || scale == 0.0 {
        return Vec::new();
    }
    if c[4].abs() < 1e-14 * scale {
        return solve_cubic(c[3], c[2], c[1], c[0]);
    }
    let (a, b, cc, d) = (c[3] / c[4], c[2] / c[4], c[1] / c[4], c[0] / c[4]);

    let shift = a / 4.0;
    let p = b - 3.0 / 8.0 * a * a;
    let q = cc - 0.5 * a * b + a * a * a / 8.0;
    let r = d - 0.25 * a * cc + a * a * b / 16.0 - 3.0 / 256.0 * a * a * a * a;

    let mut roots = Vec::with_capacity(4);
    if q.abs() < 1e-14 * (1.0 + p.abs() + r.abs()) {
        let disc = p * p - 4.0 * r;
        if disc >= 0.0 {
            let s = disc.sqrt();
            for z in [(-p + s) * 0.5, (-p - s) * 0.5] {
                if z >= 0.0 {
                    let y = z.sqrt();
                    roots.push(y - shift);
                    roots.push(-y - shift);
                }
            }
        }
    } else {
        let cubic = solve_cubic_monic(p, (p * p - 4.0 * r) / 4.0, -q * q / 8.0);
        let m = cubic.into_iter().filter(|m| *m > 1e-14).fold(0.0_f64, f64::max);
        if m > 0.0 {
            let s = (2.0 * m).sqrt();
            let base = p * 0.5 + m;
            for (lin, konst) in [(-s, base + q / (2.0 * s)), (s, base - q / (2.0 * s))] {
                let disc = lin * lin - 4.0 * konst;
                if disc >= 0.0 {
                    let sq = disc.sqrt();
                    roots.push((-lin + sq) * 0.5 - shift);
                    roots.push((-lin - sq) * 0.5 - shift);
                }
            }
        }
    }

    for root in roots.iter_mut() {
        for _ in 0..8 {
            let f = ((((c[4] * *root) + c[3]) * *root + c[2]) * *root + c[1]) * *root + c[0];
            let df = (((4.0 * c[4] * *root) + 3.0 * c[3]) * *root + 2.0 * c[2]) * *root + c[1];
            if df.abs() < 1e-300 {
                break;
            }
            let step = f / df;
            *root -= step;
            if step.abs() < 1e-16 * (1.0 + root.abs()) {
                break;
            }
        }
    }
    roots.retain(|r| r.is_finite());
    roots.sort_by(|a, b| a.partial_cmp(b).unwrap_or(std::cmp::Ordering::Equal));
    roots.dedup_by(|a, b| (*a - *b).abs() <= 1e-9 * (1.0 + a.abs()));
    roots
}

/// Real roots of `a3 x^3 + a2 x^2 + a1 x + a0`, degrading to the quadratic or linear case when
/// the leading coefficients vanish.
fn solve_cubic(a3: Scalar, a2: Scalar, a1: Scalar, a0: Scalar) -> Vec<Scalar> {
    if a3.abs() < 1e-300 {
        return solve_quadratic(a2, a1, a0);
    }
    solve_cubic_monic(a2 / a3, a1 / a3, a0 / a3)
}

/// Real roots of the monic cubic `x^3 + b x^2 + c x + d`.
fn solve_cubic_monic(b: Scalar, c: Scalar, d: Scalar) -> Vec<Scalar> {
    let shift = b / 3.0;
    let p = c - b * b / 3.0;
    let q = 2.0 * b * b * b / 27.0 - b * c / 3.0 + d;
    let half_q = q * 0.5;
    let third_p = p / 3.0;
    let disc = half_q * half_q + third_p * third_p * third_p;

    if disc > 0.0 {
        let s = disc.sqrt();
        let t = (-half_q + s).cbrt() + (-half_q - s).cbrt();
        vec![t - shift]
    } else if disc.abs() <= 1e-300 {
        let u = (-half_q).cbrt();
        vec![2.0 * u - shift, -u - shift]
    } else {
        let m = (-third_p).sqrt();
        let phi = (-half_q / (m * m * m)).clamp(-1.0, 1.0).acos() / 3.0;
        let tau = std::f64::consts::TAU / 3.0;
        vec![
            2.0 * m * phi.cos() - shift,
            2.0 * m * (phi - tau).cos() - shift,
            2.0 * m * (phi + tau).cos() - shift,
        ]
    }
}

fn solve_quadratic(a: Scalar, b: Scalar, c: Scalar) -> Vec<Scalar> {
    if a.abs() < 1e-300 {
        return if b.abs() < 1e-300 {
            Vec::new()
        } else {
            vec![-c / b]
        };
    }
    let disc = b * b - 4.0 * a * c;
    if disc < 0.0 {
        Vec::new()
    } else {
        let s = disc.sqrt();
        vec![(-b + s) / (2.0 * a), (-b - s) / (2.0 * a)]
    }
}

/// Direct linear transform homography `src -> dst`, with Hartley normalisation.
fn homography_dlt(correspondences: &[(Vec2, Vec2)]) -> Option<Mat3> {
    let n = correspondences.len();
    if n < 4 {
        return None;
    }
    let src: Vec<Vec2> = correspondences.iter().map(|c| c.0).collect();
    let dst: Vec<Vec2> = correspondences.iter().map(|c| c.1).collect();
    let (t_src, ns) = normalise(&src)?;
    let (t_dst, nd) = normalise(&dst)?;

    let mut a = DMatrix::<Scalar>::zeros(2 * n, 9);
    for i in 0..n {
        let (x, y) = (ns[i].x, ns[i].y);
        let (u, v) = (nd[i].x, nd[i].y);
        let top = [-x, -y, -1.0, 0.0, 0.0, 0.0, u * x, u * y, u];
        let bottom = [0.0, 0.0, 0.0, -x, -y, -1.0, v * x, v * y, v];
        for c in 0..9 {
            a[(2 * i, c)] = top[c];
            a[(2 * i + 1, c)] = bottom[c];
        }
    }
    let h_n = Mat3::from_row_slice(null_vector(&a)?.as_slice());

    let h = t_dst.try_inverse()? * h_n * t_src;
    if h.iter().any(|v| !v.is_finite()) || h[(2, 2)].abs() < 1e-15 {
        return None;
    }
    Some(h / h[(2, 2)])
}

/// Hartley normalisation: the transform, and the points it gives.
fn normalise(points: &[Vec2]) -> Option<(Mat3, Vec<Vec2>)> {
    let n = points.len() as Scalar;
    let mean: Vec2 = points.iter().sum::<Vec2>() / n;
    let mean_dist = points.iter().map(|p| (p - mean).norm()).sum::<Scalar>() / n;
    if !(mean_dist.is_finite() && mean_dist > 1e-12) {
        return None;
    }
    let s = std::f64::consts::SQRT_2 / mean_dist;
    let t = Mat3::new(s, 0.0, -s * mean.x, 0.0, s, -s * mean.y, 0.0, 0.0, 1.0);
    let out = points.iter().map(|p| Vec2::new(s * (p.x - mean.x), s * (p.y - mean.y))).collect();
    Some((t, out))
}

/// A robustly fitted two-view model, in normalised image coordinates.
type ModelFit = wslam::track::init::ModelFit<ScoredModel>;

/// A two-view model with its score.
#[derive(Debug, Clone, Copy)]
struct ScoredModel {
    /// The matrix of the model.
    matrix: Mat3,
    /// How well the matches agree with it, over both directions.
    score: Scalar,
}

/// Chi-squared 95% quantile with two degrees of freedom.
const CHI2_2DOF_95: Scalar = 5.991;
/// Chi-squared 95% quantile with one degree of freedom.
const CHI2_1DOF_95: Scalar = 3.841;

/// Parallax floor applied while *disambiguating* the decomposition.
const CHEIRALITY_PARALLAX_RAD: Scalar = 0.02 * std::f64::consts::PI / 180.0;

/// Tuning for [`initialize_two_view`].
#[derive(Debug, Clone, Copy)]
struct InitConfig {
    /// Assumed per-axis pixel measurement noise.
    pixel_sigma: Scalar,
    /// RANSAC iteration cap for both models.
    ransac_iterations: usize,
    /// Median parallax below which the pair is refused outright.
    min_parallax_rad: Scalar,
    /// Minimum inliers the winning model must have.
    min_inliers: usize,
    /// Minimum landmarks the winning `(R, t)` must triangulate.
    min_triangulated: usize,
    /// Maximum reprojection error for a landmark, in pixels.
    max_reprojection_px: Scalar,
    /// `S_H / (S_H + S_E)` above which the homography branch is taken.
    homography_ratio: Scalar,
    /// A second `(R, t)` candidate explaining more than this fraction of the winner's landmarks
    /// means the decomposition is ambiguous, and an ambiguous bootstrap poisons the whole
    /// session.
    ambiguity_ratio: Scalar,
    /// Fraction of the winning model's inliers that the chosen `(R, t)` must place in front of
    /// both cameras.
    min_cheiral_fraction: Scalar,
}

impl Default for InitConfig {
    fn default() -> Self {
        InitConfig {
            pixel_sigma: 1.0,
            ransac_iterations: 400,
            min_parallax_rad: 1.0_f64.to_radians(),
            min_inliers: 15,
            min_triangulated: 12,
            max_reprojection_px: 4.0,
            homography_ratio: 0.45,
            ambiguity_ratio: 0.75,
            min_cheiral_fraction: 0.9,
        }
    }
}

/// A landmark produced by the bootstrap.
#[derive(Debug, Clone, Copy)]
struct InitLandmark {
    /// Index into the input correspondence slice.
    match_index: usize,
    /// Position in the first camera's frame, in units of the baseline.
    position: Vec3,
    /// 3x3 position covariance in the same units.
    covariance: Mat3,
    /// Angle subtended at the landmark by the two viewpoints.
    parallax_rad: Scalar,
}

/// Outcome of a successful bootstrap.
#[derive(Debug, Clone)]
struct TwoViewInit {
    /// `T_world_camera` of the second view, with the first view placed at the world origin.
    pose: Se3,
    /// Which model was used.
    model: InitModel,
    /// Accepted landmarks.
    landmarks: Vec<InitLandmark>,
    /// Inlier flags of the winning model, in input order.
    inliers: Vec<bool>,
    /// Median parallax of the points in front of both cameras.
    median_parallax_rad: Scalar,
    /// Homography score.
    score_homography: Scalar,
    /// Essential score.
    score_essential: Scalar,
    /// `S_H / (S_H + S_E)`, the quantity compared against [`InitConfig::homography_ratio`].
    homography_ratio: Scalar,
}

/// A rotation, translation direction and plane normal from a homography.
#[derive(Debug, Clone, Copy)]
struct HomographyDecomposition {
    /// Rotation of `T_camera2_camera1`.
    rotation: So3,
    /// Unit translation of `T_camera2_camera1`.
    translation: Vec3,
    /// Plane normal in the first camera's frame.
    plane_normal: Vec3,
}

/// Eight-point essential matrix from **normalised image coordinates**.
fn estimate_essential_eight_point(correspondences: &[(Vec2, Vec2)]) -> Option<Mat3> {
    if correspondences.len() < 8 {
        return None;
    }
    let src: Vec<Vec2> = correspondences.iter().map(|c| c.0).collect();
    let dst: Vec<Vec2> = correspondences.iter().map(|c| c.1).collect();
    let (t1, a) = normalise(&src)?;
    let (t2, b) = normalise(&dst)?;

    let mut rows = DMatrix::<Scalar>::zeros(a.len(), 9);
    for (i, (p, q)) in a.iter().zip(b.iter()).enumerate() {
        let row = [q.x * p.x, q.x * p.y, q.x, q.y * p.x, q.y * p.y, q.y, p.x, p.y, 1.0];
        for (c, v) in row.into_iter().enumerate() {
            rows[(i, c)] = v;
        }
    }
    let e_norm = Mat3::from_row_slice(null_vector(&rows)?.as_slice());

    let mut svd = e_norm.svd(true, true);
    svd.sort_by_singular_values();
    let (u, v_t) = (svd.u?, svd.v_t?);
    let (s1, s2) = (svd.singular_values[0], svd.singular_values[1]);
    if !(s1.is_finite() && s1 > 1e-14) {
        return None;
    }
    let singular = u * Mat3::from_diagonal(&Vec3::new(s1, s2, 0.0)) * v_t;
    let e = t2.transpose() * singular * t1;
    e.iter().all(|v| v.is_finite()).then_some(e)
}

/// Robust homography fit over pixel correspondences.
fn estimate_homography_ransac(
    matches: &[(Vec2, Vec2)],
    k: &CameraIntrinsics,
    pixel_sigma: Scalar,
    iterations: usize,
    rng: &mut DeterministicRng,
) -> Option<ModelFit> {
    let normalized = normalize_matches(matches, k);
    ransac(&normalized, 4, iterations, rng, k, pixel_sigma, homography_dlt, score_homography)
}

/// Robust essential-matrix fit over pixel correspondences.
fn estimate_essential_ransac(
    matches: &[(Vec2, Vec2)],
    k: &CameraIntrinsics,
    pixel_sigma: Scalar,
    iterations: usize,
    rng: &mut DeterministicRng,
) -> Option<ModelFit> {
    let normalized = normalize_matches(matches, k);
    ransac(
        &normalized,
        8,
        iterations,
        rng,
        k,
        pixel_sigma,
        estimate_essential_eight_point,
        score_essential,
    )
}

/// The four `(R, t)` candidates consistent with an essential matrix.
fn decompose_essential(e: &Mat3) -> Vec<(So3, Vec3)> {
    let mut svd = e.svd(true, true);
    svd.sort_by_singular_values();
    let (Some(mut u), Some(mut v_t)) = (svd.u, svd.v_t) else {
        return Vec::new();
    };
    if u.determinant() < 0.0 {
        let mut c = u.column_mut(2);
        c *= -1.0;
    }
    if v_t.determinant() < 0.0 {
        let mut r = v_t.row_mut(2);
        r *= -1.0;
    }
    let w = Mat3::new(0.0, -1.0, 0.0, 1.0, 0.0, 0.0, 0.0, 0.0, 1.0);
    let t = u.column(2).into_owned();
    if t.norm() < 1e-12 {
        return Vec::new();
    }
    let t = t.normalize();
    [
        (u * w * v_t, t),
        (u * w * v_t, -t),
        (u * w.transpose() * v_t, t),
        (u * w.transpose() * v_t, -t),
    ].iter().map(|(r, t)| (So3::from_orthonormal(r), *t)).collect()
}

/// The (up to) eight `(R, t, n)` candidates consistent with a homography.
fn decompose_homography(h: &Mat3) -> Vec<HomographyDecomposition> {
    let mut svd = h.svd(true, true);
    svd.sort_by_singular_values();
    let (Some(u), Some(v_t)) = (svd.u, svd.v_t) else {
        return Vec::new();
    };
    let v = v_t.transpose();
    let sign = u.determinant() * v_t.determinant();
    let (d1, d2, d3) = (svd.singular_values[0], svd.singular_values[1], svd.singular_values[2]);
    if d3 <= 1e-12 || d1 / d2 < 1.0 + 1e-7 || d2 / d3 < 1.0 + 1e-7 {
        return Vec::new();
    }

    let span = d1 * d1 - d3 * d3;
    let aux1 = ((d1 * d1 - d2 * d2) / span).sqrt();
    let aux3 = ((d2 * d2 - d3 * d3) / span).sqrt();
    let x1 = [aux1, aux1, -aux1, -aux1];
    let x3 = [aux3, -aux3, aux3, -aux3];
    let cross = ((d1 * d1 - d2 * d2) * (d2 * d2 - d3 * d3)).sqrt();

    let mut out = Vec::with_capacity(8);

    let s_theta = cross / ((d1 + d3) * d2);
    let c_theta = (d2 * d2 + d1 * d3) / ((d1 + d3) * d2);
    for (i, sign_theta) in [s_theta, -s_theta, -s_theta, s_theta].iter().enumerate() {
        let rp = Mat3::new(c_theta, 0.0, -sign_theta, 0.0, 1.0, 0.0, *sign_theta, 0.0, c_theta);
        let tp = Vec3::new(x1[i], 0.0, -x3[i]) * (d1 - d3);
        out.push(build_decomposition(sign, &u, &rp, &v_t, &v, &tp, x1[i], x3[i]));
    }

    let s_phi = cross / ((d1 - d3) * d2);
    let c_phi = (d1 * d3 - d2 * d2) / ((d1 - d3) * d2);
    for (i, sign_phi) in [s_phi, -s_phi, -s_phi, s_phi].iter().enumerate() {
        let rp = Mat3::new(c_phi, 0.0, *sign_phi, 0.0, -1.0, 0.0, *sign_phi, 0.0, -c_phi);
        let tp = Vec3::new(x1[i], 0.0, x3[i]) * (d1 + d3);
        out.push(build_decomposition(sign, &u, &rp, &v_t, &v, &tp, x1[i], x3[i]));
    }
    out.retain(|d| d.translation.iter().all(|c| c.is_finite()));
    out
}

/// Two-view bootstrap.
fn initialize_two_view(
    matches: &[(Vec2, Vec2)],
    k: &CameraIntrinsics,
    config: &InitConfig,
    rng: &mut DeterministicRng,
) -> Option<TwoViewInit> {
    if !enough_matches(matches.len(), config.min_inliers) {
        return None;
    }
    let kp = pinhole_only(k);
    let iterations = config.ransac_iterations.max(1);

    let homography = estimate_homography_ransac(
        matches,
        &kp,
        config.pixel_sigma,
        iterations,
        &mut rng.fork("init-homography", 0),
    );
    let essential = estimate_essential_ransac(
        matches,
        &kp,
        config.pixel_sigma,
        iterations,
        &mut rng.fork("init-essential", 1),
    );

    let score_h = homography.as_ref().map_or(0.0, |f| f.model.score);
    let score_e = essential.as_ref().map_or(0.0, |f| f.model.score);
    let total = score_h + score_e;
    let ratio = score_h / total;
    let model = choose_model(
        homography.as_ref().map(|f| f.inlier_count),
        essential.as_ref().map(|f| f.inlier_count),
        !(total <= 0.0),
        ratio > config.homography_ratio,
        config.min_inliers,
    )?;
    let fit = match model {
        InitModel::Homography => homography?,
        InitModel::Essential => essential?,
    };

    let candidates: Vec<Se3> = match model {
        InitModel::Homography => decompose_homography(&fit.model.matrix)
            .into_iter()
            .map(|d| pose_from_relative(&d.rotation, &d.translation))
            .collect(),
        InitModel::Essential => decompose_essential(&fit.model.matrix)
            .into_iter()
            .map(|(r, t)| pose_from_relative(&r, &t))
            .collect(),
    };

    let tri_config = TriangulationConfig {
        min_parallax_rad: config.min_parallax_rad,
        max_reprojection_px: config.max_reprojection_px,
        pixel_sigma: config.pixel_sigma,
        max_depth: 1.0e4,
    };

    let cheirality_config = TriangulationConfig {
        min_parallax_rad: CHEIRALITY_PARALLAX_RAD.min(config.min_parallax_rad),
        ..tri_config
    };
    let floor = key(config.min_parallax_rad);
    let sights: Vec<Vec<InitLandmark>> = candidates
        .iter()
        .map(|pose| triangulate_all(matches, &fit.inliers, pose, &kp, &cheirality_config))
        .collect();
    let parallax: Vec<Vec<u64>> = sights
        .iter()
        .map(|s| s.iter().map(|l| key(l.parallax_rad)).collect())
        .collect();
    let all: Vec<Evidence> = parallax.iter().map(|p| evidence(p, floor)).collect();
    let at = leader(&all)?;
    let bars = Bars {
        rival_cheiral: highest_below(config.ambiguity_ratio * all[at].cheiral as Scalar),
        rival_strict: highest_below(config.ambiguity_ratio * all[at].strict as Scalar),
        leader_cheiral: least_above(config.min_cheiral_fraction * fit.inlier_count as Scalar),
    };
    let map = reconstruct(&all, at, bars, &parallax[at], floor, config.min_triangulated)?;
    let landmarks: Vec<InitLandmark> = map.landmarks.iter().map(|&i| sights[at][i]).collect();
    let median_parallax_rad = sights[at]
        .iter()
        .map(|l| l.parallax_rad)
        .find(|&p| key(p) == map.median)?;

    Some(TwoViewInit {
        pose: candidates[at],
        model,
        landmarks,
        inliers: fit.inliers,
        median_parallax_rad,
        score_homography: score_h,
        score_essential: score_e,
        homography_ratio: ratio,
    })
}

/// The greatest count that does not exceed `bar`; any count, where `bar` is no number.
fn highest_below(bar: Scalar) -> i64 {
    if bar.is_nan() {
        i64::MAX
    } else {
        bar.floor() as i64
    }
}

/// The least count that reaches `bar`; any count, where `bar` is no number.
fn least_above(bar: Scalar) -> i64 {
    if bar.is_nan() {
        i64::MIN
    } else {
        bar.ceil() as i64
    }
}

fn normalize_matches(matches: &[(Vec2, Vec2)], k: &CameraIntrinsics) -> Vec<(Vec2, Vec2)> {
    let kp = pinhole_only(k);
    matches
        .iter()
        .map(|(a, b)| (kp.unproject_normalized(*a), kp.unproject_normalized(*b)))
        .collect()
}

/// `T_world_camera2` from a relative `(R, t) = T_camera2_camera1`, with the first camera at the
/// world origin.
fn pose_from_relative(rotation: &So3, translation: &Vec3) -> Se3 {
    Se3::new(*rotation, *translation).inverse()
}

/// Shared RANSAC driver for the two models.
fn ransac(
    normalized: &[(Vec2, Vec2)],
    sample_size: usize,
    iterations: usize,
    rng: &mut DeterministicRng,
    k: &CameraIntrinsics,
    pixel_sigma: Scalar,
    estimate: impl Fn(&[(Vec2, Vec2)]) -> Option<Mat3>,
    score: impl Fn(&Mat3, &[(Vec2, Vec2)], &CameraIntrinsics, Scalar, &mut [bool]) -> Scalar,
) -> Option<ModelFit> {
    let n = normalized.len();
    if n < sample_size {
        return None;
    }
    let fitted = |model: Mat3| {
        let mut flags = vec![false; n];
        let score = score(&model, normalized, k, pixel_sigma, &mut flags);
        let rank = if score.is_nan() { 0 } else { key(score) };
        let matrix = model;
        ModelFit::new(ScoredModel { matrix, score }, flags, rank)
    };

    let mut search: ModelSearch<ScoredModel> = ModelSearch::start(iterations);
    let mut indices = Vec::with_capacity(sample_size);
    while search.wants_sample() {
        rng.sample_distinct(n, sample_size, &mut indices);
        if indices.len() < sample_size {
            return None;
        }
        let sample: Vec<(Vec2, Vec2)> = indices.iter().map(|&i| normalized[i]).collect();
        if let Some(model) = estimate(&sample) {
            search.consider(fitted(model));
        }
        let needed = match search.best_count() {
            Some(count) => {
                adaptive_iterations(count as Scalar / n as Scalar, sample_size as u32, 0.99)
            }
            None => iterations,
        };
        search.sample_done(needed);
    }

    let all = normalized.to_vec();
    let mut fit = search.finish()?;
    let mut rounds = 0;
    while wants_polish(&fit, sample_size, rounds) {
        let refitted = estimate(&pick(&all, &fit.inliers)).map(&fitted);
        let (after, improved) = polished(fit, refitted);
        fit = after;
        if !improved {
            break;
        }
        rounds += 1;
    }
    Some(fit)
}

/// Symmetric transfer error, scored by how far it stays below the quantile.
fn score_homography(
    h: &Mat3,
    normalized: &[(Vec2, Vec2)],
    k: &CameraIntrinsics,
    sigma: Scalar,
    inliers: &mut [bool],
) -> Scalar {
    let Some(h_inv) = h.try_inverse() else {
        inliers.fill(false);
        return 0.0;
    };
    let inv_sigma2 = 1.0 / (sigma * sigma);
    let mut score = 0.0;
    for (i, (x1, x2)) in normalized.iter().enumerate() {
        let (Some(f), Some(b)) = (transfer(h, x1), transfer(&h_inv, x2)) else {
            inliers[i] = false;
            continue;
        };
        let chi_f = pixel_norm_sq(k, f - x2) * inv_sigma2;
        let chi_b = pixel_norm_sq(k, b - x1) * inv_sigma2;
        if chi_f > CHI2_2DOF_95 || chi_b > CHI2_2DOF_95 {
            inliers[i] = false;
        } else {
            inliers[i] = true;
            score += (CHI2_2DOF_95 - chi_f) + (CHI2_2DOF_95 - chi_b);
        }
    }
    score
}

/// Symmetric epipolar (point-to-line) distance, gated at the one-degree-of- freedom quantile but
/// rewarded on the same two-degree-of-freedom scale as the homography.
fn score_essential(
    e: &Mat3,
    normalized: &[(Vec2, Vec2)],
    k: &CameraIntrinsics,
    sigma: Scalar,
    inliers: &mut [bool],
) -> Scalar {
    let focal = (k.fx * k.fy).sqrt();
    let inv_sigma2 = 1.0 / (sigma * sigma);
    let mut score = 0.0;
    for (i, (x1, x2)) in normalized.iter().enumerate() {
        let a = Vec3::new(x1.x, x1.y, 1.0);
        let b = Vec3::new(x2.x, x2.y, 1.0);
        let l2 = e * a;
        let l1 = e.transpose() * b;
        let num = b.dot(&l2);
        let den2 = l2.x * l2.x + l2.y * l2.y;
        let den1 = l1.x * l1.x + l1.y * l1.y;
        if den1 <= 1e-24 || den2 <= 1e-24 {
            inliers[i] = false;
            continue;
        }
        let chi_f = num * num / den2 * focal * focal * inv_sigma2;
        let chi_b = num * num / den1 * focal * focal * inv_sigma2;
        if chi_f > CHI2_1DOF_95 || chi_b > CHI2_1DOF_95 {
            inliers[i] = false;
        } else {
            inliers[i] = true;
            score += (CHI2_2DOF_95 - chi_f) + (CHI2_2DOF_95 - chi_b);
        }
    }
    score
}

fn transfer(h: &Mat3, x: &Vec2) -> Option<Vec2> {
    let v = h * Vec3::new(x.x, x.y, 1.0);
    (v.z.abs() > 1e-12).then(|| Vec2::new(v.x / v.z, v.y / v.z))
}

fn pixel_norm_sq(k: &CameraIntrinsics, d: Vec2) -> Scalar {
    let x = d.x * k.fx;
    let y = d.y * k.fy;
    x * x + y * y
}

fn triangulate_all(
    matches: &[(Vec2, Vec2)],
    inliers: &[bool],
    pose2: &Se3,
    k: &CameraIntrinsics,
    config: &TriangulationConfig,
) -> Vec<InitLandmark> {
    let first = Se3::identity();
    let mut out = Vec::new();
    for (i, (a, b)) in matches.iter().enumerate() {
        if !inliers.get(i).copied().unwrap_or(false) {
            continue;
        }
        if let Ok(p) = triangulate_two_view(&first, *a, pose2, *b, k, config) {
            out.push(InitLandmark {
                match_index: i,
                position: p.position,
                covariance: p.covariance,
                parallax_rad: p.parallax_rad,
            });
        }
    }
    out
}

fn build_decomposition(
    sign: Scalar,
    u: &Mat3,
    rp: &Mat3,
    v_t: &Mat3,
    v: &Mat3,
    tp: &Vec3,
    x1: Scalar,
    x3: Scalar,
) -> HomographyDecomposition {
    let r = (u * rp * v_t) * sign;
    let t = u * tp;
    let mut n = v * Vec3::new(x1, 0.0, x3);
    if n.z < 0.0 {
        n = -n;
    }
    HomographyDecomposition {
        rotation: So3::from_orthonormal(&r),
        translation: if t.norm() > 1e-12 {
            t.normalize()
        } else {
            Vec3::new(Scalar::NAN, 0.0, 0.0)
        },
        plane_normal: n,
    }
}

fn intrinsics() -> CameraIntrinsics {
    CameraIntrinsics::from_focal(520.0, 640, 480)
}

fn cam_at(x: Scalar, y: Scalar, z: Scalar) -> Se3 {
    Se3::from_translation(Vec3::new(x, y, z))
}

fn observe(pose: &Se3, point: &Vec3, k: &CameraIntrinsics) -> Vec2 {
    project_pinhole(&pinhole_only(k), &pose.inverse().act(point)).unwrap()
}

fn observe_signed(pose: &Se3, point: &Vec3, k: &CameraIntrinsics) -> Vec2 {
    let p = pose.inverse().act(point);
    Vec2::new(k.fx * p.x / p.z + k.cx, k.fy * p.y / p.z + k.cy)
}

#[test]
fn recovers_a_known_point_exactly() {
    let k = intrinsics();
    let a = cam_at(0.0, 0.0, 0.0);
    let b = Se3::new(
        So3::exp(&Vec3::new(0.0, -0.08, 0.0)),
        Vec3::new(0.4, 0.05, 0.1),
    );
    let truth = Vec3::new(0.3, -0.2, 4.0);
    let p = triangulate_two_view(
        &a,
        observe(&a, &truth, &k),
        &b,
        observe(&b, &truth, &k),
        &k,
        &TriangulationConfig::default(),
    )
    .unwrap();
    near(p.position, truth, 1e-10);
    assert!(p.max_reprojection_px < 1e-9);
    assert_eq!(p.views, 2);
}

#[test]
fn near_zero_parallax_is_rejected_not_returned_with_a_huge_number() {
    let k = intrinsics();
    let a = cam_at(0.0, 0.0, 0.0);
    let b = cam_at(0.001, 0.0, 0.0);
    let truth = Vec3::new(0.0, 0.0, 5.0);
    let err = triangulate_two_view(
        &a,
        observe(&a, &truth, &k),
        &b,
        observe(&b, &truth, &k),
        &k,
        &TriangulationConfig::default(),
    )
    .unwrap_err();
    assert_eq!(err, TriangulationRejection::LowParallax);
}

#[test]
fn pure_rotation_is_rejected() {
    let k = intrinsics();
    let a = Se3::identity();
    let b = Se3::new(So3::exp(&Vec3::new(0.0, 0.12, 0.0)), Vec3::zeros());
    let truth = Vec3::new(0.1, 0.0, 4.0);
    let result = triangulate_two_view(
        &a,
        observe(&a, &truth, &k),
        &b,
        observe(&b, &truth, &k),
        &k,
        &TriangulationConfig::default(),
    );
    assert!(result.is_err(), "pure rotation must not triangulate");
}

#[test]
fn points_behind_the_camera_are_rejected() {
    let k = intrinsics();
    let a = cam_at(0.0, 0.0, 0.0);
    let b = cam_at(0.6, 0.0, 0.0);
    let behind = Vec3::new(0.3, 0.1, -4.0);
    let err = triangulate_two_view(
        &a,
        observe_signed(&a, &behind, &k),
        &b,
        observe_signed(&b, &behind, &k),
        &k,
        &TriangulationConfig::default(),
    )
    .unwrap_err();
    assert_eq!(err, TriangulationRejection::Cheirality);
    let raw = triangulate_dlt(
        &a,
        observe_signed(&a, &behind, &k),
        &b,
        observe_signed(&b, &behind, &k),
        &k,
    )
    .unwrap();
    near(raw, behind, 1e-10);
}

#[test]
fn a_point_behind_one_camera_only_is_rejected() {
    let k = intrinsics();
    let a = Se3::identity();
    let b = Se3::new(
        So3::exp(&Vec3::new(0.0, std::f64::consts::PI, 0.0)),
        Vec3::new(0.0, 0.0, 8.0),
    );
    let point = Vec3::new(0.2, 0.0, 10.0);
    assert!(a.inverse().act(&point).z > 0.0, "must be in front of a");
    assert!(b.inverse().act(&point).z < 0.0, "must be behind b");
    let err = triangulate_two_view(
        &a,
        observe_signed(&a, &point, &k),
        &b,
        observe_signed(&b, &point, &k),
        &k,
        &TriangulationConfig::default(),
    )
    .unwrap_err();
    assert_eq!(err, TriangulationRejection::Cheirality);
}

#[test]
fn a_bad_correspondence_is_rejected_on_reprojection() {
    let k = intrinsics();
    let a = cam_at(0.0, 0.0, 0.0);
    let b = cam_at(0.8, 0.0, 0.0);
    let truth = Vec3::new(0.1, 0.2, 4.0);
    let px_a = observe(&a, &truth, &k);
    let px_b = observe(&b, &truth, &k) + Vec2::new(0.0, 30.0);
    let err = triangulate_two_view(&a, px_a, &b, px_b, &k, &TriangulationConfig::default())
        .unwrap_err();
    assert_eq!(err, TriangulationRejection::HighReprojection);
}

#[test]
fn the_depth_horizon_is_enforced() {
    let k = intrinsics();
    let a = cam_at(0.0, 0.0, 0.0);
    let b = cam_at(200.0, 0.0, 0.0);
    let truth = Vec3::new(0.0, 0.0, 5000.0);
    let cfg = TriangulationConfig {
        max_depth: 100.0,
        ..TriangulationConfig::default()
    };
    let err = triangulate_two_view(
        &a,
        observe(&a, &truth, &k),
        &b,
        observe(&b, &truth, &k),
        &k,
        &cfg,
    )
    .unwrap_err();
    assert_eq!(err, TriangulationRejection::TooFar);
}

fn truth_pose() -> Se3 {
    Se3::new(
        So3::exp(&Vec3::new(0.06, -0.11, 0.04)),
        Vec3::new(0.35, -0.2, -2.5),
    )
}

fn scene(pose: &Se3, k: &CameraIntrinsics, n: usize, seed: u64) -> (Vec<Vec3>, Vec<Vec2>) {
    let kp = pinhole_only(k);
    let mut rng = DeterministicRng::new("scene", seed);
    let (mut p3, mut p2) = (Vec::new(), Vec::new());
    while p3.len() < n {
        let p = Vec3::new(
            rng.uniform_range(-1.8, 1.8),
            rng.uniform_range(-1.4, 1.4),
            rng.uniform_range(2.0, 7.0),
        );
        let cam = pose.inverse().act(&p);
        if cam.z < 0.5 {
            continue;
        }
        match project_pinhole(&kp, &cam) {
            Some(px) if kp.contains(px, 8.0) => {
                p3.push(p);
                p2.push(px);
            }
            _ => {}
        }
    }
    (p3, p2)
}

#[test]
fn converges_back_to_truth_from_a_perturbed_start() {
    let k = intrinsics();
    let truth = truth_pose();
    let (p3, p2) = scene(&truth, &k, 60, 2);
    let start = truth.plus(&Vec6::new(0.25, -0.18, 0.3, 0.05, -0.06, 0.04));
    let r = refine_motion_only(&start, &p3, &p2, &k, None, &MotionBaConfig::default()).unwrap();
    let err = r.pose.minus(&truth);
    assert!(err.norm() < 1e-8, "residual twist {err:?}");
    assert_eq!(r.inlier_count, 60);
    assert!(r.converged);
}

#[test]
fn cost_history_is_monotonically_non_increasing() {
    let k = intrinsics();
    let truth = truth_pose();
    let (p3, p2) = scene(&truth, &k, 50, 3);
    let start = truth.plus(&Vec6::new(-0.4, 0.3, 0.5, 0.09, 0.07, -0.08));
    let r = refine_motion_only(&start, &p3, &p2, &k, None, &MotionBaConfig::default()).unwrap();
    assert!(r.cost_history.len() >= 2, "no steps taken");
    for w in r.cost_history.windows(2) {
        assert!(w[1] <= w[0], "cost rose: {:?}", r.cost_history);
    }
    assert!(*r.cost_history.last().unwrap() < 1e-12 * r.cost_history[0].max(1.0));
}

#[test]
fn huber_keeps_the_pose_near_truth_with_twenty_percent_outliers() {
    let k = intrinsics();
    let truth = truth_pose();
    let (p3, mut p2) = scene(&truth, &k, 100, 4);
    let mut rng = DeterministicRng::new("outliers", 77);
    let mut corrupted = Vec::new();
    for (i, px) in p2.iter_mut().enumerate() {
        if i % 5 == 0 {
            let angle = rng.uniform_range(0.0, std::f64::consts::TAU);
            let mag = rng.uniform_range(40.0, 120.0);
            *px += Vec2::new(mag * angle.cos(), mag * angle.sin());
            corrupted.push(i);
        }
    }
    let start = truth.plus(&Vec6::new(0.08, -0.05, 0.1, 0.02, -0.02, 0.01));
    let cfg = MotionBaConfig {
        huber_delta_px: 2.0,
        outlier_threshold_px: 5.0,
        max_iterations: 40,
        ..MotionBaConfig::default()
    };
    let r = refine_motion_only(&start, &p3, &p2, &k, None, &cfg).unwrap();

    let err = r.pose.minus(&truth);
    let (rho, phi) = (err.fixed_rows::<3>(0), err.fixed_rows::<3>(3));
    assert!(rho.norm() < 0.02, "translation drifted {}", rho.norm());
    assert!(phi.norm() < 0.005, "rotation drifted {}", phi.norm());
    for i in corrupted {
        assert!(!r.inliers[i], "outlier {i} accepted");
    }
    assert_eq!(r.inlier_count, 80);
}

#[test]
fn masked_correspondences_are_ignored_entirely() {
    let k = intrinsics();
    let truth = truth_pose();
    let (p3, mut p2) = scene(&truth, &k, 30, 5);
    let mut mask = vec![true; 30];
    for (i, px) in p2.iter_mut().enumerate().skip(20) {
        *px += Vec2::new(300.0, -250.0);
        mask[i] = false;
    }
    let r = refine_motion_only(
        &truth.plus(&Vec6::new(0.1, 0.1, 0.1, 0.01, 0.01, 0.01)),
        &p3,
        &p2,
        &k,
        Some(&mask),
        &MotionBaConfig::default(),
    )
    .unwrap();
    assert!(r.pose.minus(&truth).norm() < 1e-8);
    assert_eq!(r.inlier_count, 20);
    assert!(r.inliers[..20].iter().all(|&b| b));
    assert!(r.inliers[20..].iter().all(|&b| !b));
}

#[test]
fn rejects_a_scene_it_cannot_see() {
    let k = intrinsics();
    let p3 = vec![Vec3::new(0.0, 0.0, -5.0); 10];
    let p2 = vec![Vec2::new(320.0, 240.0); 10];
    assert!(refine_motion_only(
        &Se3::identity(),
        &p3,
        &p2,
        &k,
        None,
        &MotionBaConfig::default()
    )
    .is_none());
}

#[test]
fn p3p_disambiguated_picks_the_true_pose() {
    let k = intrinsics();
    let truth = truth_pose();
    let (p3, p2) = scene(&truth, &k, 6, 12);
    let pose = solve_p3p_disambiguated(&p3, &p2, &k).unwrap();
    assert!(pose.minus(&truth).norm() < 1e-9);
}

#[test]
fn ransac_survives_fifty_percent_gross_outliers() {
    let k = intrinsics();
    let truth = truth_pose();
    let (p3, mut p2) = scene(&truth, &k, 80, 15);
    let mut rng = DeterministicRng::new("corrupt", 4242);
    let mut is_outlier = [false; 80];
    for (i, px) in p2.iter_mut().enumerate() {
        if i % 2 == 0 {
            *px = Vec2::new(rng.uniform_range(0.0, 640.0), rng.uniform_range(0.0, 480.0));
            is_outlier[i] = true;
        }
    }
    let mut rng = DeterministicRng::new("ransac", 7);
    let r = solve_pnp_ransac(&p3, &p2, &k, 2.0, 2000, &mut rng).unwrap();
    assert!(
        r.pose.minus(&truth).norm() < 1e-6,
        "pose error {:?}",
        r.pose.minus(&truth)
    );
    for (i, &out) in is_outlier.iter().enumerate() {
        assert_eq!(!out, r.inliers[i], "correspondence {i} misclassified");
    }
    assert_eq!(r.inlier_count, 40);
    assert!(r.mean_reprojection_error < 1e-6);
}

#[test]
fn ransac_is_bit_identical_across_runs_with_the_same_seed() {
    let k = intrinsics();
    let truth = truth_pose();
    let (p3, mut p2) = scene(&truth, &k, 60, 16);
    let mut noise = DeterministicRng::new("noise", 3);
    for (i, px) in p2.iter_mut().enumerate() {
        if i % 3 == 0 {
            *px = Vec2::new(
                noise.uniform_range(0.0, 640.0),
                noise.uniform_range(0.0, 480.0),
            );
        } else {
            *px += Vec2::new(noise.normal() * 0.4, noise.normal() * 0.4);
        }
    }
    let run = |seed: u64| {
        let mut rng = DeterministicRng::new("ransac", seed);
        solve_pnp_ransac(&p3, &p2, &k, 2.0, 500, &mut rng).unwrap()
    };
    let a = run(20260801);
    let b = run(20260801);
    assert_eq!(a.pose, b.pose);
    assert_eq!(a.inliers, b.inliers);
    assert_eq!(
        a.mean_reprojection_error.to_bits(),
        b.mean_reprojection_error.to_bits()
    );

    let c = run(999);
    assert!(
        c.pose.minus(&truth).norm() < 0.01,
        "{:?}",
        c.pose.minus(&truth)
    );
    assert!(a.pose.minus(&truth).norm() < 0.01);
}

fn relative() -> (So3, Vec3) {
    (
        So3::exp(&Vec3::new(0.03, -0.09, 0.02)),
        Vec3::new(-0.45, 0.06, 0.08),
    )
}

fn project(k: &CameraIntrinsics, p_cam: &Vec3) -> Option<Vec2> {
    project_pinhole(&pinhole_only(k), p_cam)
}

fn general_scene(n: usize, sigma: Scalar, seed: u64) -> Vec<(Vec2, Vec2)> {
    let k = intrinsics();
    let (r, t) = relative();
    let mut rng = DeterministicRng::new("general", seed);
    let mut out = Vec::new();
    while out.len() < n {
        let p = Vec3::new(
            rng.uniform_range(-1.6, 1.6),
            rng.uniform_range(-1.2, 1.2),
            rng.uniform_range(2.5, 8.0),
        );
        let p2 = r.act(&p) + t;
        let (Some(a), Some(b)) = (project(&k, &p), project(&k, &p2)) else {
            continue;
        };
        if !(k.contains(a, 6.0) && k.contains(b, 6.0)) {
            continue;
        }
        out.push((
            a + Vec2::new(rng.normal() * sigma, rng.normal() * sigma),
            b + Vec2::new(rng.normal() * sigma, rng.normal() * sigma),
        ));
    }
    out
}

fn planar_scene(n: usize, sigma: Scalar, seed: u64) -> Vec<(Vec2, Vec2)> {
    let k = intrinsics();
    let (r, t) = relative();
    let mut rng = DeterministicRng::new("plane", seed);
    let mut out = Vec::new();
    while out.len() < n {
        let (x, y) = (rng.uniform_range(-1.6, 1.6), rng.uniform_range(-1.2, 1.2));
        let p = Vec3::new(x, y, 5.0 + 0.4 * x - 0.25 * y);
        let p2 = r.act(&p) + t;
        let (Some(a), Some(b)) = (project(&k, &p), project(&k, &p2)) else {
            continue;
        };
        if !(k.contains(a, 6.0) && k.contains(b, 6.0)) {
            continue;
        }
        out.push((
            a + Vec2::new(rng.normal() * sigma, rng.normal() * sigma),
            b + Vec2::new(rng.normal() * sigma, rng.normal() * sigma),
        ));
    }
    out
}

fn sweep(planar: bool, sigma: Scalar, seeds: u64) -> Vec<(InitModel, Scalar, Scalar, usize)> {
    let k = intrinsics();
    let (r, t) = relative();
    let truth = Se3::new(r, t).inverse();
    (0..seeds)
        .map(|s| {
            let matches = if planar {
                planar_scene(140, sigma, 3000 + s)
            } else {
                general_scene(140, sigma, 5000 + s)
            };
            let mut rng = DeterministicRng::new("init", 7000 + s);
            let init = initialize_two_view(&matches, &k, &InitConfig::default(), &mut rng)
                .unwrap_or_else(|| panic!("planar={planar} seed={s}: refused to initialise"));
            let rot = angle_between(&init.pose, &truth);
            let cos = init
                .pose
                .translation()
                .normalize()
                .dot(&truth.translation().normalize());
            assert!((init.pose.translation().norm() - 1.0).abs() <= 1e-9);
            (init.model, rot, cos, init.landmarks.len())
        })
        .collect()
}

/// The angle between the rotations of two poses.
fn angle_between(a: &Se3, b: &Se3) -> Scalar {
    b.rotation().inverse().compose(&a.rotation()).angle()
}

fn median_of(mut v: Vec<Scalar>) -> Scalar {
    v.sort_by(|a, b| a.partial_cmp(b).unwrap());
    v[v.len() / 2]
}

#[test]
fn general_scene_picks_the_essential_branch() {
    let results = sweep(false, 0.4, 6);
    for (model, rot, cos, landmarks) in &results {
        assert_eq!(*model, InitModel::Essential);
        assert!(*rot < 0.03, "rotation error {rot} rad");
        assert!(*cos > 0.99, "translation direction cos {cos}");
        assert!(*landmarks > 100, "{landmarks} landmarks");
    }
    let rot = median_of(results.iter().map(|r| r.1).collect());
    let cos = median_of(results.iter().map(|r| r.2).collect());
    assert!(rot < 0.012, "median rotation error {rot} rad");
    assert!(cos > 0.997, "median translation direction cos {cos}");
}

#[test]
fn planar_scene_picks_the_homography_branch() {
    let results = sweep(true, 0.4, 6);
    for (model, rot, cos, landmarks) in &results {
        assert_eq!(*model, InitModel::Homography);
        assert!(*rot < 0.02, "rotation error {rot} rad");
        assert!(*cos > 0.999, "translation direction cos {cos}");
        assert!(*landmarks > 100, "{landmarks} landmarks");
    }
    let rot = median_of(results.iter().map(|r| r.1).collect());
    assert!(rot < 0.006, "median rotation error {rot} rad");
}

#[test]
fn the_returned_translation_is_unit_norm() {
    let k = intrinsics();
    let matches = general_scene(120, 0.3, 12);
    let mut rng = DeterministicRng::new("init", 5);
    let init = initialize_two_view(&matches, &k, &InitConfig::default(), &mut rng).unwrap();
    assert!((init.pose.translation().norm() - 1.0).abs() <= 1e-9);
}

#[test]
fn pure_rotation_refuses_to_initialise() {
    let k = intrinsics();
    let r = So3::exp(&Vec3::new(0.0, 0.09, 0.0));
    let mut rng = DeterministicRng::new("rot", 6);
    let mut matches = Vec::new();
    while matches.len() < 120 {
        let p = Vec3::new(
            rng.uniform_range(-1.6, 1.6),
            rng.uniform_range(-1.2, 1.2),
            rng.uniform_range(2.5, 8.0),
        );
        let (Some(a), Some(b)) = (project(&k, &p), project(&k, &r.act(&p))) else {
            continue;
        };
        if !(k.contains(a, 6.0) && k.contains(b, 6.0)) {
            continue;
        }
        matches.push((a, b));
    }
    let mut rng = DeterministicRng::new("init", 7);
    assert!(initialize_two_view(&matches, &k, &InitConfig::default(), &mut rng).is_none());
}

#[test]
fn a_baseline_too_short_for_parallax_refuses_to_initialise() {
    let k = intrinsics();
    let t = Vec3::new(-0.002, 0.0, 0.0);
    let mut rng = DeterministicRng::new("tiny", 8);
    let mut matches = Vec::new();
    while matches.len() < 120 {
        let p = Vec3::new(
            rng.uniform_range(-1.6, 1.6),
            rng.uniform_range(-1.2, 1.2),
            rng.uniform_range(4.0, 8.0),
        );
        let (Some(a), Some(b)) = (project(&k, &p), project(&k, &(p + t))) else {
            continue;
        };
        if !(k.contains(a, 6.0) && k.contains(b, 6.0)) {
            continue;
        }
        matches.push((a, b));
    }
    let mut rng = DeterministicRng::new("init", 9);
    assert!(initialize_two_view(&matches, &k, &InitConfig::default(), &mut rng).is_none());
}

#[test]
fn initialisation_is_reproducible_for_a_given_seed() {
    let k = intrinsics();
    let matches = general_scene(120, 0.5, 13);
    let run = |seed: u64| {
        let mut rng = DeterministicRng::new("init", seed);
        initialize_two_view(&matches, &k, &InitConfig::default(), &mut rng).unwrap()
    };
    let a = run(31337);
    let b = run(31337);
    assert_eq!(a.pose, b.pose);
    assert_eq!(a.inliers, b.inliers);
    assert_eq!(a.landmarks.len(), b.landmarks.len());
    assert_eq!(a.score_essential.to_bits(), b.score_essential.to_bits());
}

#[test]
fn survives_a_third_of_the_matches_being_wrong() {
    let k = intrinsics();
    let (r, t) = relative();
    let mut matches = general_scene(150, 0.3, 14);
    let mut rng = DeterministicRng::new("corrupt", 15);
    let mut corrupted = 0;
    for (i, m) in matches.iter_mut().enumerate() {
        if i % 3 == 0 {
            m.1 = Vec2::new(rng.uniform_range(0.0, 640.0), rng.uniform_range(0.0, 480.0));
            corrupted += 1;
        }
    }
    assert_eq!(corrupted, 50);
    let cfg = InitConfig {
        ransac_iterations: 3000,
        ..InitConfig::default()
    };
    let mut rng = DeterministicRng::new("init", 16);
    let init = initialize_two_view(&matches, &k, &cfg, &mut rng).unwrap();
    let truth = Se3::new(r, t).inverse();
    assert!(angle_between(&init.pose, &truth) < 0.02);
    let cos = init
        .pose
        .translation()
        .normalize()
        .dot(&truth.translation().normalize());
    assert!(cos > 0.998, "translation direction cos {cos}");
    assert!(init.landmarks.iter().all(|l| l.match_index % 3 != 0));
}

#[test]
fn landmarks_reproject_onto_both_views() {
    let k = intrinsics();
    let matches = general_scene(120, 0.0, 19);
    let mut rng = DeterministicRng::new("init", 20);
    let init = initialize_two_view(&matches, &k, &InitConfig::default(), &mut rng).unwrap();
    let kp = pinhole_only(&k);
    for lm in &init.landmarks {
        let (a, b) = matches[lm.match_index];
        let pa = project(&kp, &lm.position).unwrap();
        let pb = project(&kp, &init.pose.inverse().act(&lm.position)).unwrap();
        assert!((pa - a).norm() < 1.0, "view 1 error {}", (pa - a).norm());
        assert!((pb - b).norm() < 1.0, "view 2 error {}", (pb - b).norm());
        assert!(lm.position.z > 0.0, "landmark behind the first camera");
        assert!(lm.covariance[(2, 2)] > 0.0);
    }
}
