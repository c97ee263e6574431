//! The per-frame frontend: features, the local map, keyframes, and the state
//! machine that says how well tracking goes.
//!
//! A frame goes through the tracker in stages: [`Tracker::begin_frame`], flow
//! ([`Tracker::follow`]), pose ([`Tracker::correspondences`],
//! [`Tracker::record_solve`]), [`Tracker::abandon_unseen_map`], a keyframe
//! ([`Tracker::is_keyframe_due`], [`Tracker::promote`],
//! [`Tracker::window_problem`], [`Tracker::adopt_window`]) or a bootstrap
//! ([`Tracker::bootstrap_matches`], [`Tracker::adopt_bootstrap`]), refill
//! ([`Tracker::wants_refill`], [`Tracker::add_features`]), and
//! [`Tracker::end_frame`]. Between them the caller does the geometry.
//!
//! `V` is the type of a pixel position, `X` that of a point in the world, `P`
//! that of a pose and `C` that of a pose covariance.

use std::collections::{HashMap, VecDeque};

use vstd::prelude::*;

use crate::track::corners::CornerConfig;
use crate::track::local_ba::{is_linked, LocalBaProblem, Observation};
use crate::track::local_map::{
    counted_up, culled, ids_are_distinct, is_at, knows, place_of, with_landmark, with_position,
    with_sighting, Entry, LocalLandmark, LocalMap,
};
use crate::track::pyramid::{PyramidConfig, PyramidFilter};

verus! {

broadcast use vstd::std_specs::hash::group_hash_axioms;

/// Fewest 3D-2D correspondences a pose is attempted from.
pub const MIN_PNP_CORRESPONDENCES: usize = 6;

/// Consecutive frames without a pose solve before the session is lost rather than
/// limited.
pub const LOST_AFTER_FAILURES: u32 = 3;

/// Consecutive solve failures before the local map is discarded.
pub const ABANDON_MAP_AFTER_FAILURES: u32 = 30;

/// Frames a bootstrap reference is kept before a fresh one is taken.
pub const BOOTSTRAP_REFERENCE_TTL_FRAMES: u64 = 45;

/// Frames a landmark may go unobserved before it is dropped.
pub const LANDMARK_TTL_FRAMES: u64 = 150;

/// Fewest correspondences the two-view bootstrap is offered.
pub const MIN_BOOTSTRAP_MATCHES: usize = 8;

/// Fewest landmarks a window is adjusted over.
pub const MIN_WINDOW_POINTS: usize = 8;

/// Fewest observations a window is adjusted over.
pub const MIN_WINDOW_OBSERVATIONS: usize = 20;

/// Lifecycle of one tracked feature.
#[derive(Debug, Clone, Copy, PartialEq, Eq, Structural)]
pub enum FeatureState {
    /// Detected this frame; not yet tracked anywhere.
    New,
    /// Followed from the previous frame.
    Followed,
    /// Followed, but rejected by the pose solve.
    Outlier,
    /// Flow failed. Kept for one frame, so that it can be shown, and let go earlier
    /// only where the feature budget has no room beside what is in the frame.
    Lost,
}

/// Why tracking is limited, the most upstream cause first.
#[derive(Debug, Clone, Copy, PartialEq, Eq, Structural)]
pub enum LimitedReason {
    /// The sensor sees too little light.
    LowLight,
    /// The camera moved too fast.
    ExcessiveMotion,
    /// The scene offers too little to track.
    InsufficientFeatures,
}

/// How well tracking goes.
#[derive(Debug, Clone, Copy, PartialEq, Eq, Structural)]
pub enum TrackingState {
    /// There is no map yet.
    Initializing,
    /// All is well.
    Tracking,
    /// There is a pose, and something is wrong.
    Limited(LimitedReason),
    /// The pose cannot be trusted.
    Lost,
}

impl TrackingState {
    /// Whether the state comes with a usable pose.
    pub open spec fn gives_pose(self) -> bool {
        self is Tracking || self is Limited
    }

    /// Whether the state comes with a usable pose.
    pub fn has_pose(self) -> (has: bool)
        ensures
            has == self.gives_pose(),
    {
        match self {
            TrackingState::Tracking => true,
            TrackingState::Limited(_) => true,
            TrackingState::Initializing => false,
            TrackingState::Lost => false,
        }
    }
}

/// Which image front-end is in use.
#[derive(Debug, Clone, Copy, PartialEq, Eq, Structural)]
pub enum Backend {
    /// The reference implementation. Always available.
    Cpu,
    /// A compute pipeline on the graphics device.
    Gpu,
}

impl Backend {
    /// The front-end that runs: the device only when it is both wanted and
    /// there.
    pub fn select(use_gpu: bool, available: bool) -> (backend: Backend)
        ensures
            backend == (if use_gpu && available {
                Backend::Gpu
            } else {
                Backend::Cpu
            }),
    {
        if use_gpu && available {
            Backend::Gpu
        } else {
            Backend::Cpu
        }
    }
}

/// Why frames failed to produce a pose, counted over a session.
#[derive(Debug, Clone, Copy, PartialEq, Eq, Structural)]
pub struct FailureCounts {
    /// No map yet: the two-view bootstrap has not succeeded.
    pub awaiting_bootstrap: usize,
    /// Too few features carried a landmark.
    pub too_few_correspondences: usize,
    /// The consensus search found nothing.
    pub ransac_failed: usize,
    /// A pose was found but too few observations agreed with it.
    pub too_few_inliers: usize,
}

impl Default for FailureCounts {
    fn default() -> (counts: Self)
        ensures
            counts == (FailureCounts {
                awaiting_bootstrap: 0,
                too_few_correspondences: 0,
                ransac_failed: 0,
                too_few_inliers: 0,
            }),
    {
        FailureCounts {
            awaiting_bootstrap: 0,
            too_few_correspondences: 0,
            ransac_failed: 0,
            too_few_inliers: 0,
        }
    }
}

impl FailureCounts {
    /// The sum of the counts.
    pub open spec fn sum(self) -> nat {
        (self.awaiting_bootstrap + self.too_few_correspondences + self.ransac_failed
            + self.too_few_inliers) as nat
    }

    /// Total frames that produced no pose.
    pub fn total(&self) -> (total: usize)
        requires
            self.sum() <= usize::MAX,
        ensures
            total == self.sum(),
    {
        self.awaiting_bootstrap + self.too_few_correspondences + self.ransac_failed
            + self.too_few_inliers
    }
}

/// The tracker's settings in whole numbers. Those that are ratios, distances or
/// angles belong to the geometry and are applied by the caller.
#[derive(Debug, Clone, Copy, PartialEq, Eq, Structural)]
pub struct TrackConfig {
    /// Feature budget per frame.
    pub max_features: usize,
    /// Fewest features a workable frame has.
    pub min_features: usize,
    /// Pyramid levels including level 0.
    pub pyramid_levels: u32,
    /// Half-width of a flow patch.
    pub klt_window: u32,
    /// Flow iterations per level.
    pub klt_iterations: u32,
    /// Cap on consensus samples.
    pub ransac_iterations: usize,
    /// Minimum frames between keyframes.
    pub keyframe_min_frames: u64,
    /// A keyframe is not forced by starvation at or below this many landmarks.
    pub keyframe_min_tracked: usize,
    /// Seed of the random numbers.
    pub seed: u64,
    /// Prefer the graphics device.
    pub use_gpu: bool,
    /// Keyframes optimised by local bundle adjustment; zero disables it.
    pub local_ba_window: usize,
    /// Leading keyframes of the window held fixed.
    pub local_ba_fixed: usize,
    /// Iterations per local bundle adjustment.
    pub local_ba_iterations: usize,
    /// Older keyframes kept behind the window as fixed context.
    pub local_ba_context: usize,
    /// Hold landmarks fixed in local bundle adjustment.
    pub local_ba_motion_only: bool,
}

impl Default for TrackConfig {
    fn default() -> (config: Self)
        ensures
            config == (TrackConfig {
                max_features: 250,
                min_features: 60,
                pyramid_levels: 4,
                klt_window: 5,
                klt_iterations: 24,
                ransac_iterations: 256,
                keyframe_min_frames: 10,
                keyframe_min_tracked: 15,
                seed: 0xC0FFEE,
                use_gpu: false,
                local_ba_window: 10,
                local_ba_fixed: 2,
                local_ba_iterations: 4,
                local_ba_context: 30,
                local_ba_motion_only: false,
            }),
    {
        TrackConfig {
            max_features: 250,
            min_features: 60,
            pyramid_levels: 4,
            klt_window: 5,
            klt_iterations: 24,
            ransac_iterations: 256,
            keyframe_min_frames: 10,
            keyframe_min_tracked: 15,
            seed: 0xC0FFEE,
            use_gpu: false,
            local_ba_window: 10,
            local_ba_fixed: 2,
            local_ba_iterations: 4,
            local_ba_context: 30,
            local_ba_motion_only: false,
        }
    }
}

/// One feature in the current frame.
#[derive(Debug, Clone, Copy)]
pub struct Feature<V> {
    /// Stable identity across frames.
    pub id: u64,
    /// Position as observed, lens distortion included.
    pub px: V,
    /// The same point with lens distortion removed.
    pub px_undist: V,
    /// Lifecycle state.
    pub state: FeatureState,
    /// Associated landmark, if this feature has been triangulated.
    pub landmark: Option<u64>,
    /// Frames survived.
    pub age: u32,
}

/// How certain the pose is.
#[derive(Debug, Clone, Copy)]
pub enum Covariance<C> {
    /// Nothing is known.
    Unbounded,
    /// What the last solve gave, to be widened once for every failure since.
    Solved { value: C, widenings: u32 },
}

impl<C> Covariance<C> {
    /// What a solve gave, or nothing.
    pub open spec fn of(value: Option<C>) -> Covariance<C> {
        match value {
            Some(value) => Covariance::Solved { value, widenings: 0 },
            None => Covariance::Unbounded,
        }
    }

    /// The covariance of a pose that is one frame staler.
    pub open spec fn widened(self) -> Covariance<C> {
        match self {
            Covariance::Solved { value, widenings } => Covariance::Solved {
                value,
                widenings: counted_up(widenings),
            },
            Covariance::Unbounded => self,
        }
    }
}

fn covariance_of<C>(value: Option<C>) -> (c: Covariance<C>)
    ensures
        c == Covariance::of(value),
{
    match value {
        Some(value) => Covariance::Solved { value, widenings: 0 },
        None => Covariance::Unbounded,
    }
}

fn count_up(n: u32) -> (m: u32)
    ensures
        m == counted_up(n),
{
    if n == u32::MAX {
        n
    } else {
        n + 1
    }
}

/// A view that later frames are matched against: its pose, and where each feature
/// was seen.
#[derive(Debug)]
struct KeyframeState<V, P> {
    pose: P,
    observations: HashMap<u64, V>,
}

/// One keyframe kept for local bundle adjustment: its pose, and where each
/// landmark was seen.
#[derive(Debug)]
struct WindowKeyframe<V, P> {
    pose: P,
    observations: Vec<(u64, V)>,
}

/// A view that later frames are matched against.
#[verifier::ext_equal]
pub struct ReferenceView<V, P> {
    pub pose: P,
    pub observations: Map<u64, V>,
}

/// One keyframe kept for local bundle adjustment.
#[verifier::ext_equal]
pub struct WindowView<V, P> {
    pub pose: P,
    pub observations: Seq<(u64, V)>,
}

/// All that the tracker remembers.
#[verifier::ext_equal]
pub struct Snapshot<V, X, P, C> {
    pub state: TrackingState,
    pub features: Seq<Feature<V>>,
    pub map: Seq<Entry<X>>,
    pub pose: Option<P>,
    pub covariance: Covariance<C>,
    /// The keyframe new landmarks are triangulated against.
    pub keyframe: Option<ReferenceView<V, P>>,
    /// The reference of the two-view bootstrap.
    pub bootstrap: Option<ReferenceView<V, P>>,
    /// Recent keyframes, oldest first.
    pub window: Seq<WindowView<V, P>>,
    pub failures: FailureCounts,
    /// Landmarks tracked at the last keyframe.
    pub reference_landmarks: usize,
    pub next_feature_id: u64,
    pub next_landmark_id: u64,
    pub frame_index: u64,
    pub frames_since_keyframe: u64,
    pub solve_failures: u32,
    pub healthy_last_frame: bool,
}

/// Feature ids increase along the list.
pub open spec fn ids_increase<V>(features: Seq<Feature<V>>) -> bool {
    forall|i: int, j: int|
        #![trigger features[i], features[j]]
        0 <= i < j < features.len() ==> features[i].id < features[j].id
}

/// Features carry ids, and landmarks, that have been given out.
pub open spec fn ids_are_given<V>(features: Seq<Feature<V>>, next_feature: u64, next_landmark:
    u64) -> bool {
    forall|i: int|
        0 <= i < features.len() ==> (#[trigger] features[i]).id < next_feature && (
        features[i].landmark matches Some(l) ==> l < next_landmark)
}

/// Landmarks have ids that have been given out.
pub open spec fn landmarks_are_given<X>(map: Seq<Entry<X>>, next_landmark: u64) -> bool {
    forall|i: int| 0 <= i < map.len() ==> (#[trigger] map[i]).landmark.id < next_landmark
}

impl<V, X, P, C> Snapshot<V, X, P, C> {
    /// What holds of the tracker between any two calls: the features are within
    /// their budget, no two features and no two landmarks share an id, ids are never
    /// given out twice, a map comes with a pose, the window is bounded, and no more
    /// failures are counted than frames.
    pub open spec fn wf(self, config: TrackConfig) -> bool {
        &&& self.features.len() <= config.max_features
        &&& ids_increase(self.features)
        &&& ids_are_given(self.features, self.next_feature_id, self.next_landmark_id)
        &&& ids_are_distinct(self.map)
        &&& landmarks_are_given(self.map, self.next_landmark_id)
        &&& self.map.len() > 0 ==> self.pose is Some
        &&& self.window.len() <= config.local_ba_window + config.local_ba_context
        &&& self.failures.sum() <= self.frame_index
        &&& self.frames_since_keyframe <= self.frame_index
        &&& self.healthy_last_frame == (self.state is Tracking)
    }
}

/// The per-frame frontend.
#[derive(Debug)]
pub struct Tracker<V, X, P, C> {
    config: TrackConfig,
    backend: Backend,
    state: TrackingState,
    features: Vec<Feature<V>>,
    map: LocalMap<X>,
    pose: Option<P>,
    covariance: Covariance<C>,
    keyframe: Option<KeyframeState<V, P>>,
    bootstrap: Option<KeyframeState<V, P>>,
    window: VecDeque<WindowKeyframe<V, P>>,
    failures: FailureCounts,
    reference_landmarks: usize,
    next_feature_id: u64,
    next_landmark_id: u64,
    frame_index: u64,
    frames_since_keyframe: u64,
    solve_failures: u32,
    healthy_last_frame: bool,
}

impl<V, P> KeyframeState<V, P> {
    spec fn look(self) -> ReferenceView<V, P> {
        ReferenceView { pose: self.pose, observations: self.observations@ }
    }
}

spec fn look_at<V, P>(kf: Option<KeyframeState<V, P>>) -> Option<ReferenceView<V, P>> {
    match kf {
        Some(k) => Some(k.look()),
        None => None,
    }
}

spec fn look_through<V, P>(window: Seq<WindowKeyframe<V, P>>) -> Seq<WindowView<V, P>> {
    Seq::new(
        window.len(),
        |i: int| WindowView { pose: window[i].pose, observations: window[i].observations@ },
    )
}

impl<V, X, P, C> View for Tracker<V, X, P, C> {
    type V = Snapshot<V, X, P, C>;

    closed spec fn view(&self) -> Snapshot<V, X, P, C> {
        Snapshot {
            state: self.state,
            features: self.features@,
            map: self.map@,
            pose: self.pose,
            covariance: self.covariance,
            keyframe: look_at(self.keyframe),
            bootstrap: look_at(self.bootstrap),
            window: look_through(self.window@),
            failures: self.failures,
            reference_landmarks: self.reference_landmarks,
            next_feature_id: self.next_feature_id,
            next_landmark_id: self.next_landmark_id,
            frame_index: self.frame_index,
            frames_since_keyframe: self.frames_since_keyframe,
            solve_failures: self.solve_failures,
            healthy_last_frame: self.healthy_last_frame,
        }
    }
}

impl<V: Copy, X: Copy, P: Copy, C: Copy> Tracker<V, X, P, C> {
    /// The settings.
    pub closed spec fn settings(&self) -> TrackConfig {
        self.config
    }

    /// The front-end in use.
    pub closed spec fn front_end(&self) -> Backend {
        self.backend
    }

    /// The tracker is in a state that it can be in between two calls.
    pub closed spec fn wf(&self) -> bool {
        self.map.wf() && self@.wf(self.config)
    }

    /// What well-formedness means for the state.
    pub proof fn lemma_wf(&self)
        requires
            self.wf(),
        ensures
            self@.wf(self.settings()),
    {
    }
}

/// What a tracker knows before its first frame.
pub open spec fn fresh<V, X, P, C>() -> Snapshot<V, X, P, C> {
    Snapshot {
        state: TrackingState::Initializing,
        features: seq![],
        map: seq![],
        pose: None,
        covariance: Covariance::Unbounded,
        keyframe: None,
        bootstrap: None,
        window: seq![],
        failures: FailureCounts {
            awaiting_bootstrap: 0,
            too_few_correspondences: 0,
            ransac_failed: 0,
            too_few_inliers: 0,
        },
        reference_landmarks: 0,
        next_feature_id: 0,
        next_landmark_id: 0,
        frame_index: 0,
        frames_since_keyframe: 0,
        solve_failures: 0,
        healthy_last_frame: false,
    }
}

/// The state rebuilt around a pose from elsewhere: all that hung on the old map is
/// forgotten, and the counters of the session go on: frames, failures and the ids
/// that have been given out.
pub open spec fn relocalized<V, X, P, C>(s: Snapshot<V, X, P, C>, pose: P) -> Snapshot<V, X, P, C> {
    Snapshot {
        pose: Some(pose),
        failures: s.failures,
        next_feature_id: s.next_feature_id,
        next_landmark_id: s.next_landmark_id,
        frame_index: s.frame_index,
        ..fresh()
    }
}

impl<V: Copy, X: Copy, P: Copy, C: Copy> Tracker<V, X, P, C> {
    /// A tracker before its first frame. The graphics device is used only when it
    /// is wanted and there.
    pub fn new(config: TrackConfig, gpu_available: bool) -> (tracker: Self)
        ensures
            tracker.wf(),
            tracker.settings() == config,
            tracker.front_end() == (if config.use_gpu && gpu_available {
                Backend::Gpu
            } else {
                Backend::Cpu
            }),
            tracker@ == fresh::<V, X, P, C>(),
    {
        let tracker = Tracker {
            config,
            backend: Backend::select(config.use_gpu, gpu_available),
            state: TrackingState::Initializing,
            features: Vec::new(),
            map: LocalMap::new(),
            pose: None,
            covariance: Covariance::Unbounded,
            keyframe: None,
            bootstrap: None,
            window: VecDeque::new(),
            failures: FailureCounts::default(),
            reference_landmarks: 0,
            next_feature_id: 0,
            next_landmark_id: 0,
            frame_index: 0,
            frames_since_keyframe: 0,
            solve_failures: 0,
            healthy_last_frame: false,
        };
        assert(tracker@ =~= fresh::<V, X, P, C>());
        tracker
    }

    /// The front-end in use.
    pub fn backend(&self) -> (backend: Backend)
        ensures
            backend == self.front_end(),
    {
        self.backend
    }

    /// Go on without the graphics device.
    pub fn fall_back_to_cpu(&mut self)
        ensures
            final(self).front_end() == Backend::Cpu,
            final(self)@ == old(self)@,
            final(self).settings() == old(self).settings(),
            old(self).wf() ==> final(self).wf(),
    {
        self.backend = Backend::Cpu;
    }

    /// Drop everything and start over: nothing is left of the session, and the next
    /// one goes as the first one of a new tracker would.
    pub fn reset(&mut self)
        requires
            old(self).wf(),
        ensures
            final(self).wf(),
            final(self).settings() == old(self).settings(),
            final(self).front_end() == old(self).front_end(),
            final(self)@ == fresh::<V, X, P, C>(),
    {
        self.forget();
        self.pose = None;
        self.failures = FailureCounts::default();
        self.next_feature_id = 0;
        self.next_landmark_id = 0;
        self.frame_index = 0;
        assert(self@ =~= fresh::<V, X, P, C>());
    }

    /// Let go of all that hangs on the map.
    fn forget(&mut self)
        requires
            old(self).wf(),
        ensures
            final(self).map.wf(),
            final(self).config == old(self).config,
            final(self).backend == old(self).backend,
            final(self)@ == (Snapshot {
                pose: old(self)@.pose,
                failures: old(self)@.failures,
                next_feature_id: old(self)@.next_feature_id,
                next_landmark_id: old(self)@.next_landmark_id,
                frame_index: old(self)@.frame_index,
                ..fresh::<V, X, P, C>()
            }),
    {
        self.state = TrackingState::Initializing;
        self.features = Vec::new();
        self.map.clear();
        self.covariance = Covariance::Unbounded;
        self.keyframe = None;
        self.bootstrap = None;
        self.window = VecDeque::new();
        self.reference_landmarks = 0;
        self.frames_since_keyframe = 0;
        self.solve_failures = 0;
        self.healthy_last_frame = false;
        assert(self@.features =~= seq![]);
        assert(self@.map =~= seq![]);
        assert(self@.window =~= seq![]);
    }

    /// Adopt a pose supplied by relocalization and rebuild around it. The local
    /// map is discarded, and the state stays short of tracking until a new one
    /// has been built with `pose` as its anchor.
    pub fn relocalized_to(&mut self, pose: P)
        requires
            old(self).wf(),
        ensures
            final(self).wf(),
            final(self).settings() == old(self).settings(),
            final(self).front_end() == old(self).front_end(),
            final(self)@ == relocalized(old(self)@, pose),
    {
        self.forget();
        self.pose = Some(pose);
    }

    /// The active local map.
    pub fn local_map(&self) -> (map: &LocalMap<X>)
        requires
            self.wf(),
        ensures
            map.wf(),
            map@ == self@.map,
    {
        &self.map
    }

    /// Features in the current frame, and those that were lost in it.
    pub fn features(&self) -> (features: &Vec<Feature<V>>)
        ensures
            features@ == self@.features,
    {
        &self.features
    }

    /// Current state.
    pub fn state(&self) -> (state: TrackingState)
        ensures
            state == self@.state,
    {
        self.state
    }

    /// Why frames have failed to produce a pose so far.
    pub fn failures(&self) -> (failures: FailureCounts)
        ensures
            failures == self@.failures,
    {
        self.failures
    }

    /// Most recent pose.
    pub fn pose(&self) -> (pose: Option<P>)
        ensures
            pose == self@.pose,
    {
        self.pose
    }

    /// How certain the pose is.
    pub fn covariance(&self) -> (covariance: Covariance<C>)
        ensures
            covariance == self@.covariance,
    {
        self.covariance
    }

    /// Landmarks tracked at the last keyframe.
    pub fn reference_landmarks(&self) -> (n: usize)
        ensures
            n == self@.reference_landmarks,
    {
        self.reference_landmarks
    }

    /// The settings.
    pub fn config(&self) -> (config: TrackConfig)
        ensures
            config == self.settings(),
    {
        self.config
    }
}

// ---------------------------------------------------------------------------
// Flow
// ---------------------------------------------------------------------------

/// Where flow found a feature: as observed, and with lens distortion removed.
#[derive(Debug, Clone, Copy)]
pub struct Moved<V> {
    pub px: V,
    pub px_undist: V,
}

/// What came of following the features.
#[derive(Debug, Clone, Copy, PartialEq, Eq, Structural)]
pub struct FlowSummary {
    /// Features that survived.
    pub survived: usize,
    /// Features that were followed.
    pub attempted: usize,
}

/// A feature where flow found it.
pub open spec fn moved_to<V>(f: Feature<V>, m: Moved<V>) -> Feature<V> {
    Feature {
        px: m.px,
        px_undist: m.px_undist,
        state: FeatureState::Followed,
        age: counted_up(f.age),
        ..f
    }
}

/// What flow says of feature `i`; one it says nothing of was not found.
pub open spec fn found_at<V>(results: Seq<Option<Moved<V>>>, i: int) -> Option<Moved<V>> {
    if i < results.len() {
        results[i]
    } else {
        None
    }
}

/// The features after flow: those it found are where it found them, the others are
/// lost.
pub open spec fn followed<V>(
    features: Seq<Feature<V>>,
    results: Seq<Option<Moved<V>>>,
) -> Seq<Feature<V>> {
    Seq::new(
        features.len(),
        |i: int|
            match found_at(results, i) {
                Some(m) => moved_to(features[i], m),
                None => Feature { state: FeatureState::Lost, ..features[i] },
            },
    )
}

/// Whether a feature is in the current frame. A lost one is only there to be shown.
pub open spec fn is_live<V>(f: Feature<V>) -> bool {
    f.state != FeatureState::Lost
}

/// How many of the first `n` features are in the current frame.
pub open spec fn live_count<V>(features: Seq<Feature<V>>, n: nat) -> nat
    decreases n,
{
    if n == 0 {
        0
    } else {
        live_count(features, (n - 1) as nat) + if is_live(features[n - 1]) {
            1nat
        } else {
            0nat
        }
    }
}

/// The first `n` features without their lost ones, but for the first `spare` of
/// those.
pub open spec fn retained<V>(features: Seq<Feature<V>>, spare: nat, n: nat) -> Seq<Feature<V>>
    decreases n,
{
    if n == 0 {
        seq![]
    } else {
        let m = (n - 1) as nat;
        let before = retained(features, spare, m);
        if is_live(features[n - 1]) || m - live_count(features, m) < spare {
            before.push(features[n - 1])
        } else {
            before
        }
    }
}

pub(crate) proof fn lemma_live_count<V>(features: Seq<Feature<V>>, n: nat)
    ensures
        live_count(features, n) <= n,
    decreases n,
{
    if n > 0 {
        lemma_live_count(features, (n - 1) as nat);
    }
}

pub(crate) proof fn lemma_retained<V>(
    features: Seq<Feature<V>>,
    spare: nat,
    n: nat,
    next_feature: u64,
    next_landmark: u64,
)
    requires
        n <= features.len(),
        ids_increase(features),
        ids_are_given(features, next_feature, next_landmark),
    ensures
        retained(features, spare, n).len() <= n,
        retained(features, spare, n).len() == live_count(features, n) + (if n - live_count(
            features,
            n,
        ) < spare {
            n - live_count(features, n)
        } else {
            spare as int
        }),
        ids_increase(retained(features, spare, n)),
        ids_are_given(retained(features, spare, n), next_feature, next_landmark),
        forall|k: int, j: int|
            #![trigger retained(features, spare, n)[k], features[j]]
            0 <= k < retained(features, spare, n).len() && n <= j < features.len() ==> retained(
                features,
                spare,
                n,
            )[k].id < features[j].id,
    decreases n,
{
    if n > 0 {
        let m = (n - 1) as nat;
        lemma_retained(features, spare, m, next_feature, next_landmark);
        lemma_live_count(features, m);
        let before = retained(features, spare, m);
        let after = retained(features, spare, n);
        let f = features[n - 1];
        assert(f.id < next_feature);
        assert forall|k: int, j: int|
            #![trigger after[k], features[j]]
            0 <= k < after.len() && n <= j < features.len() implies after[k].id < features[j].id by {
            if k < before.len() {
                assert(before[k].id < features[j].id);
            } else {
                assert(f.id < features[j].id);
            }
        }
    }
}

fn count_live<V: Copy>(features: &Vec<Feature<V>>) -> (count: usize)
    ensures
        count == live_count(features@, features@.len()),
        count <= features@.len(),
{
    let mut count: usize = 0;
    let mut i: usize = 0;
    while i < features.len()
        invariant
            i <= features@.len(),
            count <= i,
            count == live_count(features@, i as nat),
        decreases features@.len() - i,
    {
        if features[i].state != FeatureState::Lost {
            count = count + 1;
        }
        i = i + 1;
    }
    count
}

fn retain<V: Copy>(features: &Vec<Feature<V>>, spare: usize) -> (kept: Vec<Feature<V>>)
    ensures
        kept@ == retained(features@, spare as nat, features@.len()),
{
    let mut kept: Vec<Feature<V>> = Vec::new();
    let mut live: usize = 0;
    let mut i: usize = 0;
    while i < features.len()
        invariant
            i <= features@.len(),
            live <= i,
            live == live_count(features@, i as nat),
            kept@ == retained(features@, spare as nat, i as nat),
        decreases features@.len() - i,
    {
        let is_live: bool = features[i].state != FeatureState::Lost;
        if is_live || i - live < spare {
            kept.push(features[i]);
        }
        if is_live {
            live = live + 1;
        }
        i = i + 1;
    }
    kept
}

/// The state at the beginning of a frame: the features that the last one lost are
/// gone.
pub open spec fn frame_begun<V, X, P, C>(s: Snapshot<V, X, P, C>) -> Snapshot<V, X, P, C> {
    Snapshot {
        features: retained(s.features, 0, s.features.len()),
        frame_index: (s.frame_index + 1) as u64,
        frames_since_keyframe: (s.frames_since_keyframe + 1) as u64,
        ..s
    }
}

impl<V: Copy, X: Copy, P: Copy, C: Copy> Tracker<V, X, P, C> {
    /// Whether another frame can be numbered, and `n` more features and landmarks.
    pub fn has_numbers_for(&self, n: usize) -> (yes: bool)
        ensures
            yes == (self@.frame_index < u64::MAX && self@.frame_index < usize::MAX
                && self@.next_feature_id + n <= u64::MAX && self@.next_landmark_id + n <= u64::MAX),
    {
        let most: u64 = n as u64;
        self.frame_index < u64::MAX && self.frame_index < usize::MAX as u64 && self.next_feature_id
            <= u64::MAX - most && self.next_landmark_id <= u64::MAX - most
    }

    /// Start a frame. Lets go of the features that were lost in the last one, and
    /// gives the number of failures counted so far, which [`Tracker::end_frame`]
    /// takes back.
    pub fn begin_frame(&mut self) -> (failures_before: usize)
        requires
            old(self).wf(),
            old(self)@.frame_index < u64::MAX,
            old(self)@.frame_index < usize::MAX,
        ensures
            final(self).wf(),
            final(self).settings() == old(self).settings(),
            final(self).front_end() == old(self).front_end(),
            failures_before == old(self)@.failures.sum(),
            final(self)@ == frame_begun(old(self)@),
    {
        let before: usize = self.failures.total();
        proof {
            lemma_retained(
                self.features@,
                0,
                self.features@.len(),
                self.next_feature_id,
                self.next_landmark_id,
            );
        }
        self.features = retain(&self.features, 0);
        self.frame_index = self.frame_index + 1;
        self.frames_since_keyframe = self.frames_since_keyframe + 1;
        before
    }

    /// Features in the current frame; those that were lost in it are not counted.
    pub fn live_features(&self) -> (count: usize)
        ensures
            count == live_count(self@.features, self@.features.len()),
    {
        count_live(&self.features)
    }

    /// Move the features to where flow found them, and mark those it did not find
    /// as lost.
    pub fn follow(&mut self, results: &Vec<Option<Moved<V>>>) -> (summary: FlowSummary)
        requires
            old(self).wf(),
        ensures
            final(self).wf(),
            final(self).settings() == old(self).settings(),
            final(self).front_end() == old(self).front_end(),
            final(self)@ == (Snapshot {
                features: followed(old(self)@.features, results@),
                ..old(self)@
            }),
            summary.attempted == live_count(old(self)@.features, old(self)@.features.len()),
            summary.survived == live_count(final(self)@.features, final(self)@.features.len()),
    {
        let attempted: usize = self.live_features();
        let ghost features = self.features@;
        let ghost after = followed(features, results@);
        let mut i: usize = 0;
        while i < self.features.len()
            invariant
                i <= self.features@.len(),
                features == old(self)@.features,
                after == followed(features, results@),
                self.features@.len() == features.len(),
                forall|k: int| 0 <= k < i ==> #[trigger] self.features@[k] == after[k],
                forall|k: int|
                    i <= k < features.len() ==> #[trigger] self.features@[k] == features[k],
                self@ == (Snapshot { features: self.features@, ..old(self)@ }),
                self.config == old(self).config,
                self.backend == old(self).backend,
                self.map == old(self).map,
            decreases self.features@.len() - i,
        {
            let f: Feature<V> = self.features[i];
            let found: Option<Moved<V>> = if i < results.len() {
                results[i]
            } else {
                None
            };
            let g: Feature<V> = match found {
                Some(m) => Feature {
                    id: f.id,
                    px: m.px,
                    px_undist: m.px_undist,
                    state: FeatureState::Followed,
                    landmark: f.landmark,
                    age: count_up(f.age),
                },
                None => Feature {
                    id: f.id,
                    px: f.px,
                    px_undist: f.px_undist,
                    state: FeatureState::Lost,
                    landmark: f.landmark,
                    age: f.age,
                },
            };
            assert(found == found_at(results@, i as int));
            assert(g == after[i as int]);
            self.features.set(i, g);
            i = i + 1;
        }
        proof {
            assert(self.features@ =~= after);
            assert forall|a: int, b: int|
                #![trigger self.features@[a], self.features@[b]]
                0 <= a < b < self.features@.len() implies self.features@[a].id
                < self.features@[b].id by {
                assert(features[a].id < features[b].id);
            }
            assert forall|a: int| 0 <= a < self.features@.len() implies (
            #[trigger] self.features@[a]).id < self.next_feature_id && (
            self.features@[a].landmark matches Some(l) ==> l < self.next_landmark_id) by {
                assert(features[a].id < self.next_feature_id);
            }
        }
        FlowSummary { survived: self.live_features(), attempted }
    }
}

// ---------------------------------------------------------------------------
// Pose
// ---------------------------------------------------------------------------

/// A landmark and where it is seen.
#[derive(Debug, Clone, Copy)]
pub struct Correspondence<V, X> {
    pub position: X,
    pub px: V,
}

/// Whether a feature in the current frame carries a landmark that the map still
/// holds.
pub open spec fn is_paired<V, X>(f: Feature<V>, map: Seq<Entry<X>>) -> bool {
    is_live(f) && (f.landmark matches Some(l) && knows(map, l))
}

/// The correspondences among the first `n` features, in order.
pub open spec fn pairs_of<V, X>(features: Seq<Feature<V>>, map: Seq<Entry<X>>, n: nat) -> Seq<
    Correspondence<V, X>,
>
    decreases n,
{
    if n == 0 {
        seq![]
    } else {
        let before = pairs_of(features, map, (n - 1) as nat);
        let f = features[n - 1];
        if is_paired(f, map) {
            before.push(
                Correspondence {
                    position: map[place_of(map, f.landmark->0)].landmark.position,
                    px: f.px_undist,
                },
            )
        } else {
            before
        }
    }
}

/// What the pose solve gave.
#[derive(Debug)]
pub struct PoseSolve<P, C> {
    pub pose: P,
    pub covariance: Option<C>,
    /// Which correspondences agree, in their order.
    pub inliers: Vec<bool>,
    /// How many agree.
    pub inlier_count: usize,
}

/// What came of the pose solve.
#[derive(Debug, Clone, Copy, PartialEq, Eq, Structural)]
pub struct SolveSummary {
    pub solved: bool,
    pub inliers: usize,
}

/// The solve to go on with: the refined one if enough correspondences agree with
/// it, the one it was refined from if not.
pub fn better_solve<P, C>(refined: Option<PoseSolve<P, C>>, ransac: PoseSolve<P, C>) -> (solve:
    PoseSolve<P, C>)
    ensures
        solve == (if refined matches Some(r) && r.inlier_count >= MIN_PNP_CORRESPONDENCES {
            refined->0
        } else {
            ransac
        }),
        solve == supported_solve(refined, ransac),
{
    match refined {
        Some(r) => {
            if r.inlier_count >= MIN_PNP_CORRESPONDENCES {
                r
            } else {
                ransac
            }
        },
        None => ransac,
    }
}

/// Whether correspondence `r` agrees; one without a flag does not.
pub open spec fn agrees(inliers: Seq<bool>, r: int) -> bool {
    r < inliers.len() && inliers[r]
}

/// The features among the first `n`, each one that took part in the solve marked
/// by whether it agrees.
pub open spec fn marked<V, X>(
    features: Seq<Feature<V>>,
    map: Seq<Entry<X>>,
    inliers: Seq<bool>,
    n: nat,
) -> Seq<Feature<V>>
    decreases n,
{
    if n == 0 {
        seq![]
    } else {
        let f = features[n - 1];
        let rank = pairs_of(features, map, (n - 1) as nat).len() as int;
        marked(features, map, inliers, (n - 1) as nat).push(
            if !is_paired(f, map) {
                f
            } else if agrees(inliers, rank) {
                Feature { state: FeatureState::Followed, ..f }
            } else {
                Feature { state: FeatureState::Outlier, ..f }
            },
        )
    }
}

/// The map once the landmarks of the agreeing features among the first `n` have
/// been seen in `frame`.
pub open spec fn sighted<V, X>(
    features: Seq<Feature<V>>,
    map: Seq<Entry<X>>,
    inliers: Seq<bool>,
    frame: u64,
    n: nat,
) -> Seq<Entry<X>>
    decreases n,
{
    if n == 0 {
        map
    } else {
        let before = sighted(features, map, inliers, frame, (n - 1) as nat);
        let f = features[n - 1];
        let rank = pairs_of(features, map, (n - 1) as nat).len() as int;
        if is_paired(f, map) && agrees(inliers, rank) {
            with_sighting(before, f.landmark->0, frame)
        } else {
            before
        }
    }
}

/// Two maps hold the same landmarks in the same places.
pub(crate) open spec fn same_ids<X>(a: Seq<Entry<X>>, b: Seq<Entry<X>>) -> bool {
    a.len() == b.len() && forall|i: int|
        0 <= i < a.len() ==> (#[trigger] a[i]).landmark.id == b[i].landmark.id
}

proof fn lemma_same_ids<X>(a: Seq<Entry<X>>, b: Seq<Entry<X>>, id: u64)
    requires
        same_ids(a, b),
    ensures
        knows(a, id) == knows(b, id),
{
    if knows(a, id) {
        let i = choose|i: int| #[trigger] is_at(a, id, i);
        assert(is_at(b, id, i)) by {
            assert(a[i].landmark.id == b[i].landmark.id);
        }
    }
    if knows(b, id) {
        let i = choose|i: int| #[trigger] is_at(b, id, i);
        assert(is_at(a, id, i)) by {
            assert(a[i].landmark.id == b[i].landmark.id);
        }
    }
}

pub(crate) proof fn lemma_sighting_keeps_ids<X>(map: Seq<Entry<X>>, id: u64, frame: u64)
    ensures
        same_ids(map, with_sighting(map, id, frame)),
{
    if knows(map, id) {
        assert(is_at(map, id, place_of(map, id)));
    }
}

/// The state after a frame without a pose: one more failure in a row, and the
/// pose, if there is one, is staler.
pub open spec fn after_failure<V, X, P, C>(
    s: Snapshot<V, X, P, C>,
    failures: FailureCounts,
) -> Snapshot<V, X, P, C> {
    Snapshot {
        failures,
        solve_failures: counted_up(s.solve_failures),
        covariance: if s.pose is Some {
            s.covariance.widened()
        } else {
            s.covariance
        },
        ..s
    }
}

/// The state after the pose solve. Without enough correspondences nothing else
/// counts; `None` is a search that found nothing. Without a map there is nothing to
/// solve against, and how the frame is counted rests with the bootstrap.
pub open spec fn after_solve<V, X, P, C>(
    s: Snapshot<V, X, P, C>,
    solve: Option<PoseSolve<P, C>>,
) -> Snapshot<V, X, P, C> {
    if pairs_of(s.features, s.map, s.features.len()).len() < MIN_PNP_CORRESPONDENCES {
        after_failure(
            s,
            if s.map.len() == 0 {
                s.failures
            } else {
                FailureCounts {
                    too_few_correspondences: (s.failures.too_few_correspondences + 1) as usize,
                    ..s.failures
                }
            },
        )
    } else {
        match solve {
            None => after_failure(
                s,
                FailureCounts {
                    ransac_failed: (s.failures.ransac_failed + 1) as usize,
                    ..s.failures
                },
            ),
            Some(solve) => if solve.inlier_count < MIN_PNP_CORRESPONDENCES {
                after_failure(
                    s,
                    FailureCounts {
                        too_few_inliers: (s.failures.too_few_inliers + 1) as usize,
                        ..s.failures
                    },
                )
            } else {
                Snapshot {
                    features: marked(s.features, s.map, solve.inliers@, s.features.len()),
                    map: sighted(
                        s.features,
                        s.map,
                        solve.inliers@,
                        s.frame_index,
                        s.features.len(),
                    ),
                    pose: Some(solve.pose),
                    covariance: Covariance::of(solve.covariance),
                    solve_failures: 0,
                    ..s
                }
            },
        }
    }
}

/// Whether the pose solve gave this frame a pose.
pub open spec fn is_solved<V, X, P, C>(
    s: Snapshot<V, X, P, C>,
    solve: Option<PoseSolve<P, C>>,
) -> bool {
    &&& pairs_of(s.features, s.map, s.features.len()).len() >= MIN_PNP_CORRESPONDENCES
    &&& solve matches Some(p) && p.inlier_count >= MIN_PNP_CORRESPONDENCES
}

impl<V: Copy, X: Copy, P: Copy, C: Copy> Tracker<V, X, P, C> {
    /// The landmarks in view and where they are seen, in feature order.
    pub fn correspondences(&self) -> (pairs: Vec<Correspondence<V, X>>)
        requires
            self.wf(),
        ensures
            pairs@ == pairs_of(self@.features, self@.map, self@.features.len()),
    {
        let mut pairs: Vec<Correspondence<V, X>> = Vec::new();
        let mut i: usize = 0;
        while i < self.features.len()
            invariant
                i <= self.features@.len(),
                self.map.wf(),
                pairs@ == pairs_of(self.features@, self.map@, i as nat),
            decreases self.features@.len() - i,
        {
            let f: Feature<V> = self.features[i];
            if f.state != FeatureState::Lost {
                if let Some(lid) = f.landmark {
                    if let Some(l) = self.map.get(lid) {
                        pairs.push(Correspondence { position: l.position, px: f.px_undist });
                    }
                }
            }
            i = i + 1;
        }
        pairs
    }

    fn note_failure(&mut self)
        ensures
            final(self)@ == after_failure(old(self)@, old(self)@.failures),
            final(self).config == old(self).config,
            final(self).backend == old(self).backend,
            final(self).map == old(self).map,
    {
        self.solve_failures = count_up(self.solve_failures);
        if self.pose.is_some() {
            self.covariance = match self.covariance {
                Covariance::Solved { value, widenings } => Covariance::Solved {
                    value,
                    widenings: count_up(widenings),
                },
                Covariance::Unbounded => Covariance::Unbounded,
            };
        }
    }

    fn mark(&mut self, inliers: &Vec<bool>)
        requires
            old(self).wf(),
        ensures
            final(self).wf(),
            final(self).config == old(self).config,
            final(self).backend == old(self).backend,
            final(self)@ == (Snapshot {
                features: marked(
                    old(self)@.features,
                    old(self)@.map,
                    inliers@,
                    old(self)@.features.len(),
                ),
                map: sighted(
                    old(self)@.features,
                    old(self)@.map,
                    inliers@,
                    old(self)@.frame_index,
                    old(self)@.features.len(),
                ),
                ..old(self)@
            }),
    {
        let ghost features = self.features@;
        let ghost map = self.map@;
        let mut rank: usize = 0;
        let mut i: usize = 0;
        while i < self.features.len()
            invariant
                i <= self.features@.len(),
                features == old(self)@.features,
                map == old(self)@.map,
                self.features@.len() == features.len(),
                self.map.wf(),
                same_ids(map, self.map@),
                ids_increase(features),
                ids_are_given(features, self.next_feature_id, self.next_landmark_id),
                landmarks_are_given(map, self.next_landmark_id),
                rank == pairs_of(features, map, i as nat).len(),
                rank <= i,
                self.map@ == sighted(features, map, inliers@, self.frame_index, i as nat),
                forall|k: int|
                    i <= k < features.len() ==> #[trigger] self.features@[k] == features[k],
                marked(features, map, inliers@, i as nat).len() == i,
                forall|k: int|
                    0 <= k < i ==> #[trigger] self.features@[k] == marked(
                        features,
                        map,
                        inliers@,
                        i as nat,
                    )[k],
                forall|k: int|
                    0 <= k < features.len() ==> (#[trigger] self.features@[k]).id == features[k].id
                        && self.features@[k].landmark == features[k].landmark,
                self@ == (Snapshot { features: self.features@, map: self.map@, ..old(self)@ }),
                self.config == old(self).config,
                self.backend == old(self).backend,
                old(self)@.wf(old(self).config),
            decreases self.features@.len() - i,
        {
            let f: Feature<V> = self.features[i];
            let ghost before = self.map@;
            if let Some(lid) = f.landmark {
                proof {
                    lemma_same_ids(map, self.map@, lid);
                }
                if f.state != FeatureState::Lost && self.map.get(lid).is_some() {
                    if rank < inliers.len() && inliers[rank] {
                        self.features[i].state = FeatureState::Followed;
                        self.map.observe(lid, self.frame_index);
                        proof {
                            lemma_sighting_keeps_ids(before, lid, self.frame_index);
                        }
                    } else {
                        self.features[i].state = FeatureState::Outlier;
                    }
                    rank = rank + 1;
                }
            }
            i = i + 1;
        }
        proof {
            assert(self.features@ =~= marked(features, map, inliers@, features.len()));
            self.map.lemma_ids_are_distinct();
            assert forall|a: int, b: int|
                #![trigger self.features@[a], self.features@[b]]
                0 <= a < b < self.features@.len() implies self.features@[a].id
                < self.features@[b].id by {
                assert(features[a].id < features[b].id);
            }
            assert forall|a: int| 0 <= a < self.features@.len() implies (
            #[trigger] self.features@[a]).id < self.next_feature_id && (
            self.features@[a].landmark matches Some(l) ==> l < self.next_landmark_id) by {
                assert(features[a].id < self.next_feature_id);
            }
            assert forall|a: int| 0 <= a < self.map@.len() implies (
            #[trigger] self.map@[a]).landmark.id < self.next_landmark_id by {
                assert(map[a].landmark.id < self.next_landmark_id);
            }
        }
    }

    /// Take note of what the pose solve gave.
    pub fn record_solve(&mut self, solve: Option<PoseSolve<P, C>>) -> (summary: SolveSummary)
        requires
            old(self).wf(),
            old(self)@.failures.sum() < old(self)@.frame_index,
            old(self)@.failures.sum() < usize::MAX,
        ensures
            final(self).wf(),
            final(self).settings() == old(self).settings(),
            final(self).front_end() == old(self).front_end(),
            final(self)@ == after_solve(old(self)@, solve),
            summary.solved == is_solved(old(self)@, solve),
            summary.inliers == (if summary.solved {
                solve->0.inlier_count
            } else {
                0
            }),
    {
        let pairs: Vec<Correspondence<V, X>> = self.correspondences();
        if pairs.len() < MIN_PNP_CORRESPONDENCES {
            if !self.map.is_empty() {
                self.failures.too_few_correspondences = self.failures.too_few_correspondences + 1;
            }
            self.note_failure();
            return SolveSummary { solved: false, inliers: 0 };
        }
        match solve {
            None => {
                self.failures.ransac_failed = self.failures.ransac_failed + 1;
                self.note_failure();
                SolveSummary { solved: false, inliers: 0 }
            },
            Some(s) => {
                if s.inlier_count < MIN_PNP_CORRESPONDENCES {
                    self.failures.too_few_inliers = self.failures.too_few_inliers + 1;
                    self.note_failure();
                    return SolveSummary { solved: false, inliers: 0 };
                }
                self.mark(&s.inliers);
                self.pose = Some(s.pose);
                self.covariance = covariance_of(s.covariance);
                self.solve_failures = 0;
                SolveSummary { solved: true, inliers: s.inlier_count }
            },
        }
    }
}

// ---------------------------------------------------------------------------
// Giving a map up
// ---------------------------------------------------------------------------

/// Features that carry no landmark.
pub open spec fn without_landmarks<V>(features: Seq<Feature<V>>) -> Seq<Feature<V>> {
    Seq::new(features.len(), |i: int| Feature { landmark: None, ..features[i] })
}

/// Whether the map can no longer be seen: there is one, and the solve has failed
/// against it for too long.
pub open spec fn is_unseen<V, X, P, C>(s: Snapshot<V, X, P, C>) -> bool {
    s.solve_failures >= ABANDON_MAP_AFTER_FAILURES && s.map.len() > 0
}

/// The state with the map, and all that hangs on it, given up.
pub open spec fn without_map<V, X, P, C>(s: Snapshot<V, X, P, C>) -> Snapshot<V, X, P, C> {
    Snapshot {
        map: seq![],
        pose: None,
        keyframe: None,
        bootstrap: None,
        window: seq![],
        reference_landmarks: 0,
        features: without_landmarks(s.features),
        ..s
    }
}

/// The state with a map that can no longer be seen given up.
pub open spec fn abandoned<V, X, P, C>(s: Snapshot<V, X, P, C>) -> Snapshot<V, X, P, C> {
    if is_unseen(s) {
        without_map(s)
    } else {
        s
    }
}

impl<V: Copy, X: Copy, P: Copy, C: Copy> Tracker<V, X, P, C> {
    fn drop_landmarks(&mut self)
        requires
            ids_increase(old(self)@.features),
            ids_are_given(
                old(self)@.features,
                old(self)@.next_feature_id,
                old(self)@.next_landmark_id,
            ),
        ensures
            final(self)@ == (Snapshot {
                features: without_landmarks(old(self)@.features),
                ..old(self)@
            }),
            ids_increase(final(self)@.features),
            ids_are_given(
                final(self)@.features,
                final(self)@.next_feature_id,
                final(self)@.next_landmark_id,
            ),
            final(self).config == old(self).config,
            final(self).backend == old(self).backend,
            final(self).map == old(self).map,
    {
        let ghost features = self.features@;
        let mut i: usize = 0;
        while i < self.features.len()
            invariant
                i <= self.features@.len(),
                self.features@.len() == features.len(),
                features == old(self)@.features,
                forall|k: int|
                    0 <= k < i ==> #[trigger] self.features@[k] == without_landmarks(features)[k],
                forall|k: int|
                    i <= k < features.len() ==> #[trigger] self.features@[k] == features[k],
                self@ == (Snapshot { features: self.features@, ..old(self)@ }),
                self.config == old(self).config,
                self.backend == old(self).backend,
                self.map == old(self).map,
            decreases self.features@.len() - i,
        {
            self.features[i].landmark = None;
            i = i + 1;
        }
        assert(self.features@ =~= without_landmarks(features));
        assert forall|a: int, b: int|
            #![trigger self.features@[a], self.features@[b]]
            0 <= a < b < self.features@.len() implies self.features@[a].id
            < self.features@[b].id by {
            assert(features[a].id < features[b].id);
        }
        assert forall|a: int| 0 <= a < self.features@.len() implies (
        #[trigger] self.features@[a]).id < self.next_feature_id by {
            assert(features[a].id < self.next_feature_id);
        }
    }

    /// Throw the map away once it can plainly no longer be seen, so that a new one
    /// can be built.
    pub fn abandon_unseen_map(&mut self) -> (given_up: bool)
        requires
            old(self).wf(),
        ensures
            final(self).wf(),
            final(self).settings() == old(self).settings(),
            final(self).front_end() == old(self).front_end(),
            given_up == is_unseen(old(self)@),
            final(self)@ == abandoned(old(self)@),
    {
        if self.solve_failures < ABANDON_MAP_AFTER_FAILURES || self.map.is_empty() {
            return false;
        }
        self.map.clear();
        self.pose = None;
        self.keyframe = None;
        self.window = VecDeque::new();
        self.reference_landmarks = 0;
        self.bootstrap = None;
        self.drop_landmarks();
        assert(self@ =~= without_map(old(self)@));
        true
    }

    /// Whether there is a pose and a map, so that a keyframe rather than a
    /// bootstrap is in order.
    pub fn has_map(&self) -> (has: bool)
        ensures
            has == (self@.pose is Some && self@.map.len() > 0),
    {
        self.pose.is_some() && !self.map.is_empty()
    }
}

// ---------------------------------------------------------------------------
// Keyframes
// ---------------------------------------------------------------------------

/// How many of the first `n` features carry a landmark and are not lost.
pub open spec fn landmark_count<V>(features: Seq<Feature<V>>, n: nat) -> nat
    decreases n,
{
    if n == 0 {
        0
    } else {
        landmark_count(features, (n - 1) as nat) + if features[n - 1].landmark is Some
            && features[n - 1].state != FeatureState::Lost {
            1nat
        } else {
            0nat
        }
    }
}

/// Where the first `n` features are seen; those that are lost are not.
pub open spec fn seen_at<V>(features: Seq<Feature<V>>, n: nat) -> Map<u64, V>
    decreases n,
{
    if n == 0 {
        Map::empty()
    } else {
        let before = seen_at(features, (n - 1) as nat);
        let f = features[n - 1];
        if is_live(f) {
            before.insert(f.id, f.px_undist)
        } else {
            before
        }
    }
}

/// A view to which those of the first `n` features that it lacks have been added.
pub open spec fn seen_also<V>(seen: Map<u64, V>, features: Seq<Feature<V>>, n: nat) -> Map<u64, V>
    decreases n,
{
    if n == 0 {
        seen
    } else {
        let before = seen_also(seen, features, (n - 1) as nat);
        let f = features[n - 1];
        if is_live(f) && !before.contains_key(f.id) {
            before.insert(f.id, f.px_undist)
        } else {
            before
        }
    }
}

/// Where the landmarks of the first `n` features are seen.
pub open spec fn landmarks_seen<V>(features: Seq<Feature<V>>, n: nat) -> Seq<(u64, V)>
    decreases n,
{
    if n == 0 {
        seq![]
    } else {
        let before = landmarks_seen(features, (n - 1) as nat);
        let f = features[n - 1];
        match f.landmark {
            Some(l) => if f.state != FeatureState::Lost {
                before.push((l, f.px_undist))
            } else {
                before
            },
            None => before,
        }
    }
}

/// Whether a keyframe is due: there is a map and a keyframe to go by, enough
/// frames have passed, and the camera has moved or the landmarks run out while
/// enough of them are left to go on.
pub open spec fn keyframe_is_due<V, X, P, C>(
    s: Snapshot<V, X, P, C>,
    config: TrackConfig,
    has_moved: bool,
    starving_below: nat,
) -> bool {
    let in_view = landmark_count(s.features, s.features.len());
    &&& s.pose is Some
    &&& s.keyframe is Some
    &&& s.frames_since_keyframe >= 1
    &&& s.frames_since_keyframe >= config.keyframe_min_frames
    &&& has_moved || (in_view < starving_below && in_view > config.keyframe_min_tracked)
}

/// Whether a feature can be triangulated against a view: it is in the current
/// frame, has no landmark yet and was seen there.
pub open spec fn is_candidate<V>(f: Feature<V>, seen: Map<u64, V>) -> bool {
    is_live(f) && f.landmark is None && seen.contains_key(f.id)
}

/// How many of the first `n` features get a landmark.
pub open spec fn gains<V, X>(
    features: Seq<Feature<V>>,
    seen: Map<u64, V>,
    points: Seq<Option<X>>,
    n: nat,
) -> nat
    decreases n,
{
    if n == 0 {
        0
    } else {
        gains(features, seen, points, (n - 1) as nat) + if is_candidate(features[n - 1], seen)
            && points[n - 1] is Some {
            1nat
        } else {
            0nat
        }
    }
}

/// The first `n` features, with the new landmarks numbered from `next`.
pub open spec fn with_gains<V, X>(
    features: Seq<Feature<V>>,
    seen: Map<u64, V>,
    points: Seq<Option<X>>,
    next: u64,
    n: nat,
) -> Seq<Feature<V>>
    decreases n,
{
    if n == 0 {
        seq![]
    } else {
        let f = features[n - 1];
        with_gains(features, seen, points, next, (n - 1) as nat).push(
            if is_candidate(f, seen) && points[n - 1] is Some {
                Feature {
                    landmark: Some((next + gains(features, seen, points, (n - 1) as nat)) as u64),
                    ..f
                }
            } else {
                f
            },
        )
    }
}

/// The map with the new landmarks of the first `n` features.
pub open spec fn grown<V, X>(
    map: Seq<Entry<X>>,
    features: Seq<Feature<V>>,
    seen: Map<u64, V>,
    points: Seq<Option<X>>,
    next: u64,
    frame: u64,
    n: nat,
) -> Seq<Entry<X>>
    decreases n,
{
    if n == 0 {
        map
    } else {
        let before = grown(map, features, seen, points, next, frame, (n - 1) as nat);
        if is_candidate(features[n - 1], seen) && points[n - 1] is Some {
            with_landmark(
                before,
                LocalLandmark {
                    id: (next + gains(features, seen, points, (n - 1) as nat)) as u64,
                    position: points[n - 1]->0,
                    observations: 2,
                },
                frame,
            )
        } else {
            before
        }
    }
}

/// The window with one more keyframe, the oldest ones gone once it is full. A
/// keyframe that sees no landmark is of no use to it.
pub open spec fn slid<V, P>(
    window: Seq<WindowView<V, P>>,
    keyframe: WindowView<V, P>,
    config: TrackConfig,
) -> Seq<WindowView<V, P>> {
    let capacity = config.local_ba_window + config.local_ba_context;
    if config.local_ba_window == 0 || keyframe.observations.len() == 0 {
        window
    } else if window.len() < capacity {
        window.push(keyframe)
    } else {
        window.push(keyframe).subrange(window.len() + 1 - capacity, window.len() as int + 1)
    }
}

/// The state once the current frame has become a keyframe, `points` giving what
/// each feature was triangulated to.
pub open spec fn promoted<V, X, P, C>(
    s: Snapshot<V, X, P, C>,
    config: TrackConfig,
    points: Seq<Option<X>>,
) -> Snapshot<V, X, P, C> {
    let n = s.features.len();
    let seen = s.keyframe->0.observations;
    let features = with_gains(s.features, seen, points, s.next_landmark_id, n);
    let pose = s.pose->0;
    Snapshot {
        features,
        map: grown(s.map, s.features, seen, points, s.next_landmark_id, s.frame_index, n),
        next_landmark_id: (s.next_landmark_id + gains(s.features, seen, points, n)) as u64,
        keyframe: Some(ReferenceView { pose, observations: seen_at(features, n) }),
        frames_since_keyframe: 0,
        reference_landmarks: landmark_count(features, n) as usize,
        window: slid(
            s.window,
            WindowView { pose, observations: landmarks_seen(features, n) },
            config,
        ),
        ..s
    }
}

fn observe_all<V: Copy>(features: &Vec<Feature<V>>) -> (seen: HashMap<u64, V>)
    ensures
        seen@ == seen_at(features@, features@.len()),
{
    let mut seen: HashMap<u64, V> = HashMap::new();
    let mut i: usize = 0;
    while i < features.len()
        invariant
            i <= features@.len(),
            seen@ == seen_at(features@, i as nat),
        decreases features@.len() - i,
    {
        if features[i].state != FeatureState::Lost {
            seen.insert(features[i].id, features[i].px_undist);
        }
        i = i + 1;
    }
    seen
}

fn observe_also<V: Copy>(seen: &mut HashMap<u64, V>, features: &Vec<Feature<V>>)
    ensures
        final(seen)@ == seen_also(old(seen)@, features@, features@.len()),
{
    let mut i: usize = 0;
    while i < features.len()
        invariant
            i <= features@.len(),
            seen@ == seen_also(old(seen)@, features@, i as nat),
        decreases features@.len() - i,
    {
        if features[i].state != FeatureState::Lost && !seen.contains_key(&features[i].id) {
            seen.insert(features[i].id, features[i].px_undist);
        }
        i = i + 1;
    }
}

fn count_landmarks<V: Copy>(features: &Vec<Feature<V>>) -> (count: usize)
    ensures
        count == landmark_count(features@, features@.len()),
{
    let mut count: usize = 0;
    let mut i: usize = 0;
    while i < features.len()
        invariant
            i <= features@.len(),
            count <= i,
            count == landmark_count(features@, i as nat),
        decreases features@.len() - i,
    {
        if features[i].landmark.is_some() && features[i].state != FeatureState::Lost {
            count = count + 1;
        }
        i = i + 1;
    }
    count
}

fn observe_landmarks<V: Copy>(features: &Vec<Feature<V>>) -> (seen: Vec<(u64, V)>)
    ensures
        seen@ == landmarks_seen(features@, features@.len()),
{
    let mut seen: Vec<(u64, V)> = Vec::new();
    let mut i: usize = 0;
    while i < features.len()
        invariant
            i <= features@.len(),
            seen@ == landmarks_seen(features@, i as nat),
        decreases features@.len() - i,
    {
        if let Some(l) = features[i].landmark {
            if features[i].state != FeatureState::Lost {
                seen.push((l, features[i].px_undist));
            }
        }
        i = i + 1;
    }
    seen
}

impl<V: Copy, X: Copy, P: Copy, C: Copy> Tracker<V, X, P, C> {
    /// Features in view that carry a landmark.
    pub fn landmarks_in_view(&self) -> (count: usize)
        ensures
            count == landmark_count(self@.features, self@.features.len()),
    {
        count_landmarks(&self.features)
    }

    /// The pose of the last keyframe.
    pub fn keyframe_pose(&self) -> (pose: Option<P>)
        ensures
            pose == (match self@.keyframe {
                Some(k) => Some(k.pose),
                None => None,
            }),
    {
        match &self.keyframe {
            Some(k) => Some(k.pose),
            None => None,
        }
    }

    /// Whether a keyframe is due. `has_moved` says whether the camera has moved or
    /// turned enough since the last one, and `starving_below` how many landmarks
    /// are too few, given how many the last one had.
    pub fn is_keyframe_due(&self, has_moved: bool, starving_below: usize) -> (due: bool)
        ensures
            due == keyframe_is_due(self@, self.settings(), has_moved, starving_below as nat),
    {
        if self.pose.is_none() || self.keyframe.is_none() {
            return false;
        }
        if self.frames_since_keyframe < 1 || self.frames_since_keyframe
            < self.config.keyframe_min_frames {
            return false;
        }
        let in_view: usize = self.landmarks_in_view();
        has_moved || (in_view < starving_below && in_view > self.config.keyframe_min_tracked)
    }

    /// For each feature that can be triangulated against the last keyframe, where
    /// that keyframe saw it.
    pub fn first_sightings(&self) -> (firsts: Vec<Option<V>>)
        ensures
            firsts@.len() == self@.features.len(),
            forall|i: int|
                0 <= i < firsts@.len() ==> #[trigger] firsts@[i] == (match self@.keyframe {
                    Some(k) => if is_candidate(self@.features[i], k.observations) {
                        Some(k.observations[self@.features[i].id])
                    } else {
                        None
                    },
                    None => None,
                }),
    {
        let mut firsts: Vec<Option<V>> = Vec::new();
        let mut i: usize = 0;
        while i < self.features.len()
            invariant
                i <= self.features@.len(),
                firsts@.len() == i,
                forall|k: int|
                    0 <= k < i ==> #[trigger] firsts@[k] == (match self@.keyframe {
                        Some(kf) => if is_candidate(self@.features[k], kf.observations) {
                            Some(kf.observations[self@.features[k].id])
                        } else {
                            None
                        },
                        None => None,
                    }),
            decreases self.features@.len() - i,
        {
            let mut first: Option<V> = None;
            if let Some(k) = &self.keyframe {
                let f: Feature<V> = self.features[i];
                if f.state != FeatureState::Lost && f.landmark.is_none() {
                    if let Some(px) = k.observations.get(&f.id) {
                        first = Some(*px);
                    }
                }
            }
            firsts.push(first);
            i = i + 1;
        }
        firsts
    }

    fn push_window(&mut self, pose: P)
        ensures
            final(self)@ == (Snapshot {
                window: slid(
                    old(self)@.window,
                    WindowView {
                        pose,
                        observations: landmarks_seen(
                            old(self)@.features,
                            old(self)@.features.len(),
                        ),
                    },
                    old(self).config,
                ),
                ..old(self)@
            }),
            final(self).config == old(self).config,
            final(self).backend == old(self).backend,
            final(self).map == old(self).map,
    {
        if self.config.local_ba_window == 0 {
            return;
        }
        let observations: Vec<(u64, V)> = observe_landmarks(&self.features);
        if observations.len() == 0 {
            return;
        }
        let ghost view = WindowView { pose, observations: observations@ };
        let capacity: usize = self.config.local_ba_window.saturating_add(
            self.config.local_ba_context,
        );
        self.window.push_back(WindowKeyframe { pose, observations });
        let ghost full = look_through(self.window@);
        assert(full =~= old(self)@.window.push(view));
        let ghost mut gone: int = 0;
        while self.window.len() > capacity
            invariant
                0 <= gone <= full.len(),
                full == old(self)@.window.push(view),
                look_through(self.window@) == full.subrange(gone, full.len() as int),
                self.window@.len() == full.len() - gone,
                capacity == (if self.config.local_ba_window + self.config.local_ba_context
                    > usize::MAX {
                    usize::MAX as int
                } else {
                    self.config.local_ba_window + self.config.local_ba_context
                }),
                gone > 0 ==> full.len() - gone >= capacity && capacity < usize::MAX,
                self@ == (Snapshot { window: look_through(self.window@), ..old(self)@ }),
                self.config == old(self).config,
                self.backend == old(self).backend,
                self.map == old(self).map,
            decreases self.window@.len(),
        {
            let ghost before = self.window@;
            let _ = self.window.pop_front();
            proof {
                assert(look_through(before).len() == before.len());
                assert forall|k: int| 0 <= k < self.window@.len() implies #[trigger] look_through(
                    self.window@,
                )[k] == full.subrange(gone + 1, full.len() as int)[k] by {
                    assert(self.window@[k] == before[k + 1]);
                    assert(look_through(before)[k + 1] == full.subrange(
                        gone,
                        full.len() as int,
                    )[k + 1]);
                }
                gone = gone + 1;
            }
            assert(look_through(self.window@) =~= full.subrange(gone, full.len() as int));
        }
        assert(full.subrange(0, full.len() as int) =~= full);
        assert(self@.window == slid(old(self)@.window, view, self.config));
    }

    /// Make the current frame a keyframe. `points` gives, for each feature, what
    /// it was triangulated to, if anything; only features that can be
    /// triangulated are looked at. Gives the number of new landmarks.
    pub fn promote(&mut self, points: &Vec<Option<X>>) -> (created: usize)
        requires
            old(self).wf(),
            old(self)@.pose is Some,
            old(self)@.keyframe is Some,
            points@.len() == old(self)@.features.len(),
            old(self)@.next_landmark_id + old(self)@.features.len() <= u64::MAX,
        ensures
            final(self).wf(),
            final(self).settings() == old(self).settings(),
            final(self).front_end() == old(self).front_end(),
            final(self)@ == promoted(old(self)@, old(self).settings(), points@),
            created == gains(
                old(self)@.features,
                old(self)@.keyframe->0.observations,
                points@,
                old(self)@.features.len(),
            ),
    {
        let pose: P = match self.pose {
            Some(p) => p,
            None => {
                return 0;
            },
        };
        let firsts: Vec<Option<V>> = self.first_sightings();
        let ghost features = self.features@;
        let ghost seen = self@.keyframe->0.observations;
        let ghost map = self.map@;
        let ghost next = self.next_landmark_id;
        let mut created: usize = 0;
        let mut i: usize = 0;
        while i < self.features.len()
            invariant
                i <= self.features@.len(),
                features == old(self)@.features,
                map == old(self)@.map,
                next == old(self)@.next_landmark_id,
                old(self)@.keyframe is Some,
                seen == old(self)@.keyframe->0.observations,
                self.features@.len() == features.len(),
                points@.len() == features.len(),
                firsts@.len() == features.len(),
                forall|k: int|
                    0 <= k < firsts@.len() ==> ((#[trigger] firsts@[k]) is Some <==> is_candidate(
                        features[k],
                        seen,
                    )),
                next + features.len() <= u64::MAX,
                created == gains(features, seen, points@, i as nat),
                created <= i,
                self.next_landmark_id == next + created,
                self.map.wf(),
                self.map@ == grown(map, features, seen, points@, next, self.frame_index, i as nat),
                landmarks_are_given(self.map@, self.next_landmark_id),
                with_gains(features, seen, points@, next, i as nat).len() == i,
                forall|k: int|
                    0 <= k < i ==> #[trigger] self.features@[k] == with_gains(
                        features,
                        seen,
                        points@,
                        next,
                        i as nat,
                    )[k],
                forall|k: int|
                    i <= k < features.len() ==> #[trigger] self.features@[k] == features[k],
                forall|k: int|
                    0 <= k < features.len() ==> (#[trigger] self.features@[k]).id == features[k].id
                        && (self.features@[k].landmark matches Some(l) ==> l
                        < self.next_landmark_id),
                self@ == (Snapshot {
                    features: self.features@,
                    map: self.map@,
                    next_landmark_id: self.next_landmark_id,
                    ..old(self)@
                }),
                self.config == old(self).config,
                self.backend == old(self).backend,
                old(self)@.wf(old(self).config),
            decreases self.features@.len() - i,
        {
            let ghost before = self.map@;
            let ghost given = self.next_landmark_id;
            assert(self.features@[i as int] == features[i as int]);
            assert(firsts@[i as int] is Some <==> is_candidate(features[i as int], seen));
            if firsts[i].is_some() {
                if let Some(position) = points[i] {
                    let id: u64 = self.next_landmark_id;
                    self.next_landmark_id = self.next_landmark_id + 1;
                    self.map.insert(
                        LocalLandmark { id, position, observations: 2 },
                        self.frame_index,
                    );
                    proof {
                        lemma_growth_is_given(
                            before,
                            LocalLandmark { id, position, observations: 2 },
                            self.frame_index,
                            given,
                        );
                    }
                    self.features[i].landmark = Some(id);
                    created = created + 1;
                }
            }
            i = i + 1;
        }
        proof {
            assert(self.features@ =~= with_gains(features, seen, points@, next, features.len()));
        }
        self.keyframe = Some(KeyframeState { pose, observations: observe_all(&self.features) });
        self.frames_since_keyframe = 0;
        self.reference_landmarks = count_landmarks(&self.features);
        self.push_window(pose);
        proof {
            self.map.lemma_ids_are_distinct();
            assert forall|a: int, b: int|
                #![trigger self.features@[a], self.features@[b]]
                0 <= a < b < self.features@.len() implies self.features@[a].id
                < self.features@[b].id by {
                assert(features[a].id < features[b].id);
            }
            assert forall|a: int| 0 <= a < self.features@.len() implies (
            #[trigger] self.features@[a]).id < self.next_feature_id by {
                assert(features[a].id < self.next_feature_id);
            }
        }
        created
    }
}

proof fn lemma_growth_is_given<X>(
    map: Seq<Entry<X>>,
    landmark: LocalLandmark<X>,
    frame: u64,
    next: u64,
)
    requires
        landmarks_are_given(map, next),
        landmark.id <= next < u64::MAX,
    ensures
        landmarks_are_given(with_landmark(map, landmark, frame), (next + 1) as u64),
{
    if knows(map, landmark.id) {
        assert(is_at(map, landmark.id, place_of(map, landmark.id)));
    }
}

// ---------------------------------------------------------------------------
// Local bundle adjustment
// ---------------------------------------------------------------------------

/// What the window sees: landmarks in the order they turn up, each once, and
/// every sighting of them.
#[verifier::ext_equal]
pub struct WindowGraph<V> {
    pub ids: Seq<u64>,
    pub observations: Seq<Observation<V>>,
}

/// The place of an id in the list.
pub open spec fn slot_of(ids: Seq<u64>, id: u64) -> int {
    choose|i: int| 0 <= i < ids.len() && ids[i] == id
}

/// The graph with one more sighting; landmarks that have left the map are passed
/// over.
pub open spec fn with_sighting_of<V, X>(
    g: WindowGraph<V>,
    map: Seq<Entry<X>>,
    keyframe: nat,
    sighting: (u64, V),
) -> WindowGraph<V> {
    if !knows(map, sighting.0) {
        g
    } else {
        let ids = if g.ids.contains(sighting.0) {
            g.ids
        } else {
            g.ids.push(sighting.0)
        };
        WindowGraph {
            ids,
            observations: g.observations.push(
                Observation {
                    keyframe: keyframe as usize,
                    point: slot_of(ids, sighting.0) as usize,
                    px: sighting.1,
                },
            ),
        }
    }
}

/// The graph with the first `n` sightings of a keyframe.
pub open spec fn with_keyframe<V, X>(
    g: WindowGraph<V>,
    map: Seq<Entry<X>>,
    keyframe: nat,
    sightings: Seq<(u64, V)>,
    n: nat,
) -> WindowGraph<V>
    decreases n,
{
    if n == 0 {
        g
    } else {
        with_sighting_of(
            with_keyframe(g, map, keyframe, sightings, (n - 1) as nat),
            map,
            keyframe,
            sightings[n - 1],
        )
    }
}

/// The graph of the first `n` keyframes of the window.
pub open spec fn graph_of<V, X, P>(
    map: Seq<Entry<X>>,
    window: Seq<WindowView<V, P>>,
    n: nat,
) -> WindowGraph<V>
    decreases n,
{
    if n == 0 {
        WindowGraph { ids: seq![], observations: seq![] }
    } else {
        with_keyframe(
            graph_of(map, window, (n - 1) as nat),
            map,
            (n - 1) as nat,
            window[n - 1].observations,
            window[n - 1].observations.len(),
        )
    }
}

/// How many leading keyframes are held fixed: the context, as far as there is
/// one, and at least the anchors, but never the newest.
pub open spec fn anchors(config: TrackConfig, window: nat) -> nat {
    let fixed = if config.local_ba_fixed < 1 {
        1nat
    } else {
        config.local_ba_fixed as nat
    };
    let context = if config.local_ba_context < window - 1 {
        config.local_ba_context as nat
    } else {
        (window - 1) as nat
    };
    let wanted = if context < fixed {
        fixed
    } else {
        context
    };
    if wanted < window - 1 {
        wanted
    } else {
        (window - 1) as nat
    }
}

/// Whether the window is worth adjusting: more keyframes than anchors, and enough
/// landmarks and sightings.
pub open spec fn is_adjustable<V, X, P, C>(s: Snapshot<V, X, P, C>, config: TrackConfig) -> bool {
    let g = graph_of(s.map, s.window, s.window.len());
    &&& s.window.len() > 1
    &&& s.window.len() > config.local_ba_fixed
    &&& g.ids.len() >= MIN_WINDOW_POINTS
    &&& g.observations.len() >= MIN_WINDOW_OBSERVATIONS
}

/// A window to adjust, and the landmark that each of its points stands for.
#[derive(Debug)]
pub struct WindowProblem<V, X, P> {
    pub problem: LocalBaProblem<P, X, V>,
    pub ids: Vec<u64>,
}

impl<V, X, P> WindowProblem<V, X, P> {
    /// The window of a state, ready to be adjusted.
    pub open spec fn is_of<C>(self, s: Snapshot<V, X, P, C>, config: TrackConfig) -> bool {
        let g = graph_of(s.map, s.window, s.window.len());
        &&& self.ids@ == g.ids
        &&& self.problem.observations@ == g.observations
        &&& self.problem.fixed_poses == anchors(config, s.window.len())
        &&& self.problem.poses@.len() == s.window.len()
        &&& forall|i: int|
            0 <= i < s.window.len() ==> #[trigger] self.problem.poses@[i] == s.window[i].pose
        &&& self.problem.points@.len() == g.ids.len()
        &&& forall|j: int|
            0 <= j < g.ids.len() ==> #[trigger] self.problem.points@[j] == s.map[place_of(
                s.map,
                g.ids[j],
            )].landmark.position
    }
}

/// The map with the first `n` landmarks of a list moved; those without a new
/// position stay.
pub open spec fn relocated<X>(
    map: Seq<Entry<X>>,
    ids: Seq<u64>,
    points: Seq<Option<X>>,
    n: nat,
) -> Seq<Entry<X>>
    decreases n,
{
    if n == 0 {
        map
    } else {
        let before = relocated(map, ids, points, (n - 1) as nat);
        match points[n - 1] {
            Some(x) => with_position(before, ids[n - 1], x),
            None => before,
        }
    }
}

/// The window with other poses.
pub open spec fn reposed<V, P>(window: Seq<WindowView<V, P>>, poses: Seq<P>) -> Seq<
    WindowView<V, P>,
> {
    Seq::new(
        window.len(),
        |i: int| WindowView { pose: poses[i], observations: window[i].observations },
    )
}

/// A view with another pose.
pub open spec fn with_pose<V, P>(view: Option<ReferenceView<V, P>>, pose: P) -> Option<
    ReferenceView<V, P>,
> {
    match view {
        Some(v) => Some(ReferenceView { pose, observations: v.observations }),
        None => None,
    }
}

/// The state once an adjusted window has been written back: the landmarks, the
/// keyframes, the last keyframe, and the live pose, which carries the newest
/// keyframe's correction.
pub open spec fn adjusted<V, X, P, C>(
    s: Snapshot<V, X, P, C>,
    ids: Seq<u64>,
    points: Seq<Option<X>>,
    poses: Seq<P>,
    live: P,
) -> Snapshot<V, X, P, C> {
    Snapshot {
        map: relocated(s.map, ids, points, ids.len()),
        window: reposed(s.window, poses),
        keyframe: with_pose(s.keyframe, poses[s.window.len() - 1]),
        pose: if s.pose is Some {
            Some(live)
        } else {
            None
        },
        ..s
    }
}

proof fn lemma_slot(ids: Seq<u64>, id: u64, at: int)
    requires
        ids.no_duplicates(),
        0 <= at < ids.len(),
        ids[at] == id,
    ensures
        slot_of(ids, id) == at,
        ids.contains(id),
{
    let i = slot_of(ids, id);
    assert(0 <= i < ids.len() && ids[i] == id);
}

pub(crate) proof fn lemma_position_keeps_ids<X>(map: Seq<Entry<X>>, id: u64, position: X)
    ensures
        same_ids(map, with_position(map, id, position)),
{
    if knows(map, id) {
        assert(is_at(map, id, place_of(map, id)));
    }
}

impl<V: Copy, X: Copy, P: Copy, C: Copy> Tracker<V, X, P, C> {
    /// The pose of the newest keyframe of the window.
    pub fn newest_window_pose(&self) -> (pose: Option<P>)
        ensures
            pose == (if self@.window.len() == 0 {
                None
            } else {
                Some(self@.window[self@.window.len() - 1].pose)
            }),
    {
        if self.window.len() == 0 {
            return None;
        }
        let last: &WindowKeyframe<V, P> = &self.window[self.window.len() - 1];
        Some(last.pose)
    }

    /// The window as a problem for local bundle adjustment, if it is worth it.
    pub fn window_problem(&self) -> (problem: Option<WindowProblem<V, X, P>>)
        requires
            self.wf(),
        ensures
            problem is Some <==> is_adjustable(self@, self.settings()),
            problem matches Some(w) ==> w.is_of(self@, self.settings()),
    {
        let n: usize = self.window.len();
        if n <= 1 || n <= self.config.local_ba_fixed {
            return None;
        }
        let ghost map = self.map@;
        let ghost window = look_through(self.window@);
        let mut index: HashMap<u64, usize> = HashMap::new();
        let mut ids: Vec<u64> = Vec::new();
        let mut points: Vec<X> = Vec::new();
        let mut poses: Vec<P> = Vec::new();
        let mut observations: Vec<Observation<V>> = Vec::new();
        let mut k: usize = 0;
        while k < n
            invariant
                k <= n,
                n == self.window@.len(),
                self.map.wf(),
                map == self.map@,
                window == look_through(self.window@),
                ids@ == graph_of(map, window, k as nat).ids,
                observations@ == graph_of(map, window, k as nat).observations,
                poses@.len() == k,
                forall|i: int| 0 <= i < k ==> #[trigger] poses@[i] == window[i].pose,
                ids@.no_duplicates(),
                points@.len() == ids@.len(),
                forall|j: int|
                    0 <= j < ids@.len() ==> #[trigger] points@[j] == map[place_of(
                        map,
                        ids@[j],
                    )].landmark.position,
                forall|id: u64| #[trigger]
                    index@.contains_key(id) ==> index@[id] < ids@.len() && ids@[index@[id] as int]
                        == id,
                forall|j: int| 0 <= j < ids@.len() ==> index@.contains_key(#[trigger] ids@[j]),
            decreases n - k,
        {
            let kf: &WindowKeyframe<V, P> = &self.window[k];
            poses.push(kf.pose);
            let ghost base = graph_of(map, window, k as nat);
            let ghost sightings = window[k as int].observations;
            assert(sightings == kf.observations@);
            let mut m: usize = 0;
            while m < kf.observations.len()
                invariant
                    m <= kf.observations@.len(),
                    k < n,
                    self.map.wf(),
                    map == self.map@,
                    sightings == kf.observations@,
                    ids@ == with_keyframe(base, map, k as nat, sightings, m as nat).ids,
                    observations@ == with_keyframe(
                        base,
                        map,
                        k as nat,
                        sightings,
                        m as nat,
                    ).observations,
                    ids@.no_duplicates(),
                    points@.len() == ids@.len(),
                    forall|j: int|
                        0 <= j < ids@.len() ==> #[trigger] points@[j] == map[place_of(
                            map,
                            ids@[j],
                        )].landmark.position,
                    forall|id: u64| #[trigger]
                        index@.contains_key(id) ==> index@[id] < ids@.len()
                            && ids@[index@[id] as int] == id,
                    forall|j: int|
                        0 <= j < ids@.len() ==> index@.contains_key(#[trigger] ids@[j]),
                decreases kf.observations@.len() - m,
            {
                let (id, px): (u64, V) = kf.observations[m];
                let ghost ids_before = ids@;
                if let Some(landmark) = self.map.get(id) {
                    let known: Option<usize> = match index.get(&id) {
                        Some(s) => Some(*s),
                        None => None,
                    };
                    let slot: usize = match known {
                        Some(s) => {
                            proof {
                                lemma_slot(ids@, id, s as int);
                            }
                            s
                        },
                        None => {
                            let s: usize = ids.len();
                            assert(!ids_before.contains(id)) by {
                                if ids_before.contains(id) {
                                    let j = choose|j: int|
                                        0 <= j < ids_before.len() && ids_before[j] == id;
                                    assert(index@.contains_key(ids@[j]));
                                }
                            }
                            index.insert(id, s);
                            ids.push(id);
                            points.push(landmark.position);
                            proof {
                                lemma_slot(ids@, id, s as int);
                            }
                            s
                        },
                    };
                    observations.push(Observation { keyframe: k, point: slot, px });
                }
                m = m + 1;
            }
            k = k + 1;
        }
        if ids.len() < MIN_WINDOW_POINTS || observations.len() < MIN_WINDOW_OBSERVATIONS {
            return None;
        }
        let fixed: usize = if self.config.local_ba_fixed < 1 {
            1
        } else {
            self.config.local_ba_fixed
        };
        let context: usize = if self.config.local_ba_context < n - 1 {
            self.config.local_ba_context
        } else {
            n - 1
        };
        let wanted: usize = if context < fixed {
            fixed
        } else {
            context
        };
        let fixed_poses: usize = if wanted < n - 1 {
            wanted
        } else {
            n - 1
        };
        Some(
            WindowProblem {
                problem: LocalBaProblem { poses, fixed_poses, points, observations },
                ids,
            },
        )
    }

    /// Write an adjusted window back, if the adjustment improved it. `points`
    /// gives the new position of each landmark of `ids`, where there is a usable
    /// one, and `live` is the live pose with the newest keyframe's correction.
    pub fn adopt_window(
        &mut self,
        improved: bool,
        ids: &Vec<u64>,
        points: &Vec<Option<X>>,
        poses: &Vec<P>,
        live: P,
    )
        requires
            old(self).wf(),
            ids@.len() == points@.len(),
            poses@.len() == old(self)@.window.len(),
            old(self)@.window.len() > 0,
        ensures
            final(self).wf(),
            final(self).settings() == old(self).settings(),
            final(self).front_end() == old(self).front_end(),
            final(self)@ == (if improved {
                adjusted(old(self)@, ids@, points@, poses@, live)
            } else {
                old(self)@
            }),
    {
        if !improved {
            return;
        }
        let ghost map = self.map@;
        let mut i: usize = 0;
        while i < ids.len()
            invariant
                i <= ids@.len(),
                ids@.len() == points@.len(),
                map == old(self)@.map,
                self.map.wf(),
                self.map@ == relocated(map, ids@, points@, i as nat),
                same_ids(map, self.map@),
                self@ == (Snapshot { map: self.map@, ..old(self)@ }),
                self.config == old(self).config,
                self.backend == old(self).backend,
            decreases ids@.len() - i,
        {
            let ghost before = self.map@;
            if let Some(x) = points[i] {
                self.map.set_position(ids[i], x);
                proof {
                    lemma_position_keeps_ids(before, ids@[i as int], x);
                }
            }
            i = i + 1;
        }
        self.repose_window(poses);
        let last: P = poses[poses.len() - 1];
        if self.pose.is_some() {
            self.pose = Some(live);
        }
        let keyframe: Option<KeyframeState<V, P>> = self.keyframe.take();
        self.keyframe = match keyframe {
            Some(kf) => Some(KeyframeState { pose: last, observations: kf.observations }),
            None => None,
        };
        proof {
            self.map.lemma_ids_are_distinct();
            assert forall|a: int| 0 <= a < self.map@.len() implies (
            #[trigger] self.map@[a]).landmark.id < self.next_landmark_id by {
                assert(map[a].landmark.id < self.next_landmark_id);
            }
            assert(self@ =~= adjusted(old(self)@, ids@, points@, poses@, live));
        }
    }
}

// ---------------------------------------------------------------------------
// Bootstrap
// ---------------------------------------------------------------------------

/// A feature seen in the reference view and now.
#[derive(Debug, Clone, Copy)]
pub struct BootstrapMatch<V> {
    pub first: V,
    pub second: V,
}

/// Which of the first `n` features are in the current frame and were seen in the
/// reference view, by position.
pub open spec fn matched<V>(features: Seq<Feature<V>>, seen: Map<u64, V>, n: nat) -> Seq<nat>
    decreases n,
{
    if n == 0 {
        seq![]
    } else {
        let before = matched(features, seen, (n - 1) as nat);
        if is_live(features[n - 1]) && seen.contains_key(features[n - 1].id) {
            before.push((n - 1) as nat)
        } else {
            before
        }
    }
}

pub(crate) proof fn lemma_matched<V>(features: Seq<Feature<V>>, seen: Map<u64, V>, n: nat, k: int)
    requires
        0 <= k < matched(features, seen, n).len(),
    ensures
        matched(features, seen, n)[k] < n,
        is_live(features[matched(features, seen, n)[k] as int]),
        seen.contains_key(features[matched(features, seen, n)[k] as int].id),
    decreases n,
{
    if k < matched(features, seen, (n - 1) as nat).len() {
        lemma_matched(features, seen, (n - 1) as nat, k);
    }
}

/// A landmark that the bootstrap gave: which match it belongs to, and where it
/// is.
#[derive(Debug, Clone, Copy)]
pub struct Seed<X> {
    pub match_index: usize,
    pub position: X,
}

/// What has been sown so far.
#[verifier::ext_equal]
pub struct Sowing<V, X> {
    pub features: Seq<Feature<V>>,
    pub map: Seq<Entry<X>>,
    pub next: nat,
    pub seen: Map<u64, V>,
    pub count: nat,
}

/// One more landmark sown: it gets a new id, and so does the feature it belongs
/// to. One that belongs to no match is passed over.
pub open spec fn sow<V, X>(
    s: Sowing<V, X>,
    matches: Seq<nat>,
    frame: u64,
    seed: Seed<X>,
) -> Sowing<V, X> {
    if seed.match_index >= matches.len() {
        s
    } else {
        let at = matches[seed.match_index as int] as int;
        let f = s.features[at];
        Sowing {
            features: s.features.update(
                at,
                Feature {
                    landmark: Some(s.next as u64),
                    state: FeatureState::Followed,
                    ..f
                },
            ),
            map: with_landmark(
                s.map,
                LocalLandmark { id: s.next as u64, position: seed.position, observations: 2 },
                frame,
            ),
            next: s.next + 1,
            seen: s.seen.insert(f.id, f.px_undist),
            count: s.count + 1,
        }
    }
}

/// The first `n` landmarks sown.
pub open spec fn sown<V, X>(
    s: Sowing<V, X>,
    matches: Seq<nat>,
    frame: u64,
    seeds: Seq<Seed<X>>,
    n: nat,
) -> Sowing<V, X>
    decreases n,
{
    if n == 0 {
        s
    } else {
        sow(sown(s, matches, frame, seeds, (n - 1) as nat), matches, frame, seeds[n - 1])
    }
}

/// All the landmarks of a bootstrap sown.
pub open spec fn harvest<V, X, P, C>(s: Snapshot<V, X, P, C>, seeds: Seq<Seed<X>>) -> Sowing<V, X> {
    sown(
        Sowing {
            features: s.features,
            map: s.map,
            next: s.next_landmark_id as nat,
            seen: Map::empty(),
            count: 0,
        },
        matched(s.features, s.bootstrap->0.observations, s.features.len()),
        s.frame_index,
        seeds,
        seeds.len(),
    )
}

/// The state after a bootstrap. With too few landmarks nothing is kept of it; with
/// enough, the current frame becomes the first keyframe of a new map.
pub open spec fn after_bootstrap<V, X, P, C>(
    s: Snapshot<V, X, P, C>,
    pose: P,
    covariance: Option<C>,
    seeds: Seq<Seed<X>>,
) -> Snapshot<V, X, P, C> {
    let h = harvest(s, seeds);
    if h.count < MIN_PNP_CORRESPONDENCES {
        Snapshot {
            features: without_landmarks(h.features),
            map: seq![],
            next_landmark_id: h.next as u64,
            ..s
        }
    } else {
        Snapshot {
            features: h.features,
            map: h.map,
            next_landmark_id: h.next as u64,
            pose: Some(pose),
            covariance: Covariance::of(covariance),
            keyframe: Some(ReferenceView { pose, observations: h.seen }),
            bootstrap: None,
            window: seq![],
            reference_landmarks: 0,
            frames_since_keyframe: 0,
            solve_failures: 0,
            ..s
        }
    }
}

impl<V: Copy, X: Copy, P: Copy, C: Copy> Tracker<V, X, P, C> {
    /// The pose of the reference view.
    pub fn reference_pose(&self) -> (pose: Option<P>)
        ensures
            pose == (match self@.bootstrap {
                Some(r) => Some(r.pose),
                None => None,
            }),
    {
        match &self.bootstrap {
            Some(r) => Some(r.pose),
            None => None,
        }
    }

    fn matched_positions(&self) -> (at: Vec<usize>)
        ensures
            self@.bootstrap is None ==> at@.len() == 0,
            self@.bootstrap matches Some(r) ==> at@.len() == matched(
                self@.features,
                r.observations,
                self@.features.len(),
            ).len() && forall|k: int|
                0 <= k < at@.len() ==> #[trigger] at@[k] == matched(
                    self@.features,
                    r.observations,
                    self@.features.len(),
                )[k],
    {
        let mut at: Vec<usize> = Vec::new();
        if let Some(r) = &self.bootstrap {
            let mut i: usize = 0;
            while i < self.features.len()
                invariant
                    i <= self.features@.len(),
                    at@.len() == matched(self.features@, r.observations@, i as nat).len(),
                    forall|k: int|
                        0 <= k < at@.len() ==> #[trigger] at@[k] == matched(
                            self.features@,
                            r.observations@,
                            i as nat,
                        )[k],
                decreases self.features@.len() - i,
            {
                if self.features[i].state != FeatureState::Lost && r.observations.contains_key(
                    &self.features[i].id,
                ) {
                    at.push(i);
                }
                i = i + 1;
            }
        }
        at
    }

    /// What the two-view bootstrap is offered: where each feature that the
    /// reference view has seen was then and is now. `None` without a reference
    /// view, or with too few of them.
    pub fn bootstrap_matches(&self, min_inliers: usize) -> (matches: Option<
        Vec<BootstrapMatch<V>>,
    >)
        ensures
            ({
                let at = matched(
                    self@.features,
                    self@.bootstrap->0.observations,
                    self@.features.len(),
                );
                &&& matches is Some <==> self@.bootstrap is Some && at.len()
                    >= MIN_BOOTSTRAP_MATCHES && at.len() >= min_inliers
                &&& matches matches Some(m) ==> m@.len() == at.len() && forall|k: int|
                    0 <= k < m@.len() ==> #[trigger] m@[k] == (BootstrapMatch {
                        first: self@.bootstrap->0.observations[self@.features[at[k] as int].id],
                        second: self@.features[at[k] as int].px_undist,
                    })
            }),
    {
        let at: Vec<usize> = self.matched_positions();
        match &self.bootstrap {
            None => None,
            Some(r) => {
                if at.len() < MIN_BOOTSTRAP_MATCHES || at.len() < min_inliers {
                    return None;
                }
                let ghost places = matched(self.features@, r.observations@, self.features@.len());
                let mut out: Vec<BootstrapMatch<V>> = Vec::new();
                let mut k: usize = 0;
                while k < at.len()
                    invariant
                        k <= at@.len(),
                        out@.len() == k,
                        places == matched(
                            self.features@,
                            r.observations@,
                            self.features@.len(),
                        ),
                        at@.len() == places.len(),
                        forall|j: int| 0 <= j < at@.len() ==> #[trigger] at@[j] == places[j],
                        forall|j: int|
                            0 <= j < k ==> #[trigger] out@[j] == (BootstrapMatch {
                                first: r.observations@[self.features@[places[j] as int].id],
                                second: self.features@[places[j] as int].px_undist,
                            }),
                    decreases at@.len() - k,
                {
                    proof {
                        lemma_matched(
                            self.features@,
                            r.observations@,
                            self.features@.len(),
                            k as int,
                        );
                    }
                    let i: usize = at[k];
                    if let Some(first) = r.observations.get(&self.features[i].id) {
                        out.push(
                            BootstrapMatch { first: *first, second: self.features[i].px_undist },
                        );
                    }
                    k = k + 1;
                }
                Some(out)
            },
        }
    }

    /// Build the first map from what the two-view bootstrap gave: the pose of the
    /// current frame, its covariance, and the landmarks. Gives whether there were
    /// enough of them.
    pub fn adopt_bootstrap(&mut self, pose: P, covariance: Option<C>, seeds: &Vec<Seed<X>>) -> (
    succeeded: bool)
        requires
            old(self).wf(),
            old(self)@.bootstrap is Some,
            old(self)@.next_landmark_id + seeds@.len() <= u64::MAX,
        ensures
            final(self).wf(),
            final(self).settings() == old(self).settings(),
            final(self).front_end() == old(self).front_end(),
            final(self)@ == after_bootstrap(old(self)@, pose, covariance, seeds@),
            succeeded == (harvest(old(self)@, seeds@).count >= MIN_PNP_CORRESPONDENCES),
    {
        let at: Vec<usize> = self.matched_positions();
        let ghost matches = matched(
            self@.features,
            self@.bootstrap->0.observations,
            self@.features.len(),
        );
        let ghost start = Sowing {
            features: self.features@,
            map: self.map@,
            next: self.next_landmark_id as nat,
            seen: Map::empty(),
            count: 0,
        };
        let ghost features = self.features@;
        let mut seen: HashMap<u64, V> = HashMap::new();
        let mut count: usize = 0;
        let mut i: usize = 0;
        while i < seeds.len()
            invariant
                i <= seeds@.len(),
                features == old(self)@.features,
                matches == matched(
                    old(self)@.features,
                    old(self)@.bootstrap->0.observations,
                    old(self)@.features.len(),
                ),
                at@.len() == matches.len(),
                forall|k: int| 0 <= k < at@.len() ==> #[trigger] at@[k] == matches[k],
                old(self)@.next_landmark_id + seeds@.len() <= u64::MAX,
                old(self)@.next_landmark_id <= self.next_landmark_id <= old(
                    self,
                )@.next_landmark_id + i,
                count <= i,
                self.map.wf(),
                landmarks_are_given(self.map@, self.next_landmark_id),
                self.features@.len() == features.len(),
                forall|k: int|
                    0 <= k < features.len() ==> (#[trigger] self.features@[k]).id == features[k].id
                        && (self.features@[k].landmark matches Some(l) ==> l
                        < self.next_landmark_id),
                sown(start, matches, self.frame_index, seeds@, i as nat) == (Sowing {
                    features: self.features@,
                    map: self.map@,
                    next: self.next_landmark_id as nat,
                    seen: seen@,
                    count: count as nat,
                }),
                self@ == (Snapshot {
                    features: self.features@,
                    map: self.map@,
                    next_landmark_id: self.next_landmark_id,
                    ..old(self)@
                }),
                self.config == old(self).config,
                self.backend == old(self).backend,
            decreases seeds@.len() - i,
        {
            let seed: Seed<X> = seeds[i];
            if seed.match_index < at.len() {
                let ghost before = self.map@;
                let ghost given = self.next_landmark_id;
                proof {
                    lemma_matched(
                        old(self)@.features,
                        old(self)@.bootstrap->0.observations,
                        old(self)@.features.len(),
                        seed.match_index as int,
                    );
                }
                let k: usize = at[seed.match_index];
                let id: u64 = self.next_landmark_id;
                self.next_landmark_id = self.next_landmark_id + 1;
                let landmark = LocalLandmark { id, position: seed.position, observations: 2 };
                self.map.insert(landmark, self.frame_index);
                proof {
                    lemma_growth_is_given(before, landmark, self.frame_index, given);
                }
                let f: Feature<V> = self.features[k];
                self.features.set(
                    k,
                    Feature {
                        id: f.id,
                        px: f.px,
                        px_undist: f.px_undist,
                        state: FeatureState::Followed,
                        landmark: Some(id),
                        age: f.age,
                    },
                );
                seen.insert(f.id, f.px_undist);
                count = count + 1;
            }
            i = i + 1;
        }
        proof {
            self.map.lemma_ids_are_distinct();
            assert forall|a: int, b: int|
                #![trigger self.features@[a], self.features@[b]]
                0 <= a < b < self.features@.len() implies self.features@[a].id
                < self.features@[b].id by {
                assert(features[a].id < features[b].id);
            }
            assert forall|a: int| 0 <= a < self.features@.len() implies (
            #[trigger] self.features@[a]).id < self.next_feature_id by {
                assert(features[a].id < self.next_feature_id);
            }
        }
        if count < MIN_PNP_CORRESPONDENCES {
            self.map.clear();
            self.drop_landmarks();
            assert(self@ =~= after_bootstrap(old(self)@, pose, covariance, seeds@));
            return false;
        }
        self.pose = Some(pose);
        self.covariance = covariance_of(covariance);
        self.keyframe = Some(KeyframeState { pose, observations: seen });
        self.bootstrap = None;
        self.window = VecDeque::new();
        self.reference_landmarks = 0;
        self.frames_since_keyframe = 0;
        self.solve_failures = 0;
        assert(self@ =~= after_bootstrap(old(self)@, pose, covariance, seeds@));
        true
    }
}

// ---------------------------------------------------------------------------
// Refill and the reference view
// ---------------------------------------------------------------------------

/// Whether the feature set is topped up: it has drained below the floor, or the
/// frame is one that wants a full set and the set is not full.
pub open spec fn refill_is_due<V, X, P, C>(
    s: Snapshot<V, X, P, C>,
    config: TrackConfig,
    floor: nat,
    is_keyframe: bool,
) -> bool {
    let live = live_count(s.features, s.features.len());
    live < floor || ((is_keyframe || s.map.len() == 0) && live < config.max_features)
}

/// A feature just detected.
pub open spec fn detected<V>(corner: Moved<V>, id: u64) -> Feature<V> {
    Feature {
        id,
        px: corner.px,
        px_undist: corner.px_undist,
        state: FeatureState::New,
        landmark: None,
        age: 0,
    }
}

/// The features with the newly detected ones behind them.
pub open spec fn topped_up<V>(features: Seq<Feature<V>>, corners: Seq<Moved<V>>, next: u64) -> Seq<
    Feature<V>,
> {
    features + Seq::new(corners.len(), |i: int| detected(corners[i], (next + i) as u64))
}

/// A view that also knows where the features are that it lacked.
pub open spec fn completed<V, P>(
    view: Option<ReferenceView<V, P>>,
    features: Seq<Feature<V>>,
) -> Option<ReferenceView<V, P>> {
    match view {
        Some(v) => Some(
            ReferenceView {
                pose: v.pose,
                observations: seen_also(v.observations, features, features.len()),
            },
        ),
        None => None,
    }
}

/// The state once new corners have been taken in. Without room for any, nothing
/// happens. Lost features make room where the budget asks for it.
pub open spec fn refilled<V, X, P, C>(
    s: Snapshot<V, X, P, C>,
    config: TrackConfig,
    corners: Seq<Moved<V>>,
) -> Snapshot<V, X, P, C> {
    let n = s.features.len();
    let live = live_count(s.features, n);
    if live >= config.max_features {
        s
    } else {
        let spare = (config.max_features - live - corners.len()) as nat;
        let features = topped_up(retained(s.features, spare, n), corners, s.next_feature_id);
        Snapshot {
            features,
            next_feature_id: (s.next_feature_id + corners.len()) as u64,
            bootstrap: completed(s.bootstrap, features),
            ..s
        }
    }
}

/// Whether the reference view can no longer lead to a map: it holds too little,
/// or it is too old.
pub open spec fn reference_is_stale<V, X, P, C>(s: Snapshot<V, X, P, C>) -> bool {
    s.bootstrap matches Some(r) && (r.observations.len() < MIN_BOOTSTRAP_MATCHES
        || s.frames_since_keyframe > BOOTSTRAP_REFERENCE_TTL_FRAMES)
}

/// The state with a usable reference view, where one is needed: without a map, a
/// stale reference is dropped, and the current frame becomes the reference where
/// there is none. The pose, if there is one, anchors it.
pub open spec fn rearmed<V, X, P, C>(s: Snapshot<V, X, P, C>, origin: P) -> Snapshot<V, X, P, C> {
    if s.map.len() > 0 {
        s
    } else {
        let stale = reference_is_stale(s);
        Snapshot {
            frames_since_keyframe: if stale {
                0
            } else {
                s.frames_since_keyframe
            },
            bootstrap: if s.bootstrap is None || stale {
                Some(
                    ReferenceView {
                        pose: match s.pose {
                            Some(p) => p,
                            None => origin,
                        },
                        observations: seen_at(s.features, s.features.len()),
                    },
                )
            } else {
                s.bootstrap
            },
            ..s
        }
    }
}

impl<V: Copy, X: Copy, P: Copy, C: Copy> Tracker<V, X, P, C> {
    /// Whether the feature set is to be topped up. `floor` is how far it may drain
    /// first.
    pub fn wants_refill(&self, floor: usize, is_keyframe: bool) -> (wants: bool)
        ensures
            wants == refill_is_due(self@, self.settings(), floor as nat, is_keyframe),
    {
        let live: usize = self.live_features();
        live < floor || ((is_keyframe || self.map.is_empty()) && live < self.config.max_features)
    }

    /// How many corners there is room for.
    pub fn refill_budget(&self) -> (budget: usize)
        ensures
            budget == (if live_count(self@.features, self@.features.len())
                < self.settings().max_features {
                self.settings().max_features - live_count(self@.features, self@.features.len())
            } else {
                0
            }),
    {
        let live: usize = self.live_features();
        if live < self.config.max_features {
            self.config.max_features - live
        } else {
            0
        }
    }

    /// Take newly detected corners in, and let the reference view of the
    /// bootstrap know of them.
    pub fn add_features(&mut self, corners: &Vec<Moved<V>>)
        requires
            old(self).wf(),
            live_count(old(self)@.features, old(self)@.features.len()) + corners@.len() <= old(
                self,
            ).settings().max_features,
            old(self)@.next_feature_id + corners@.len() <= u64::MAX,
        ensures
            final(self).wf(),
            final(self).settings() == old(self).settings(),
            final(self).front_end() == old(self).front_end(),
            final(self)@ == refilled(old(self)@, old(self).settings(), corners@),
    {
        let live: usize = self.live_features();
        if live >= self.config.max_features {
            return;
        }
        let spare: usize = self.config.max_features - live - corners.len();
        proof {
            lemma_retained(
                self.features@,
                spare as nat,
                self.features@.len(),
                self.next_feature_id,
                self.next_landmark_id,
            );
        }
        self.features = retain(&self.features, spare);
        let ghost features = self.features@;
        let ghost next = self.next_feature_id;
        let mut i: usize = 0;
        while i < corners.len()
            invariant
                i <= corners@.len(),
                next + corners@.len() <= u64::MAX,
                next == old(self)@.next_feature_id,
                self.next_feature_id == next + i,
                self.features@ =~= topped_up(features, corners@, next).subrange(
                    0,
                    features.len() + i,
                ),
                ids_increase(self.features@),
                ids_are_given(self.features@, self.next_feature_id, self.next_landmark_id),
                self@ == (Snapshot {
                    features: self.features@,
                    next_feature_id: self.next_feature_id,
                    ..old(self)@
                }),
                self.config == old(self).config,
                self.backend == old(self).backend,
                self.map == old(self).map,
            decreases corners@.len() - i,
        {
            let id: u64 = self.next_feature_id;
            self.next_feature_id = self.next_feature_id + 1;
            self.features.push(
                Feature {
                    id,
                    px: corners[i].px,
                    px_undist: corners[i].px_undist,
                    state: FeatureState::New,
                    landmark: None,
                    age: 0,
                },
            );
            i = i + 1;
        }
        assert(self.features@ =~= topped_up(features, corners@, next));
        let reference: Option<KeyframeState<V, P>> = self.bootstrap.take();
        self.bootstrap = match reference {
            Some(mut r) => {
                observe_also(&mut r.observations, &self.features);
                Some(r)
            },
            None => None,
        };
        assert(self@ =~= refilled(old(self)@, old(self).settings(), corners@));
    }

    /// Let a keyframe that was just made know of the features that were added
    /// since.
    pub fn complete_keyframe(&mut self)
        requires
            old(self).wf(),
        ensures
            final(self).wf(),
            final(self).settings() == old(self).settings(),
            final(self).front_end() == old(self).front_end(),
            final(self)@ == (Snapshot {
                keyframe: completed(old(self)@.keyframe, old(self)@.features),
                ..old(self)@
            }),
    {
        let keyframe: Option<KeyframeState<V, P>> = self.keyframe.take();
        self.keyframe = match keyframe {
            Some(mut k) => {
                observe_also(&mut k.observations, &self.features);
                Some(k)
            },
            None => None,
        };
    }

    /// See to it that there is a usable reference view where one is needed.
    /// `origin` is the pose of a fresh session.
    pub fn rearm_reference(&mut self, origin: P)
        requires
            old(self).wf(),
        ensures
            final(self).wf(),
            final(self).settings() == old(self).settings(),
            final(self).front_end() == old(self).front_end(),
            final(self)@ == rearmed(old(self)@, origin),
    {
        if !self.map.is_empty() {
            return;
        }
        let stale: bool = match &self.bootstrap {
            Some(r) => r.observations.len() < MIN_BOOTSTRAP_MATCHES || self.frames_since_keyframe
                > BOOTSTRAP_REFERENCE_TTL_FRAMES,
            None => false,
        };
        if stale {
            self.bootstrap = None;
            self.frames_since_keyframe = 0;
        }
        if self.bootstrap.is_none() {
            let pose: P = match self.pose {
                Some(p) => p,
                None => origin,
            };
            self.bootstrap = Some(
                KeyframeState { pose, observations: observe_all(&self.features) },
            );
        }
        assert(self@ =~= rearmed(old(self)@, origin));
    }
}

// ---------------------------------------------------------------------------
// The state machine
// ---------------------------------------------------------------------------

/// Whether a frame is blamed on motion: the flow is wider than the pyramid can
/// span, or, after a healthy frame, most features are gone from a frame that is
/// as full of corners as before.
pub open spec fn is_excessive_motion<V, X, P, C>(
    s: Snapshot<V, X, P, C>,
    config: TrackConfig,
    flow: FlowSummary,
    flow_is_wide: bool,
) -> bool {
    flow.attempted > 0 && (flow_is_wide || (s.healthy_last_frame && flow.attempted
        >= config.min_features && 2 * live_count(s.features, s.features.len()) >= flow.attempted
        && 10 * flow.survived < 3
        * flow.attempted))
}

/// How well tracking goes. Causes come in the order in which they explain each
/// other: a lost track outranks the sensor, the sensor the motion, and the motion
/// the scene.
pub open spec fn verdict<V, X, P, C>(
    s: Snapshot<V, X, P, C>,
    config: TrackConfig,
    low_light: bool,
    flow: FlowSummary,
    flow_is_wide: bool,
    solve: SolveSummary,
) -> TrackingState {
    if s.pose is None || s.map.len() == 0 {
        if s.solve_failures >= LOST_AFTER_FAILURES && s.state.gives_pose() {
            TrackingState::Lost
        } else {
            TrackingState::Initializing
        }
    } else if s.solve_failures >= LOST_AFTER_FAILURES {
        TrackingState::Lost
    } else if low_light {
        TrackingState::Limited(LimitedReason::LowLight)
    } else if is_excessive_motion(s, config, flow, flow_is_wide) {
        TrackingState::Limited(LimitedReason::ExcessiveMotion)
    } else if !solve.solved || solve.inliers < MIN_PNP_CORRESPONDENCES || live_count(
        s.features,
        s.features.len(),
    ) < config.min_features {
        TrackingState::Limited(LimitedReason::InsufficientFeatures)
    } else {
        TrackingState::Tracking
    }
}

/// How many landmarks the map may hold: four for each feature.
pub open spec fn map_capacity(config: TrackConfig) -> usize {
    if config.max_features > usize::MAX / 4 {
        usize::MAX
    } else {
        (config.max_features * 4) as usize
    }
}

/// The state at the end of a frame. One that got no pose, and for which no failure
/// has been counted since there were `failures_before`, waits for its first map.
pub open spec fn ended<V, X, P, C>(
    s: Snapshot<V, X, P, C>,
    config: TrackConfig,
    failures_before: nat,
    solved: bool,
    state: TrackingState,
) -> Snapshot<V, X, P, C> {
    Snapshot {
        state,
        healthy_last_frame: state is Tracking,
        map: culled(s.map, s.frame_index, LANDMARK_TTL_FRAMES, map_capacity(config)),
        failures: if !solved && s.failures.sum() == failures_before {
            FailureCounts {
                awaiting_bootstrap: (s.failures.awaiting_bootstrap + 1) as usize,
                ..s.failures
            }
        } else {
            s.failures
        },
        ..s
    }
}

impl<V: Copy, X: Copy, P: Copy, C: Copy> Tracker<V, X, P, C> {
    fn moves_excessively(&self, flow: &FlowSummary, flow_is_wide: bool) -> (excessive: bool)
        ensures
            excessive == is_excessive_motion(self@, self.config, *flow, flow_is_wide),
    {
        if flow.attempted == 0 {
            return false;
        }
        if flow_is_wide {
            return true;
        }
        let attempted: u128 = flow.attempted as u128;
        let textured: bool = 2 * (self.live_features() as u128) >= attempted;
        let collapsed: bool = 10 * (flow.survived as u128) < 3 * attempted;
        self.healthy_last_frame && flow.attempted >= self.config.min_features && textured
            && collapsed
    }

    /// How well tracking goes.
    pub fn classify(
        &self,
        low_light: bool,
        flow: &FlowSummary,
        flow_is_wide: bool,
        solve: &SolveSummary,
    ) -> (state: TrackingState)
        ensures
            state == verdict(self@, self.settings(), low_light, *flow, flow_is_wide, *solve),
    {
        if self.pose.is_none() || self.map.is_empty() {
            return if self.solve_failures >= LOST_AFTER_FAILURES && self.state.has_pose() {
                TrackingState::Lost
            } else {
                TrackingState::Initializing
            };
        }
        if self.solve_failures >= LOST_AFTER_FAILURES {
            return TrackingState::Lost;
        }
        if low_light {
            return TrackingState::Limited(LimitedReason::LowLight);
        }
        if self.moves_excessively(flow, flow_is_wide) {
            return TrackingState::Limited(LimitedReason::ExcessiveMotion);
        }
        if !solve.solved || solve.inliers < MIN_PNP_CORRESPONDENCES || self.live_features()
            < self.config.min_features {
            return TrackingState::Limited(LimitedReason::InsufficientFeatures);
        }
        TrackingState::Tracking
    }

    /// End a frame: say how well it went, let go of landmarks that have not been
    /// seen for long, and count the frame as waiting for a map if it got no pose
    /// and no other failure explains it.
    pub fn end_frame(
        &mut self,
        failures_before: usize,
        low_light: bool,
        flow: &FlowSummary,
        flow_is_wide: bool,
        solve: &SolveSummary,
    ) -> (state: TrackingState)
        requires
            old(self).wf(),
            failures_before < old(self)@.frame_index,
            old(self)@.frame_index <= usize::MAX,
        ensures
            final(self).wf(),
            final(self).settings() == old(self).settings(),
            final(self).front_end() == old(self).front_end(),
            state == verdict(
                old(self)@,
                old(self).settings(),
                low_light,
                *flow,
                flow_is_wide,
                *solve,
            ),
            final(self)@ == ended(
                old(self)@,
                old(self).settings(),
                failures_before as nat,
                solve.solved,
                state,
            ),
    {
        let state: TrackingState = self.classify(low_light, flow, flow_is_wide, solve);
        self.state = state;
        self.healthy_last_frame = match state {
            TrackingState::Tracking => true,
            _ => false,
        };
        let capacity: usize = if self.config.max_features > usize::MAX / 4 {
            usize::MAX
        } else {
            self.config.max_features * 4
        };
        let ghost map = self.map@;
        self.map.cull(self.frame_index, LANDMARK_TTL_FRAMES, capacity);
        proof {
            self.map.lemma_ids_are_distinct();
            lemma_culled_is_given(
                map,
                self.frame_index,
                LANDMARK_TTL_FRAMES,
                capacity,
                map.len(),
                self.next_landmark_id,
            );
        }
        let total: usize = self.failures.total();
        if !solve.solved && total == failures_before {
            self.failures.awaiting_bootstrap = self.failures.awaiting_bootstrap + 1;
        }
        state
    }
}

proof fn lemma_culled_is_given<X>(
    map: Seq<Entry<X>>,
    frame: u64,
    ttl: u64,
    capacity: usize,
    n: nat,
    next: u64,
)
    requires
        landmarks_are_given(map, next),
        n <= map.len(),
    ensures
        landmarks_are_given(
            crate::track::local_map::survivors(map, frame, ttl, capacity, n),
            next,
        ),
    decreases n,
{
    if n > 0 {
        lemma_culled_is_given(map, frame, ttl, capacity, (n - 1) as nat, next);
    }
}

// ---------------------------------------------------------------------------
// Change of frame
// ---------------------------------------------------------------------------

/// Everything of the tracker that has a place in the world, in another frame.
#[derive(Debug)]
pub struct Transformed<X, P, C> {
    pub pose: Option<P>,
    /// One position for each landmark, in order.
    pub positions: Vec<X>,
    /// One pose for each keyframe of the window, oldest first.
    pub window: Vec<P>,
    pub keyframe: Option<P>,
    pub bootstrap: Option<P>,
    pub covariance: Covariance<C>,
}

impl<X, P, C> Transformed<X, P, C> {
    /// Whether nothing of a state is left out.
    pub open spec fn covers<V>(self, s: Snapshot<V, X, P, C>) -> bool {
        &&& self.pose is Some <==> s.pose is Some
        &&& self.positions@.len() == s.map.len()
        &&& self.window@.len() == s.window.len()
        &&& self.keyframe is Some <==> s.keyframe is Some
        &&& self.bootstrap is Some <==> s.bootstrap is Some
    }
}

/// The map with every landmark at another place.
pub open spec fn repositioned<X>(map: Seq<Entry<X>>, positions: Seq<X>) -> Seq<Entry<X>> {
    Seq::new(
        map.len(),
        |i: int|
            Entry {
                landmark: LocalLandmark { position: positions[i], ..map[i].landmark },
                last_seen: map[i].last_seen,
            },
    )
}

/// The state in another frame: what has a place is moved, all else stays.
pub open spec fn transformed<V, X, P, C>(
    s: Snapshot<V, X, P, C>,
    t: Transformed<X, P, C>,
) -> Snapshot<V, X, P, C> {
    Snapshot {
        pose: t.pose,
        map: repositioned(s.map, t.positions@),
        window: reposed(s.window, t.window@),
        keyframe: match t.keyframe {
            Some(p) => with_pose(s.keyframe, p),
            None => s.keyframe,
        },
        bootstrap: match t.bootstrap {
            Some(p) => with_pose(s.bootstrap, p),
            None => s.bootstrap,
        },
        covariance: t.covariance,
        ..s
    }
}

impl<V: Copy, X: Copy, P: Copy, C: Copy> Tracker<V, X, P, C> {
    /// The poses of the window, oldest first.
    pub fn window_poses(&self) -> (poses: Vec<P>)
        ensures
            poses@.len() == self@.window.len(),
            forall|i: int| 0 <= i < poses@.len() ==> #[trigger] poses@[i] == self@.window[i].pose,
    {
        let mut poses: Vec<P> = Vec::new();
        let mut i: usize = 0;
        while i < self.window.len()
            invariant
                i <= self.window@.len(),
                poses@.len() == i,
                forall|k: int| 0 <= k < i ==> #[trigger] poses@[k] == self@.window[k].pose,
            decreases self.window@.len() - i,
        {
            let kf: &WindowKeyframe<V, P> = &self.window[i];
            poses.push(kf.pose);
            i = i + 1;
        }
        poses
    }

    fn repose_window(&mut self, poses: &Vec<P>)
        requires
            poses@.len() == old(self)@.window.len(),
        ensures
            final(self)@ == (Snapshot { window: reposed(old(self)@.window, poses@), ..old(self)@ }),
            final(self).config == old(self).config,
            final(self).backend == old(self).backend,
            final(self).map == old(self).map,
    {
        let n: usize = self.window.len();
        let mut window: VecDeque<WindowKeyframe<V, P>> = VecDeque::new();
        let ghost sightings = look_through(self.window@);
        let ghost all = self.window@;
        let mut k: usize = 0;
        while k < n
            invariant
                k <= n,
                n == all.len(),
                poses@.len() == n,
                sightings == look_through(all),
                self.window@ == all.subrange(k as int, n as int),
                look_through(window@) =~= reposed(sightings, poses@).subrange(0, k as int),
                window@.len() == k,
                self@ == (Snapshot { window: look_through(self.window@), ..old(self)@ }),
                self.config == old(self).config,
                self.backend == old(self).backend,
                self.map == old(self).map,
            decreases n - k,
        {
            let ghost done = window@;
            if let Some(kf) = self.window.pop_front() {
                assert(kf == all[k as int]);
                window.push_back(WindowKeyframe { pose: poses[k], observations: kf.observations });
                proof {
                    assert(self.window@ =~= all.subrange(k + 1, n as int));
                    assert(sightings[k as int].observations == kf.observations@);
                    assert(look_through(window@) =~= look_through(done).push(
                        reposed(sightings, poses@)[k as int],
                    ));
                }
            }
            k = k + 1;
        }
        self.window = window;
        assert(look_through(self.window@) =~= reposed(sightings, poses@));
    }

    /// Re-express everything in a similarity-transformed frame, all at once: a
    /// half-transformed tracker would mix two frames.
    pub fn apply_similarity(&mut self, t: &Transformed<X, P, C>)
        requires
            old(self).wf(),
            t.covers(old(self)@),
        ensures
            final(self).wf(),
            final(self).settings() == old(self).settings(),
            final(self).front_end() == old(self).front_end(),
            final(self)@ == transformed(old(self)@, *t),
    {
        let ghost map = self.map@;
        let n: usize = self.map.len();
        proof {
            self.map.lemma_ids_are_distinct();
        }
        let mut i: usize = 0;
        while i < n
            invariant
                i <= n,
                n == map.len(),
                map == old(self)@.map,
                ids_are_distinct(map),
                t.positions@.len() == n,
                self.map.wf(),
                self.map@.len() == n,
                forall|k: int|
                    0 <= k < i ==> #[trigger] self.map@[k] == repositioned(map, t.positions@)[k],
                forall|k: int| i <= k < n ==> #[trigger] self.map@[k] == map[k],
                self@ == (Snapshot { map: self.map@, ..old(self)@ }),
                self.config == old(self).config,
                self.backend == old(self).backend,
            decreases n - i,
        {
            let ghost before = self.map@;
            let id: u64 = self.map.landmarks()[i].id;
            proof {
                self.map.lemma_ids_are_distinct();
                assert(before[i as int] == map[i as int]);
                assert(is_at(before, id, i as int));
                let p = place_of(before, id);
                assert(is_at(before, id, p));
                if p < i {
                    assert(before[p].landmark.id != before[i as int].landmark.id);
                } else if i < p {
                    assert(before[i as int].landmark.id != before[p].landmark.id);
                }
            }
            self.map.set_position(id, t.positions[i]);
            i = i + 1;
        }
        self.repose_window(&t.window);
        self.pose = t.pose;
        let keyframe: Option<KeyframeState<V, P>> = self.keyframe.take();
        self.keyframe = match (keyframe, t.keyframe) {
            (Some(k), Some(pose)) => Some(KeyframeState { pose, observations: k.observations }),
            (k, _) => k,
        };
        let bootstrap: Option<KeyframeState<V, P>> = self.bootstrap.take();
        self.bootstrap = match (bootstrap, t.bootstrap) {
            (Some(b), Some(pose)) => Some(KeyframeState { pose, observations: b.observations }),
            (b, _) => b,
        };
        self.covariance = t.covariance;
        proof {
            self.map.lemma_ids_are_distinct();
            assert(self.map@ =~= repositioned(map, t.positions@));
            assert forall|a: int| 0 <= a < self.map@.len() implies (
            #[trigger] self.map@[a]).landmark.id < self.next_landmark_id by {
                assert(map[a].landmark.id < self.next_landmark_id);
            }
            assert(self@ =~= transformed(old(self)@, *t));
        }
    }
}

// ---------------------------------------------------------------------------
// Settings of the stages
// ---------------------------------------------------------------------------

impl TrackConfig {
    /// How the pyramid is built: with one level at least.
    pub fn pyramid_config(&self) -> (config: PyramidConfig)
        ensures
            config.levels == (if self.pyramid_levels < 1 {
                1
            } else {
                self.pyramid_levels
            }),
            config.filter == PyramidFilter::Binomial,
    {
        PyramidConfig {
            levels: if self.pyramid_levels < 1 {
                1
            } else {
                self.pyramid_levels
            },
            filter: PyramidFilter::Binomial,
        }
    }

    /// Half-width of a flow patch: one at least.
    pub fn flow_radius(&self) -> (radius: u32)
        ensures
            radius == (if self.klt_window < 1 {
                1
            } else {
                self.klt_window
            }),
    {
        if self.klt_window < 1 {
            1
        } else {
            self.klt_window
        }
    }

    /// Flow iterations per level: one at least.
    pub fn flow_iterations(&self) -> (iterations: u32)
        ensures
            iterations == (if self.klt_iterations < 1 {
                1
            } else {
                self.klt_iterations
            }),
    {
        if self.klt_iterations < 1 {
            1
        } else {
            self.klt_iterations
        }
    }

    /// How corners are detected: within the budget, and far enough from the border
    /// for a flow patch to fit.
    pub fn corner_config(&self, budget: usize) -> (config: CornerConfig)
        requires
            self.klt_window + 2 <= u32::MAX,
        ensures
            config == (CornerConfig {
                max_corners: budget,
                block_radius: 3,
                grid_cols: 8,
                grid_rows: 6,
                border: if self.klt_window + 2 > 8 {
                    (self.klt_window + 2) as u32
                } else {
                    8
                },
                subpixel: true,
                subpixel_radius: 4,
                subpixel_iterations: 12,
            }),
    {
        let d: CornerConfig = CornerConfig::default();
        CornerConfig {
            max_corners: budget,
            block_radius: d.block_radius,
            grid_cols: d.grid_cols,
            grid_rows: d.grid_rows,
            border: if self.klt_window + 2 > d.border {
                self.klt_window + 2
            } else {
                d.border
            },
            subpixel: d.subpixel,
            subpixel_radius: d.subpixel_radius,
            subpixel_iterations: d.subpixel_iterations,
        }
    }

    /// How many keyframes have to see a landmark for it to take part in local
    /// bundle adjustment: two, or more than there can be when only poses are
    /// adjusted.
    pub fn min_sightings(&self) -> (min: usize)
        ensures
            min == (if self.local_ba_motion_only {
                usize::MAX
            } else {
                2
            }),
    {
        if self.local_ba_motion_only {
            usize::MAX
        } else {
            2
        }
    }
}

// ---------------------------------------------------------------------------
// Laws
// ---------------------------------------------------------------------------

/// Lost is reported exactly when the solve has failed too often in a row, as long
/// as there is a map to be lost in.
pub proof fn law_lost_means_repeated_failure<V, X, P, C>(
    s: Snapshot<V, X, P, C>,
    config: TrackConfig,
    low_light: bool,
    flow: FlowSummary,
    flow_is_wide: bool,
    solve: SolveSummary,
)
    requires
        s.pose is Some,
        s.map.len() > 0,
    ensures
        verdict(s, config, low_light, flow, flow_is_wide, solve) is Lost <==> s.solve_failures
            >= LOST_AFTER_FAILURES,
{
}

/// Tracking is claimed only of a frame whose pose was solved against enough
/// landmarks of a map, in enough light and with enough features.
pub proof fn law_tracking_is_earned<V, X, P, C>(
    s: Snapshot<V, X, P, C>,
    config: TrackConfig,
    low_light: bool,
    flow: FlowSummary,
    flow_is_wide: bool,
    solve: SolveSummary,
)
    requires
        verdict(s, config, low_light, flow, flow_is_wide, solve) is Tracking,
    ensures
        s.pose is Some,
        s.map.len() > 0,
        s.solve_failures < LOST_AFTER_FAILURES,
        !low_light,
        solve.solved,
        solve.inliers >= MIN_PNP_CORRESPONDENCES,
        live_count(s.features, s.features.len()) >= config.min_features,
{
}

/// A blank frame is never blamed on motion alone: a collapse counts as motion only
/// where the new frame still holds features.
pub proof fn law_blank_frame_is_not_motion<V, X, P, C>(
    s: Snapshot<V, X, P, C>,
    config: TrackConfig,
    flow: FlowSummary,
)
    requires
        live_count(s.features, s.features.len()) == 0,
    ensures
        !is_excessive_motion(s, config, flow, false),
{
}

/// A map that is given up leaves no trace: no feature points into it, and the
/// next frame starts from a reference view of its own.
pub proof fn law_abandoned_map_leaves_no_trace<V, X, P, C>(s: Snapshot<V, X, P, C>, i: int)
    requires
        0 <= i < s.features.len(),
    ensures
        without_map(s).features[i].landmark is None,
        without_map(s).features[i].id == s.features[i].id,
        without_map(s).map.len() == 0,
        without_map(s).pose is None,
        without_map(s).bootstrap is None,
{
}

/// Without a map there is always a reference view after a frame, and never one
/// that has been kept too long: the bootstrap cannot get stuck.
pub proof fn law_bootstrap_never_gets_stuck<V, X, P, C>(s: Snapshot<V, X, P, C>, origin: P)
    requires
        s.map.len() == 0,
    ensures
        rearmed(s, origin).bootstrap is Some,
        rearmed(s, origin).frames_since_keyframe <= BOOTSTRAP_REFERENCE_TTL_FRAMES || s.bootstrap
            is None,
        reference_is_stale(s) ==> rearmed(s, origin).bootstrap->0.observations == seen_at(
            s.features,
            s.features.len(),
        ),
{
}

/// After a relocalization the rebuilt map is anchored at the supplied pose, and
/// nothing is claimed to be tracked until it is there.
pub proof fn law_relocalization_anchors_the_new_map<V, X, P, C>(
    s: Snapshot<V, X, P, C>,
    pose: P,
    origin: P,
)
    ensures
        ({
            let t = relocalized(s, pose);
            &&& t.state is Initializing
            &&& rearmed(t, origin).bootstrap matches Some(r) && r.pose == pose
            &&& rearmed(t, origin).pose == Some(pose)
        }),
{
}

/// Topping up never exceeds the budget.
pub proof fn law_features_stay_within_budget<V, X, P, C>(
    s: Snapshot<V, X, P, C>,
    config: TrackConfig,
    corners: Seq<Moved<V>>,
)
    requires
        s.wf(config),
        live_count(s.features, s.features.len()) + corners.len() <= config.max_features,
    ensures
        refilled(s, config, corners).features.len() <= config.max_features,
{
    let n = s.features.len();
    let spare = (config.max_features - live_count(s.features, n) - corners.len()) as nat;
    lemma_retained(s.features, spare, n, s.next_feature_id, s.next_landmark_id);
}

/// The map is bounded at the end of every frame.
pub proof fn law_map_stays_bounded<V, X, P, C>(
    s: Snapshot<V, X, P, C>,
    config: TrackConfig,
    failures_before: nat,
    solved: bool,
    state: TrackingState,
)
    requires
        s.wf(config),
    ensures
        ended(s, config, failures_before, solved, state).map.len() <= map_capacity(config),
{
    crate::track::local_map::law_cull_bounds_the_map(
        s.map,
        s.frame_index,
        LANDMARK_TTL_FRAMES,
        map_capacity(config),
    );
}

/// A window that is worth adjusting has an anchor, and its newest keyframe is
/// free.
pub proof fn law_window_is_anchored<V, X, P, C>(s: Snapshot<V, X, P, C>, config: TrackConfig)
    requires
        is_adjustable(s, config),
    ensures
        1 <= anchors(config, s.window.len()) < s.window.len(),
{
}

proof fn lemma_keyframe_graph<V, X>(
    g: WindowGraph<V>,
    map: Seq<Entry<X>>,
    keyframe: nat,
    sightings: Seq<(u64, V)>,
    n: nat,
    poses: nat,
)
    requires
        keyframe < poses <= usize::MAX,
        g.ids.no_duplicates(),
        with_keyframe(g, map, keyframe, sightings, n).ids.len() <= usize::MAX,
        forall|i: int|
            0 <= i < g.observations.len() ==> is_linked(
                #[trigger] g.observations[i],
                poses,
                g.ids.len(),
            ),
    ensures
        ({
            let h = with_keyframe(g, map, keyframe, sightings, n);
            &&& g.ids.len() <= h.ids.len()
            &&& h.ids.no_duplicates()
            &&& forall|i: int|
                0 <= i < h.observations.len() ==> is_linked(
                    #[trigger] h.observations[i],
                    poses,
                    h.ids.len(),
                )
        }),
    decreases n,
{
    if n > 0 {
        let b = with_keyframe(g, map, keyframe, sightings, (n - 1) as nat);
        let h = with_keyframe(g, map, keyframe, sightings, n);
        assert(b.ids.len() <= h.ids.len());
        lemma_keyframe_graph(g, map, keyframe, sightings, (n - 1) as nat, poses);
        let id = sightings[n - 1].0;
        if knows(map, id) {
            if b.ids.contains(id) {
                let j = choose|j: int| 0 <= j < b.ids.len() && b.ids[j] == id;
                lemma_slot(h.ids, id, j);
            } else {
                lemma_slot(h.ids, id, b.ids.len() as int);
            }
        }
    }
}

proof fn lemma_window_graph<V, X, P>(
    map: Seq<Entry<X>>,
    window: Seq<WindowView<V, P>>,
    n: nat,
    poses: nat,
)
    requires
        n <= poses <= usize::MAX,
        n <= window.len(),
        graph_of(map, window, n).ids.len() <= usize::MAX,
    ensures
        ({
            let h = graph_of(map, window, n);
            &&& h.ids.no_duplicates()
            &&& forall|i: int|
                0 <= i < h.observations.len() ==> is_linked(
                    #[trigger] h.observations[i],
                    poses,
                    h.ids.len(),
                )
        }),
    decreases n,
{
    if n > 0 {
        let g = graph_of(map, window, (n - 1) as nat);
        let sightings = window[n - 1].observations;
        lemma_graph_grows(g, map, (n - 1) as nat, sightings, sightings.len());
        lemma_window_graph(map, window, (n - 1) as nat, poses);
        lemma_keyframe_graph(g, map, (n - 1) as nat, sightings, sightings.len(), poses);
    }
}

proof fn lemma_graph_grows<V, X>(
    g: WindowGraph<V>,
    map: Seq<Entry<X>>,
    keyframe: nat,
    sightings: Seq<(u64, V)>,
    n: nat,
)
    ensures
        g.ids.len() <= with_keyframe(g, map, keyframe, sightings, n).ids.len(),
    decreases n,
{
    if n > 0 {
        lemma_graph_grows(g, map, keyframe, sightings, (n - 1) as nat);
    }
}

/// Every observation of the window is of a keyframe and a landmark that take
/// part, and no landmark takes part twice.
pub proof fn law_window_observations_are_linked<V, X, P, C>(
    s: Snapshot<V, X, P, C>,
    config: TrackConfig,
    w: WindowProblem<V, X, P>,
    i: int,
)
    requires
        w.is_of(s, config),
        0 <= i < w.problem.observations@.len(),
        s.window.len() <= usize::MAX,
        w.ids@.len() <= usize::MAX,
    ensures
        is_linked(w.problem.observations@[i], w.problem.poses@.len(), w.problem.points@.len()),
        w.ids@.no_duplicates(),
{
    lemma_window_graph(s.map, s.window, s.window.len(), s.window.len());
}

proof fn lemma_gains_bound<V, X>(
    features: Seq<Feature<V>>,
    seen: Map<u64, V>,
    points: Seq<Option<X>>,
    n: nat,
    m: nat,
)
    requires
        n <= m,
    ensures
        gains(features, seen, points, n) <= gains(features, seen, points, m),
        gains(features, seen, points, n) <= n,
    decreases m,
{
    if n < m {
        lemma_gains_bound(features, seen, points, n, (m - 1) as nat);
    } else if n > 0 {
        lemma_gains_bound(features, seen, points, (n - 1) as nat, (m - 1) as nat);
    }
}

pub(crate) proof fn lemma_with_gains<V, X>(
    features: Seq<Feature<V>>,
    seen: Map<u64, V>,
    points: Seq<Option<X>>,
    next: u64,
    n: nat,
    i: int,
)
    requires
        n <= features.len(),
        0 <= i < n,
    ensures
        with_gains(features, seen, points, next, n).len() == n,
        with_gains(features, seen, points, next, n)[i] == (if is_candidate(features[i], seen)
            && points[i] is Some {
            Feature {
                landmark: Some((next + gains(features, seen, points, i as nat)) as u64),
                ..features[i]
            }
        } else {
            features[i]
        }),
    decreases n,
{
    reveal_with_fuel(with_gains, 2);
    if i < n - 1 {
        lemma_with_gains(features, seen, points, next, (n - 1) as nat, i);
    } else if n > 1 {
        lemma_with_gains(features, seen, points, next, (n - 1) as nat, 0);
    }
}

/// A keyframe names new landmarks by ids that were never given out before, one
/// for each feature, and leaves the features that had a landmark alone.
pub proof fn law_new_landmarks_have_new_ids<V, X, P, C>(
    s: Snapshot<V, X, P, C>,
    config: TrackConfig,
    points: Seq<Option<X>>,
    i: int,
    j: int,
)
    requires
        s.wf(config),
        s.keyframe is Some,
        s.next_landmark_id + s.features.len() <= u64::MAX,
        0 <= i < j < s.features.len(),
    ensures
        ({
            let t = promoted(s, config, points);
            let is_new = |k: int|
                t.features[k].landmark != s.features[k].landmark;
            &&& is_new(i) ==> t.features[i].landmark is Some && s.next_landmark_id
                <= t.features[i].landmark->0 < t.next_landmark_id
            &&& is_new(i) && is_new(j) ==> t.features[i].landmark != t.features[j].landmark
            &&& s.features[i].landmark is Some ==> t.features[i] == s.features[i]
        }),
{
    let seen = s.keyframe->0.observations;
    let n = s.features.len();
    lemma_with_gains(s.features, seen, points, s.next_landmark_id, n, i);
    lemma_with_gains(s.features, seen, points, s.next_landmark_id, n, j);
    lemma_gains_bound(s.features, seen, points, (i + 1) as nat, j as nat);
    lemma_gains_bound(s.features, seen, points, (i + 1) as nat, n);
    lemma_gains_bound(s.features, seen, points, (j + 1) as nat, n);
    lemma_gains_bound(s.features, seen, points, n, n);
}

/// A keyframe adds landmarks behind those that are there, and changes none of
/// them.
pub proof fn law_keyframe_only_adds_landmarks<V, X, P, C>(
    s: Snapshot<V, X, P, C>,
    config: TrackConfig,
    points: Seq<Option<X>>,
    n: nat,
)
    requires
        s.wf(config),
        s.keyframe is Some,
        s.next_landmark_id + s.features.len() <= u64::MAX,
        n <= s.features.len(),
    ensures
        ({
            let seen = s.keyframe->0.observations;
            let after = grown(
                s.map,
                s.features,
                seen,
                points,
                s.next_landmark_id,
                s.frame_index,
                n,
            );
            &&& after.len() == s.map.len() + gains(s.features, seen, points, n)
            &&& after.subrange(0, s.map.len() as int) =~= s.map
            &&& landmarks_are_given(
                after,
                (s.next_landmark_id + gains(s.features, seen, points, n)) as u64,
            )
        }),
    decreases n,
{
    let seen = s.keyframe->0.observations;
    lemma_gains_bound(s.features, seen, points, n, n);
    if n > 0 {
        law_keyframe_only_adds_landmarks(s, config, points, (n - 1) as nat);
        lemma_gains_bound(s.features, seen, points, (n - 1) as nat, n);
        let before = grown(
            s.map,
            s.features,
            seen,
            points,
            s.next_landmark_id,
            s.frame_index,
            (n - 1) as nat,
        );
        let next = (s.next_landmark_id + gains(s.features, seen, points, (n - 1) as nat)) as u64;
        if knows(before, next) {
            assert(is_at(before, next, place_of(before, next)));
            assert(before[place_of(before, next)].landmark.id < next);
        }
    }
}

/// The solve to go on with.
pub open spec fn supported_solve<P, C>(
    refined: Option<PoseSolve<P, C>>,
    ransac: PoseSolve<P, C>,
) -> PoseSolve<P, C> {
    match refined {
        Some(r) => if r.inlier_count < MIN_PNP_CORRESPONDENCES {
            ransac
        } else {
            r
        },
        None => ransac,
    }
}

/// A refined pose is gone on with exactly when six correspondences or more agree with
/// it; otherwise the pose that it was refined from is.
pub proof fn law_refined_pose_needs_support<P, C>(
    refined: PoseSolve<P, C>,
    ransac: PoseSolve<P, C>,
)
    ensures
        refined.inlier_count >= 6 ==> supported_solve(Some(refined), ransac) == refined,
        refined.inlier_count < 6 ==> supported_solve(Some(refined), ransac) == ransac,
        supported_solve(None, ransac) == ransac,
{
}

/// The total counts every cause alike: one more failure of any kind is one more in all.
pub proof fn law_total_counts_every_cause(a: FailureCounts, b: FailureCounts)
    requires
        a.awaiting_bootstrap <= b.awaiting_bootstrap,
        a.too_few_correspondences <= b.too_few_correspondences,
        a.ransac_failed <= b.ransac_failed,
        a.too_few_inliers <= b.too_few_inliers,
    ensures
        b.sum() - a.sum() == (b.awaiting_bootstrap - a.awaiting_bootstrap) + (
        b.too_few_correspondences - a.too_few_correspondences) + (b.ransac_failed
            - a.ransac_failed) + (b.too_few_inliers - a.too_few_inliers),
{
}

/// A state has a pose to show for exactly when it tracks, limited or not.
pub proof fn law_only_tracking_gives_a_pose(reason: LimitedReason)
    ensures
        TrackingState::Tracking.gives_pose(),
        TrackingState::Limited(reason).gives_pose(),
        !TrackingState::Initializing.gives_pose(),
        !TrackingState::Lost.gives_pose(),
{
}

} // verus!
