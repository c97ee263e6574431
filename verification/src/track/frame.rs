//! One frame from beginning to end: which stage comes next, given what the
//! geometry answered to the last one.
//!
//! The caller begins a frame, looks at [`FrameRun::stage`], does the geometry that
//! the stage asks for, and hands the answer to [`Tracker::proceed`], until the
//! stage is [`Stage::Done`].

use vstd::prelude::*;

use crate::track::tracker::{
    abandoned, adjusted, after_bootstrap, after_solve, completed, ended, followed, found_at,
    frame_begun, harvest, is_solved, keyframe_is_due, landmark_count, live_count, map_capacity,
    moved_to, promoted, rearmed, refill_is_due, refilled, verdict, Covariance, Feature,
    FeatureState, FlowSummary, Moved, PoseSolve, Seed, Snapshot, SolveSummary, TrackConfig, Tracker,
    TrackingState, MIN_PNP_CORRESPONDENCES,
};

use crate::track::validity::{
    lemma_abandoning_keeps_wf, lemma_adjustment_keeps_wf, lemma_bootstrap_keeps_lost,
    lemma_bootstrap_keeps_wf, lemma_ending_keeps_wf, lemma_flow_keeps_wf, lemma_gaining_keeps_lost,
    lemma_marking_keeps_lost, lemma_no_room_retains_none, lemma_pairs_need_a_map,
    lemma_promotion_keeps_wf, lemma_rearming_keeps_wf, lemma_refill_keeps_wf,
    lemma_room_retains_all, lemma_solve_keeps_wf,
};

verus! {

/// What the frame waits for.
#[derive(Debug, Clone, Copy, PartialEq, Eq, Structural)]
pub enum Stage {
    /// Follow the features from the previous frame.
    Flow,
    /// Solve the pose against the landmarks in view.
    Pose,
    /// Compare the pose with the last keyframe's.
    Motion,
    /// Triangulate features against the last keyframe.
    Points,
    /// Adjust the window.
    Window,
    /// Build the first map from two views.
    FirstMap,
    /// Detect corners.
    Corners,
    /// Nothing: the frame is over.
    Done,
}

/// A window that has been adjusted.
#[derive(Debug)]
pub struct AdjustedWindow<X, P> {
    /// Whether the cost is finite and no greater than before.
    pub improved: bool,
    /// The landmarks that took part.
    pub ids: Vec<u64>,
    /// Where each of them is now, where that is usable.
    pub points: Vec<Option<X>>,
    /// The poses of the window.
    pub poses: Vec<P>,
    /// The live pose with the newest keyframe's correction.
    pub live: P,
}

/// A first map.
#[derive(Debug)]
pub struct FirstMap<X, P, C> {
    pub pose: P,
    pub covariance: Option<C>,
    pub seeds: Vec<Seed<X>>,
}

/// What the geometry answers.
#[derive(Debug)]
pub enum Answer<V, X, P, C> {
    /// Where each feature went, and whether the flow is wider than the pyramid can
    /// span; `None` without a previous frame.
    Flow { results: Option<Vec<Option<Moved<V>>>>, is_wide: bool },
    /// The pose, if one was found.
    Pose { solve: Option<PoseSolve<P, C>> },
    /// Whether the camera has moved, and how few landmarks are too few.
    Motion { has_moved: bool, starving_below: usize },
    /// What each feature was triangulated to.
    Points { points: Vec<Option<X>> },
    /// The adjusted window, if it was adjusted.
    Window { adjusted: Option<AdjustedWindow<X, P>> },
    /// The first map, if there is one.
    FirstMap { map: Option<FirstMap<X, P, C>> },
    /// New corners.
    Corners { corners: Vec<Moved<V>> },
}

/// A frame under way.
#[derive(Debug, Clone, Copy)]
pub struct FrameRun<P> {
    /// What it waits for.
    pub stage: Stage,
    /// Failures counted before this frame.
    pub failures_before: usize,
    /// Whether the frame is too dark.
    pub low_light: bool,
    /// How far the feature set may drain.
    pub refill_floor: usize,
    /// The pose of a fresh session.
    pub origin: P,
    /// What came of the flow.
    pub flow: FlowSummary,
    /// Whether the flow is wider than the pyramid can span.
    pub flow_is_wide: bool,
    /// What came of the pose solve.
    pub solve: SolveSummary,
    /// Whether the frame became a keyframe.
    pub is_keyframe: bool,
    /// Whether the frame founded a new map.
    pub bootstrapped: bool,
}

/// What a frame gave.
#[derive(Debug, Clone, Copy)]
pub struct TrackOutcome<P, C> {
    /// How well tracking goes after the frame.
    pub state: TrackingState,
    /// The pose, up to scale; `None` before there is a map.
    pub pose: Option<P>,
    /// How certain the pose is.
    pub covariance: Covariance<C>,
    /// Correspondences that the pose solve accepted.
    pub inlier_count: usize,
    /// Features that survived flow.
    pub tracked_count: usize,
    /// Whether the frame became a keyframe.
    pub is_keyframe: bool,
    /// Whether the frame founded a new map, in a world of its own.
    pub bootstrapped: bool,
}

/// What a frame gave.
pub open spec fn outcome_of<V, X, P, C>(p: Progress<V, X, P, C>) -> TrackOutcome<P, C> {
    TrackOutcome {
        state: p.tracker.state,
        pose: p.tracker.pose,
        covariance: p.tracker.covariance,
        inlier_count: p.run.solve.inliers,
        tracked_count: p.run.flow.survived,
        is_keyframe: p.run.is_keyframe,
        bootstrapped: p.run.bootstrapped,
    }
}

/// A tracker and its frame.
pub struct Progress<V, X, P, C> {
    pub tracker: Snapshot<V, X, P, C>,
    pub run: FrameRun<P>,
}

/// A frame at its beginning.
pub open spec fn begun<V, X, P, C>(
    s: Snapshot<V, X, P, C>,
    low_light: bool,
    refill_floor: usize,
    origin: P,
) -> Progress<V, X, P, C> {
    Progress {
        tracker: frame_begun(s),
        run: FrameRun {
            stage: Stage::Flow,
            failures_before: s.failures.sum() as usize,
            low_light,
            refill_floor,
            origin,
            flow: FlowSummary { survived: 0, attempted: 0 },
            flow_is_wide: false,
            solve: SolveSummary { solved: false, inliers: 0 },
            is_keyframe: false,
            bootstrapped: false,
        },
    }
}

/// The stage that is asked for is the one that is answered, and what is handed
/// over has the right shape: no more corners than there is room for, among others.
pub open spec fn fits<V, X, P, C>(
    p: Progress<V, X, P, C>,
    config: TrackConfig,
    answer: Answer<V, X, P, C>,
) -> bool {
    let s = p.tracker;
    match answer {
        Answer::Flow { .. } => p.run.stage == Stage::Flow,
        Answer::Pose { .. } => p.run.stage == Stage::Pose,
        Answer::Motion { .. } => p.run.stage == Stage::Motion,
        Answer::Points { points } => p.run.stage == Stage::Points && points@.len()
            == s.features.len() && s.next_landmark_id + s.features.len() <= u64::MAX,
        Answer::Window { adjusted } => p.run.stage == Stage::Window && (adjusted matches Some(w)
            ==> w.ids@.len() == w.points@.len() && w.poses@.len() == s.window.len()
            && s.window.len() > 0),
        Answer::FirstMap { map } => p.run.stage == Stage::FirstMap && (map matches Some(m)
            ==> s.bootstrap is Some && s.next_landmark_id + m.seeds@.len() <= u64::MAX),
        Answer::Corners { corners } => p.run.stage == Stage::Corners && live_count(
            s.features,
            s.features.len(),
        ) + corners@.len() <= config.max_features && s.next_feature_id + corners@.len() <= u64::MAX,
    }
}

/// The frame at its end: a keyframe learns of the features that were added, a
/// reference view is seen to, and the verdict is given.
pub open spec fn closed<V, X, P, C>(p: Progress<V, X, P, C>, config: TrackConfig) -> Progress<
    V,
    X,
    P,
    C,
> {
    let s = p.tracker;
    let kept = if p.run.is_keyframe {
        Snapshot { keyframe: completed(s.keyframe, s.features), ..s }
    } else {
        s
    };
    let armed = rearmed(kept, p.run.origin);
    let state = verdict(
        armed,
        config,
        p.run.low_light,
        p.run.flow,
        p.run.flow_is_wide,
        p.run.solve,
    );
    Progress {
        tracker: ended(
            armed,
            config,
            p.run.failures_before as nat,
            p.run.solve.solved,
            state,
        ),
        run: FrameRun { stage: Stage::Done, ..p.run },
    }
}

/// The frame once the map has been dealt with: corners are asked for where the
/// feature set wants topping up, and otherwise the frame is at its end.
pub open spec fn topping_up<V, X, P, C>(p: Progress<V, X, P, C>, config: TrackConfig) -> Progress<
    V,
    X,
    P,
    C,
> {
    if refill_is_due(p.tracker, config, p.run.refill_floor as nat, p.run.is_keyframe) {
        Progress { run: FrameRun { stage: Stage::Corners, ..p.run }, ..p }
    } else {
        closed(p, config)
    }
}

/// The frame once the pose has been solved for or not: a map that cannot be seen
/// any more is given up, and what comes next depends on whether there is one.
pub open spec fn posed<V, X, P, C>(
    p: Progress<V, X, P, C>,
    solve: Option<PoseSolve<P, C>>,
) -> Progress<V, X, P, C> {
    let solved = is_solved(p.tracker, solve);
    let s = after_solve(p.tracker, solve);
    let t = abandoned(s);
    Progress {
        tracker: t,
        run: FrameRun {
            solve: SolveSummary {
                solved,
                inliers: if solved {
                    solve->0.inlier_count
                } else {
                    0
                },
            },
            stage: if t.pose is Some && t.map.len() > 0 {
                Stage::Motion
            } else {
                Stage::FirstMap
            },
            ..p.run
        },
    }
}

/// The frame once the first map has been tried for.
pub open spec fn founded<V, X, P, C>(
    p: Progress<V, X, P, C>,
    map: Option<FirstMap<X, P, C>>,
) -> Progress<V, X, P, C> {
    match map {
        None => p,
        Some(m) => {
            let t = after_bootstrap(p.tracker, m.pose, m.covariance, m.seeds@);
            if harvest(p.tracker, m.seeds@).count >= MIN_PNP_CORRESPONDENCES {
                Progress {
                    tracker: t,
                    run: FrameRun {
                        is_keyframe: true,
                        bootstrapped: true,
                        solve: SolveSummary {
                            solved: true,
                            inliers: landmark_count(t.features, t.features.len()) as usize,
                        },
                        ..p.run
                    },
                }
            } else {
                Progress { tracker: t, ..p }
            }
        },
    }
}

/// The frame after an answer.
pub open spec fn proceeded<V, X, P, C>(
    p: Progress<V, X, P, C>,
    config: TrackConfig,
    answer: Answer<V, X, P, C>,
) -> Progress<V, X, P, C> {
    let s = p.tracker;
    match answer {
        Answer::Flow { results, is_wide } => match results {
            None => Progress { run: FrameRun { stage: Stage::Pose, ..p.run }, ..p },
            Some(r) => {
                let features = followed(s.features, r@);
                Progress {
                    tracker: Snapshot { features, ..s },
                    run: FrameRun {
                        stage: Stage::Pose,
                        flow: FlowSummary {
                            survived: live_count(features, features.len()) as usize,
                            attempted: live_count(s.features, s.features.len()) as usize,
                        },
                        flow_is_wide: is_wide,
                        ..p.run
                    },
                }
            },
        },
        Answer::Pose { solve } => posed(p, solve),
        Answer::Motion { has_moved, starving_below } => if keyframe_is_due(
            s,
            config,
            has_moved,
            starving_below as nat,
        ) {
            Progress { run: FrameRun { stage: Stage::Points, ..p.run }, ..p }
        } else {
            topping_up(p, config)
        },
        Answer::Points { points } => Progress {
            tracker: promoted(s, config, points@),
            run: FrameRun { stage: Stage::Window, is_keyframe: true, ..p.run },
        },
        Answer::Window { adjusted: window } => topping_up(
            Progress {
                tracker: match window {
                    Some(w) => if w.improved {
                        adjusted(s, w.ids@, w.points@, w.poses@, w.live)
                    } else {
                        s
                    },
                    None => s,
                },
                ..p
            },
            config,
        ),
        Answer::FirstMap { map } => topping_up(founded(p, map), config),
        Answer::Corners { corners } => closed(
            Progress { tracker: refilled(s, config, corners@), ..p },
            config,
        ),
    }
}

impl<V, X, P, C> Progress<V, X, P, C> {
    /// What holds of a frame under way: it has been counted as failed at most once,
    /// never if it got a pose, and at its end exactly once if it did not. A frame
    /// that founds a map is a keyframe with a pose, one that is said to be tracking
    /// was solved against enough landmarks, and at its end the map is bounded.
    pub open spec fn wf(self, config: TrackConfig) -> bool {
        let s = self.tracker;
        let run = self.run;
        let before = run.failures_before;
        let sum = s.failures.sum();
        &&& before < s.frame_index <= usize::MAX
        &&& before <= sum <= before + 1
        &&& run.solve.solved ==> sum == before && s.pose is Some
        &&& run.bootstrapped ==> run.is_keyframe && run.solve.solved
        &&& match run.stage {
            Stage::Flow | Stage::Pose => sum == before && !run.solve.solved,
            Stage::Motion | Stage::Window => s.pose is Some,
            Stage::Points => s.pose is Some && s.keyframe is Some,
            Stage::FirstMap => !run.solve.solved && (s.bootstrap is Some ==> sum == before),
            Stage::Corners => true,
            Stage::Done => {
                &&& sum == before + (if run.solve.solved {
                    0int
                } else {
                    1int
                })
                &&& s.map.len() <= map_capacity(config)
                &&& s.state is Tracking ==> s.pose is Some && run.solve.solved
                    && run.solve.inliers >= MIN_PNP_CORRESPONDENCES
            },
        }
    }
}

/// What holds of a frame before it is topped up and closed: whether or not it has
/// been counted as failed, it was only if it got no pose.
spec fn can_close<V, X, P, C>(p: Progress<V, X, P, C>, config: TrackConfig) -> bool {
    let s = p.tracker;
    let run = p.run;
    let before = run.failures_before;
    let sum = s.failures.sum();
    &&& s.wf(config)
    &&& before < s.frame_index <= usize::MAX
    &&& before <= sum <= before + 1
    &&& run.solve.solved ==> sum == before && s.pose is Some
    &&& run.bootstrapped ==> run.is_keyframe && run.solve.solved
}

proof fn lemma_closing<V, X, P, C>(p: Progress<V, X, P, C>, config: TrackConfig)
    requires
        can_close(p, config),
    ensures
        closed(p, config).tracker.wf(config),
        closed(p, config).wf(config),
{
    let s = p.tracker;
    let kept = if p.run.is_keyframe {
        Snapshot { keyframe: completed(s.keyframe, s.features), ..s }
    } else {
        s
    };
    assert(kept.wf(config));
    lemma_rearming_keeps_wf(kept, config, p.run.origin);
    let armed = rearmed(kept, p.run.origin);
    let state = verdict(
        armed,
        config,
        p.run.low_light,
        p.run.flow,
        p.run.flow_is_wide,
        p.run.solve,
    );
    lemma_ending_keeps_wf(
        armed,
        config,
        p.run.failures_before as nat,
        p.run.solve.solved,
        state,
    );
}

proof fn lemma_topping_up<V, X, P, C>(p: Progress<V, X, P, C>, config: TrackConfig)
    requires
        can_close(p, config),
    ensures
        topping_up(p, config).tracker.wf(config),
        topping_up(p, config).wf(config),
{
    lemma_closing(p, config);
}

proof fn lemma_posed<V, X, P, C>(
    p: Progress<V, X, P, C>,
    config: TrackConfig,
    solve: Option<PoseSolve<P, C>>,
)
    requires
        p.tracker.wf(config),
        p.wf(config),
        p.run.stage == Stage::Pose,
    ensures
        posed(p, solve).tracker.wf(config),
        posed(p, solve).wf(config),
{
    lemma_solve_keeps_wf(p.tracker, config, solve);
    lemma_abandoning_keeps_wf(after_solve(p.tracker, solve), config);
    if p.tracker.map.len() == 0 {
        lemma_pairs_need_a_map(p.tracker.features, p.tracker.map, p.tracker.features.len());
    }
}

/// Every answer leads from a valid state of the tracker and its frame to another.
pub(crate) proof fn lemma_proceeding<V, X, P, C>(
    p: Progress<V, X, P, C>,
    config: TrackConfig,
    answer: Answer<V, X, P, C>,
)
    requires
        p.tracker.wf(config),
        p.wf(config),
        fits(p, config, answer),
    ensures
        proceeded(p, config, answer).tracker.wf(config),
        proceeded(p, config, answer).wf(config),
{
    let s = p.tracker;
    match answer {
        Answer::Flow { results, .. } => {
            if let Some(r) = results {
                lemma_flow_keeps_wf(s, config, r@);
            }
        },
        Answer::Pose { solve } => {
            lemma_posed(p, config, solve);
        },
        Answer::Motion { .. } => {
            lemma_topping_up(p, config);
        },
        Answer::Points { points } => {
            lemma_promotion_keeps_wf(s, config, points@);
        },
        Answer::Window { adjusted: window } => {
            if let Some(w) = window {
                lemma_adjustment_keeps_wf(s, config, w.ids@, w.points@, w.poses@, w.live);
                if w.improved {
                    lemma_topping_up(
                        Progress {
                            tracker: adjusted(s, w.ids@, w.points@, w.poses@, w.live),
                            ..p
                        },
                        config,
                    );
                }
            }
            lemma_topping_up(p, config);
        },
        Answer::FirstMap { map } => {
            if let Some(m) = map {
                lemma_bootstrap_keeps_wf(s, config, m.pose, m.covariance, m.seeds@);
            }
            lemma_topping_up(founded(p, map), config);
        },
        Answer::Corners { corners } => {
            lemma_refill_keeps_wf(s, config, corners@);
            lemma_closing(Progress { tracker: refilled(s, config, corners@), ..p }, config);
        },
    }
}

impl<V: Copy, X: Copy, P: Copy, C: Copy> Tracker<V, X, P, C> {
    /// Begin a frame.
    pub fn begin(&mut self, low_light: bool, refill_floor: usize, origin: P) -> (run: FrameRun<P>)
        requires
            old(self).wf(),
            old(self)@.frame_index < u64::MAX,
            old(self)@.frame_index < usize::MAX,
        ensures
            final(self).wf(),
            final(self).settings() == old(self).settings(),
            final(self).front_end() == old(self).front_end(),
            (Progress { tracker: final(self)@, run }) == begun(
                old(self)@,
                low_light,
                refill_floor,
                origin,
            ),
            (Progress { tracker: final(self)@, run }).wf(final(self).settings()),
    {
        proof {
            self.lemma_wf();
        }
        let failures_before: usize = self.begin_frame();
        FrameRun {
            stage: Stage::Flow,
            failures_before,
            low_light,
            refill_floor,
            origin,
            flow: FlowSummary { survived: 0, attempted: 0 },
            flow_is_wide: false,
            solve: SolveSummary { solved: false, inliers: 0 },
            is_keyframe: false,
            bootstrapped: false,
        }
    }

    /// What a frame gave.
    pub fn outcome(&self, run: &FrameRun<P>) -> (outcome: TrackOutcome<P, C>)
        ensures
            outcome == outcome_of(Progress { tracker: self@, run: *run }),
    {
        TrackOutcome {
            state: self.state(),
            pose: self.pose(),
            covariance: self.covariance(),
            inlier_count: run.solve.inliers,
            tracked_count: run.flow.survived,
            is_keyframe: run.is_keyframe,
            bootstrapped: run.bootstrapped,
        }
    }

    fn close(&mut self, run: &mut FrameRun<P>)
        requires
            old(self).wf(),
            can_close(Progress { tracker: old(self)@, run: *old(run) }, old(self).settings()),
        ensures
            final(self).wf(),
            final(self).settings() == old(self).settings(),
            final(self).front_end() == old(self).front_end(),
            (Progress { tracker: final(self)@, run: *final(run) }) == closed(
                Progress { tracker: old(self)@, run: *old(run) },
                old(self).settings(),
            ),
    {
        if run.is_keyframe {
            self.complete_keyframe();
        }
        self.rearm_reference(run.origin);
        let _ = self.end_frame(
            run.failures_before,
            run.low_light,
            &run.flow,
            run.flow_is_wide,
            &run.solve,
        );
        run.stage = Stage::Done;
    }

    fn top_up(&mut self, run: &mut FrameRun<P>)
        requires
            old(self).wf(),
            can_close(Progress { tracker: old(self)@, run: *old(run) }, old(self).settings()),
        ensures
            final(self).wf(),
            final(self).settings() == old(self).settings(),
            final(self).front_end() == old(self).front_end(),
            (Progress { tracker: final(self)@, run: *final(run) }) == topping_up(
                Progress { tracker: old(self)@, run: *old(run) },
                old(self).settings(),
            ),
    {
        if self.wants_refill(run.refill_floor, run.is_keyframe) {
            run.stage = Stage::Corners;
        } else {
            self.close(run);
        }
    }

    /// Take an answer and go on to the next stage.
    pub fn proceed(&mut self, run: &mut FrameRun<P>, answer: Answer<V, X, P, C>)
        requires
            old(self).wf(),
            (Progress { tracker: old(self)@, run: *old(run) }).wf(old(self).settings()),
            fits(Progress { tracker: old(self)@, run: *old(run) }, old(self).settings(), answer),
        ensures
            final(self).wf(),
            final(self).settings() == old(self).settings(),
            final(self).front_end() == old(self).front_end(),
            (Progress { tracker: final(self)@, run: *final(run) }) == proceeded(
                Progress { tracker: old(self)@, run: *old(run) },
                old(self).settings(),
                answer,
            ),
            (Progress { tracker: final(self)@, run: *final(run) }).wf(final(self).settings()),
    {
        proof {
            self.lemma_wf();
            lemma_proceeding(Progress { tracker: self@, run: *run }, self.settings(), answer);
        }
        match answer {
            Answer::Flow { results, is_wide } => {
                if let Some(r) = results {
                    run.flow = self.follow(&r);
                    run.flow_is_wide = is_wide;
                }
                run.stage = Stage::Pose;
            },
            Answer::Pose { solve } => {
                run.solve = self.record_solve(solve);
                let _ = self.abandon_unseen_map();
                run.stage = if self.has_map() {
                    Stage::Motion
                } else {
                    Stage::FirstMap
                };
            },
            Answer::Motion { has_moved, starving_below } => {
                if self.is_keyframe_due(has_moved, starving_below) {
                    run.stage = Stage::Points;
                } else {
                    self.top_up(run);
                }
            },
            Answer::Points { points } => {
                let _ = self.promote(&points);
                run.is_keyframe = true;
                run.stage = Stage::Window;
            },
            Answer::Window { adjusted } => {
                if let Some(w) = adjusted {
                    self.adopt_window(w.improved, &w.ids, &w.points, &w.poses, w.live);
                }
                proof {
                    self.lemma_wf();
                }
                self.top_up(run);
            },
            Answer::FirstMap { map } => {
                if let Some(m) = map {
                    if self.adopt_bootstrap(m.pose, m.covariance, &m.seeds) {
                        run.is_keyframe = true;
                        run.bootstrapped = true;
                        run.solve = SolveSummary {
                            solved: true,
                            inliers: self.landmarks_in_view(),
                        };
                    }
                }
                proof {
                    self.lemma_wf();
                }
                self.top_up(run);
            },
            Answer::Corners { corners } => {
                self.add_features(&corners);
                proof {
                    self.lemma_wf();
                }
                self.close(run);
            },
        }
    }
}

// ---------------------------------------------------------------------------
// Laws
// ---------------------------------------------------------------------------

/// How many answers a frame still takes at most.
pub open spec fn answers_left(stage: Stage) -> nat {
    match stage {
        Stage::Flow => 6,
        Stage::Pose => 5,
        Stage::Motion => 4,
        Stage::Points => 3,
        Stage::Window => 2,
        Stage::FirstMap => 2,
        Stage::Corners => 1,
        Stage::Done => 0,
    }
}

/// A frame ends: every answer brings it nearer to its end.
pub proof fn law_frame_ends<V, X, P, C>(
    p: Progress<V, X, P, C>,
    config: TrackConfig,
    answer: Answer<V, X, P, C>,
)
    requires
        fits(p, config, answer),
    ensures
        answers_left(proceeded(p, config, answer).run.stage) < answers_left(p.run.stage),
{
}

/// A frame that founds a map is a keyframe with a pose, and says so; no other
/// frame claims a new world.
pub proof fn law_new_worlds_are_announced<V, X, P, C>(
    p: Progress<V, X, P, C>,
    config: TrackConfig,
    answer: Answer<V, X, P, C>,
)
    requires
        fits(p, config, answer),
        !p.run.bootstrapped,
        proceeded(p, config, answer).run.bootstrapped,
    ensures
        answer is FirstMap,
        proceeded(p, config, answer).run.is_keyframe,
        proceeded(p, config, answer).run.solve.solved,
        proceeded(p, config, answer).tracker.pose is Some,
{
}

/// As long as a frame sees its map, its pose is the solved one or the last one:
/// nothing but a solve, an adjustment of the window or a new map moves it.
pub proof fn law_only_geometry_moves_the_pose<V, X, P, C>(
    p: Progress<V, X, P, C>,
    config: TrackConfig,
    answer: Answer<V, X, P, C>,
)
    requires
        fits(p, config, answer),
        !(answer is Pose),
        !(answer is Window),
        !(answer is FirstMap),
    ensures
        proceeded(p, config, answer).tracker.pose == p.tracker.pose,
{
}

/// A feature that flow does not find stays, as lost and where it was last seen; the
/// others are where flow found them.
pub proof fn law_missed_feature_is_kept_as_lost<V, X, P, C>(
    p: Progress<V, X, P, C>,
    config: TrackConfig,
    results: Vec<Option<Moved<V>>>,
    is_wide: bool,
    i: int,
)
    requires
        0 <= i < p.tracker.features.len(),
    ensures
        ({
            let f = p.tracker.features[i];
            let answer = Answer::Flow { results: Some(results), is_wide };
            let after = proceeded(p, config, answer).tracker.features;
            &&& after.len() == p.tracker.features.len()
            &&& after[i] == (match found_at(results@, i) {
                Some(m) => moved_to(f, m),
                None => Feature { state: FeatureState::Lost, ..f },
            })
        }),
{
}

/// A lost feature stays lost to the end of its frame, in its place, unless new
/// corners need the room.
pub proof fn law_lost_feature_stays_for_its_frame<V, X, P, C>(
    p: Progress<V, X, P, C>,
    config: TrackConfig,
    answer: Answer<V, X, P, C>,
    i: int,
)
    requires
        p.tracker.wf(config),
        fits(p, config, answer),
        !(answer is Flow),
        answer matches Answer::Corners { corners } ==> p.tracker.features.len() + corners@.len()
            <= config.max_features,
        0 <= i < p.tracker.features.len(),
        p.tracker.features[i].state == FeatureState::Lost,
    ensures
        ({
            let after = proceeded(p, config, answer).tracker.features;
            &&& i < after.len()
            &&& after[i].id == p.tracker.features[i].id
            &&& after[i].state == FeatureState::Lost
        }),
{
    let s = p.tracker;
    let n = s.features.len();
    match answer {
        Answer::Pose { solve } => {
            if let Some(v) = solve {
                lemma_marking_keeps_lost(s.features, s.map, v.inliers@, n, i);
            }
        },
        Answer::Points { points } => {
            lemma_gaining_keeps_lost(
                s.features,
                s.keyframe->0.observations,
                points@,
                s.next_landmark_id,
                n,
                i,
            );
        },
        Answer::FirstMap { map } => {
            if let Some(m) = map {
                lemma_bootstrap_keeps_lost(s, m.pose, m.covariance, m.seeds@, i);
            }
        },
        Answer::Corners { corners } => {
            let live = live_count(s.features, n);
            if live < config.max_features {
                let spare = (config.max_features - live - corners@.len()) as nat;
                lemma_room_retains_all(s.features, spare, n);
                assert(s.features.take(n as int) =~= s.features);
            }
        },
        _ => {},
    }
}

/// The next frame begins without the features that the last one lost.
pub proof fn law_lost_features_go_with_the_next_frame<V, X, P, C>(
    s: Snapshot<V, X, P, C>,
    low_light: bool,
    refill_floor: usize,
    origin: P,
    i: int,
)
    requires
        0 <= i < begun(s, low_light, refill_floor, origin).tracker.features.len(),
    ensures
        begun(s, low_light, refill_floor, origin).tracker.features[i].state != FeatureState::Lost,
{
    lemma_no_room_retains_none(s.features, s.features.len(), i);
}

} // verus!
