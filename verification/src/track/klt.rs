//! The decisions of pyramidal flow: which levels are solved, when a track has
//! failed and how, and what the round trip says of it.
//!
//! `V` is the type of a pixel position and `R` that of a residual. The solver of
//! one level works outside; it is told which level to solve next and reports
//! what came of it.

use vstd::prelude::*;

verus! {

/// Why a track ended where it did.
#[derive(Debug, Clone, Copy, PartialEq, Eq, Structural)]
pub enum KltStatus {
    /// Converged inside the image with an acceptable residual.
    Converged,
    /// Hit the iteration cap while still moving.
    NotConverged,
    /// Walked outside the usable image area.
    OutOfBounds,
    /// The template patch has no corner, so the displacement is unobservable.
    IllConditioned,
    /// Converged onto something that does not look like the template.
    HighError,
    /// Tracking back from the result does not return to the start.
    InconsistentBackward,
}

/// Result of tracking one point.
#[derive(Debug, Clone, Copy)]
pub struct KltTrack<V, R> {
    /// Position in the next frame. Meaningful only when the track is usable.
    pub px: V,
    /// Outcome.
    pub status: KltStatus,
    /// Residual over the finest patch solved.
    pub error: R,
    /// Round-trip distance.
    pub fb_error: R,
}

impl<V: Copy, R: Copy> KltTrack<V, R> {
    /// Whether the track should be used.
    pub fn ok(&self) -> (ok: bool)
        ensures
            ok == (self.status == KltStatus::Converged),
    {
        self.status == KltStatus::Converged
    }
}

/// The level at which a track starts: the coarsest that both pyramids have and
/// the caller allows.
pub fn starting_level(prev_top: u32, next_top: u32, max_level: u32) -> (top: u32)
    ensures
        top <= prev_top,
        top <= next_top,
        top <= max_level,
        top == prev_top || top == next_top || top == max_level,
        forall|level: u32|
            level <= top <==> #[trigger] is_had_by_both(level, prev_top, next_top, max_level),
{
    let shallow: u32 = if prev_top <= next_top {
        prev_top
    } else {
        next_top
    };
    if shallow <= max_level {
        shallow
    } else {
        max_level
    }
}

/// What came of one level.
#[derive(Debug, Clone, Copy)]
pub enum LevelEvent<V, R> {
    /// The level was not built, or the template patch does not fit in it.
    Skipped,
    /// The level was solved.
    Solved { px: V, error: R, converged: bool, out_of_bounds: bool },
    /// The level could not be solved.
    Failed { status: KltStatus },
}

/// One direction of the flow, coarse to fine.
#[derive(Debug, Clone, Copy)]
pub struct DirectedFlow<V, R> {
    /// Level to be solved next, or `None` when no level is left.
    pub level: Option<u32>,
    /// Best position so far, in full-resolution pixels.
    pub current: V,
    /// Residual of the last level solved.
    pub error: R,
    /// Whether any level was solved.
    pub solved_any: bool,
    /// Why the track failed, if it has.
    pub failure: Option<KltStatus>,
}

/// The level below `level`.
pub open spec fn next_finer(level: u32) -> Option<u32> {
    if level == 0 {
        None
    } else {
        Some((level - 1) as u32)
    }
}

/// The flow once `event` has come of its current level.
pub open spec fn flow_after<V, R>(flow: DirectedFlow<V, R>, event: LevelEvent<V, R>) -> DirectedFlow<
    V,
    R,
> {
    match flow.level {
        None => flow,
        Some(level) => match event {
            LevelEvent::Skipped => DirectedFlow { level: next_finer(level), ..flow },
            LevelEvent::Solved { px, error, converged, out_of_bounds } => {
                let failure = if out_of_bounds {
                    Some(KltStatus::OutOfBounds)
                } else if !converged && level == 0 {
                    Some(KltStatus::NotConverged)
                } else {
                    None
                };
                DirectedFlow {
                    level: if failure is Some {
                        None
                    } else {
                        next_finer(level)
                    },
                    current: px,
                    error,
                    solved_any: true,
                    failure,
                }
            },
            LevelEvent::Failed { status } => if level == 0 {
                DirectedFlow { level: None, failure: Some(status), ..flow }
            } else {
                DirectedFlow { level: next_finer(level), ..flow }
            },
        },
    }
}

/// The outcome of a flow that has no level left.
pub open spec fn flow_status<V, R>(flow: DirectedFlow<V, R>, error_is_high: bool) -> KltStatus {
    match flow.failure {
        Some(status) => status,
        None => if !flow.solved_any {
            KltStatus::IllConditioned
        } else if error_is_high {
            KltStatus::HighError
        } else {
            KltStatus::Converged
        },
    }
}

impl<V: Copy, R: Copy> DirectedFlow<V, R> {
    /// A flow that has not failed and has levels down to zero to go.
    pub open spec fn is_running(self) -> bool {
        self.level is Some && self.failure is None
    }

    /// Start at level `top` from `guess`; `unsolved` is the residual reported
    /// while no level has been solved.
    pub fn start(top: u32, guess: V, unsolved: R) -> (flow: DirectedFlow<V, R>)
        ensures
            flow == (DirectedFlow {
                level: Some(top),
                current: guess,
                error: unsolved,
                solved_any: false,
                failure: None,
            }),
    {
        DirectedFlow {
            level: Some(top),
            current: guess,
            error: unsolved,
            solved_any: false,
            failure: None,
        }
    }

    /// Take note of what came of the current level.
    ///
    /// A coarse level without structure is common and harmless. Leaving the
    /// image ends the track at any level, and so does anything but convergence
    /// at level zero.
    pub fn advance(&mut self, event: LevelEvent<V, R>)
        requires
            old(self).is_running(),
        ensures
            *final(self) == flow_after(*old(self), event),
    {
        if let Some(level) = self.level {
            let finer: Option<u32> = if level == 0 {
                None
            } else {
                Some(level - 1)
            };
            match event {
                LevelEvent::Skipped => {
                    self.level = finer;
                },
                LevelEvent::Solved { px, error, converged, out_of_bounds } => {
                    self.current = px;
                    self.error = error;
                    self.solved_any = true;
                    if out_of_bounds {
                        self.level = None;
                        self.failure = Some(KltStatus::OutOfBounds);
                    } else if !converged && level == 0 {
                        self.level = None;
                        self.failure = Some(KltStatus::NotConverged);
                    } else {
                        self.level = finer;
                    }
                },
                LevelEvent::Failed { status } => {
                    if level == 0 {
                        self.level = None;
                        self.failure = Some(status);
                    } else {
                        self.level = finer;
                    }
                },
            }
        }
    }

    /// The track, once no level is left. `error_is_high` says whether the
    /// residual exceeds the limit, `no_error` and `far` are the round-trip
    /// distances reported for a usable track and for a failed one.
    pub fn finish(&self, error_is_high: bool, no_error: R, far: R) -> (track: KltTrack<V, R>)
        requires
            self.level is None,
        ensures
            track.status == flow_status(*self, error_is_high),
            track.px == self.current,
            track.error == self.error,
            track.fb_error == (if track.status == KltStatus::Converged {
                no_error
            } else {
                far
            }),
    {
        let status: KltStatus = match self.failure {
            Some(status) => status,
            None => {
                if !self.solved_any {
                    KltStatus::IllConditioned
                } else if error_is_high {
                    KltStatus::HighError
                } else {
                    KltStatus::Converged
                }
            },
        };
        KltTrack {
            px: self.current,
            status,
            error: self.error,
            fb_error: if status == KltStatus::Converged {
                no_error
            } else {
                far
            },
        }
    }
}

/// The flow after a run of levels.
pub open spec fn flow_through<V, R>(
    flow: DirectedFlow<V, R>,
    events: Seq<LevelEvent<V, R>>,
) -> DirectedFlow<V, R>
    decreases events.len(),
{
    if events.len() == 0 {
        flow
    } else {
        flow_after(flow_through(flow, events.drop_last()), events.last())
    }
}

/// Every level takes the flow one level down, so a flow ends after at most one
/// event for each level from its start to zero.
pub proof fn law_flow_ends<V, R>(flow: DirectedFlow<V, R>, events: Seq<LevelEvent<V, R>>)
    requires
        flow.level matches Some(top) && events.len() == top + 1,
    ensures
        flow_through(flow, events).level is None,
{
    lemma_levels_left(flow, events);
}

proof fn lemma_levels_left<V, R>(flow: DirectedFlow<V, R>, events: Seq<LevelEvent<V, R>>)
    requires
        flow.level is Some,
    ensures
        flow_through(flow, events).level matches Some(level) ==> level + events.len()
            <= flow.level->0,
    decreases events.len(),
{
    if events.len() > 0 {
        lemma_levels_left(flow, events.drop_last());
    }
}

/// What has ended stays as it ended, whatever is reported afterwards.
pub proof fn law_ended_flow_is_final<V, R>(flow: DirectedFlow<V, R>, events: Seq<LevelEvent<V, R>>)
    requires
        flow.level is None,
    ensures
        flow_through(flow, events) == flow,
    decreases events.len(),
{
    if events.len() > 0 {
        law_ended_flow_is_final(flow, events.drop_last());
    }
}

/// Leaving the image ends the track at any level, and so does a finest level
/// that did not converge or could not be solved.
pub proof fn law_fatal_levels_end_the_flow<V, R>(
    flow: DirectedFlow<V, R>,
    event: LevelEvent<V, R>,
)
    requires
        flow.level is Some,
        flow.failure is None,
    ensures
        event matches LevelEvent::Solved { out_of_bounds, .. } ==> out_of_bounds ==> flow_status(
            flow_after(flow, event),
            false,
        ) == KltStatus::OutOfBounds,
        event matches LevelEvent::Solved { out_of_bounds, converged, .. } ==> !out_of_bounds
            && !converged && flow.level == Some(0u32) ==> flow_status(
            flow_after(flow, event),
            false,
        ) == KltStatus::NotConverged,
        event matches LevelEvent::Failed { status } ==> flow.level == Some(0u32) ==> flow_status(
            flow_after(flow, event),
            false,
        ) == status,
{
}

/// A flow that has not failed gives a usable track exactly when some level was
/// solved and the residual is acceptable.
pub proof fn law_usable_track_was_solved<V, R>(flow: DirectedFlow<V, R>, error_is_high: bool)
    requires
        flow.failure is None,
    ensures
        flow_status(flow, error_is_high) == KltStatus::Converged <==> flow.solved_any
            && !error_is_high,
{
}

/// Trouble at a coarse level costs nothing but the level.
pub proof fn law_coarse_failure_is_harmless<V, R>(flow: DirectedFlow<V, R>, status: KltStatus)
    requires
        flow.level matches Some(level) && level > 0,
    ensures
        flow_after(flow, LevelEvent::Failed { status }) == flow_after(flow, LevelEvent::Skipped),
        flow_after(flow, LevelEvent::Failed { status }).failure == flow.failure,
        flow_after(flow, LevelEvent::Failed { status }).current == flow.current,
{
}

/// Whether the track has to be followed back to where it started.
pub fn needs_round_trip<V: Copy, R: Copy>(forward: &KltTrack<V, R>, check: bool) -> (needed: bool)
    ensures
        needed == (check && forward.status == KltStatus::Converged),
        needed == is_checked(*forward, check),
{
    check && forward.ok()
}

/// The track once the round trip has been made: `fb_error` is its distance and
/// `misses` says whether that exceeds the tolerance.
pub fn after_round_trip<V: Copy, R: Copy>(
    forward: &KltTrack<V, R>,
    fb_error: R,
    misses: bool,
) -> (track: KltTrack<V, R>)
    ensures
        track == (KltTrack {
            status: if misses {
                KltStatus::InconsistentBackward
            } else {
                forward.status
            },
            fb_error,
            ..*forward
        }),
        track == round_tripped(*forward, fb_error, misses),
{
    KltTrack {
        px: forward.px,
        status: if misses {
            KltStatus::InconsistentBackward
        } else {
            forward.status
        },
        error: forward.error,
        fb_error,
    }
}

/// The track when the round trip is not checked.
pub fn unchecked<V: Copy, R: Copy>(forward: &KltTrack<V, R>, no_error: R) -> (track: KltTrack<V, R>)
    ensures
        track == (KltTrack { fb_error: no_error, ..*forward }),
        track == round_tripped(*forward, no_error, false),
{
    KltTrack { px: forward.px, status: forward.status, error: forward.error, fb_error: no_error }
}

/// The outcome of a track that another front-end made and reported on.
pub fn reported_status(ok: bool, misses: bool) -> (status: KltStatus)
    ensures
        status == (if !ok {
            KltStatus::NotConverged
        } else if misses {
            KltStatus::InconsistentBackward
        } else {
            KltStatus::Converged
        }),
        status == status_reported(ok, misses),
{
    if !ok {
        KltStatus::NotConverged
    } else if misses {
        KltStatus::InconsistentBackward
    } else {
        KltStatus::Converged
    }
}

/// How the iterations of one level stand.
#[derive(Debug, Clone, Copy, PartialEq, Eq, Structural)]
pub enum LevelProgress {
    /// `left` more steps may be taken.
    Stepping { left: u32 },
    /// The last step was small enough.
    Settled,
    /// The patch left the image.
    Left,
}

/// The iterations of one level at their start.
pub fn begin_level(max_iterations: u32) -> (progress: LevelProgress)
    ensures
        progress == (LevelProgress::Stepping { left: max_iterations }),
        steps_left(progress) == max_iterations,
{
    LevelProgress::Stepping { left: max_iterations }
}

/// Whether a step may be taken, given whether the patch fits where it is now.
///
/// A patch that no longer fits ends the level.
pub fn may_step(progress: &mut LevelProgress, fits: bool) -> (go: bool)
    ensures
        match *old(progress) {
            LevelProgress::Stepping { left } => {
                &&& go == (left > 0 && fits)
                &&& *final(progress) == (if left > 0 && !fits {
                    LevelProgress::Left
                } else {
                    *old(progress)
                })
            },
            _ => !go && *final(progress) == *old(progress),
        },
        go == can_step(*old(progress), fits),
        *final(progress) == looked_at(*old(progress), fits),
{
    let now: LevelProgress = *progress;
    match now {
        LevelProgress::Stepping { left } => {
            if left > 0 && !fits {
                *progress = LevelProgress::Left;
            }
            left > 0 && fits
        },
        LevelProgress::Settled => false,
        LevelProgress::Left => false,
    }
}

/// Take note of a step, given whether it was small enough to settle.
pub fn stepped(progress: &mut LevelProgress, small: bool)
    requires
        *old(progress) matches LevelProgress::Stepping { left } && left > 0,
    ensures
        *final(progress) == (if small {
            LevelProgress::Settled
        } else {
            LevelProgress::Stepping { left: ((*old(progress))->left - 1) as u32 }
        }),
        *final(progress) == after_step(*old(progress), small),
{
    let now: LevelProgress = *progress;
    if let LevelProgress::Stepping { left } = now {
        *progress = if small {
            LevelProgress::Settled
        } else {
            LevelProgress::Stepping { left: left - 1 }
        };
    }
}

/// What a level reports once its iterations are over: whether it converged, and
/// whether it left the image. `fits` says whether the patch fits at the end.
pub fn level_report(progress: LevelProgress, fits: bool) -> (report: (bool, bool))
    ensures
        report.1 == (progress == LevelProgress::Left || !fits),
        report.0 == (progress == LevelProgress::Settled && fits),
        report == report_of(progress, fits),
{
    let left: bool = match progress {
        LevelProgress::Left => true,
        _ => !fits,
    };
    let settled: bool = match progress {
        LevelProgress::Settled => fits,
        _ => false,
    };
    (settled, left)
}

/// Features in the trial that decides whether the predicted positions are used.
pub const PRIOR_TRIAL_FEATURES: usize = 24;

/// Whether there are features enough to hold the trial.
pub fn trial_is_possible(features: usize) -> (possible: bool)
    ensures
        possible == (features >= 2 * PRIOR_TRIAL_FEATURES),
        possible == is_worth_a_trial(features as nat),
{
    features >= 48
}

/// The features of the trial: evenly spread over the list.
pub fn trial_features(features: usize) -> (indices: Vec<usize>)
    requires
        features >= 2 * PRIOR_TRIAL_FEATURES,
    ensures
        indices@.len() == PRIOR_TRIAL_FEATURES,
        forall|i: int|
            0 <= i < PRIOR_TRIAL_FEATURES ==> #[trigger] indices@[i] == i * (features as int
                / PRIOR_TRIAL_FEATURES as int),
        forall|i: int| 0 <= i < PRIOR_TRIAL_FEATURES ==> #[trigger] indices@[i] < features,
        indices@.len() == 24,
        indices@[0] == 0,
        forall|i: int|
            0 <= i < 23 ==> #[trigger] indices@[i + 1] - indices@[i] == features as int / 24,
{
    let stride: usize = features / PRIOR_TRIAL_FEATURES;
    let mut indices: Vec<usize> = Vec::new();
    let mut i: usize = 0;
    while i < PRIOR_TRIAL_FEATURES
        invariant
            i <= PRIOR_TRIAL_FEATURES,
            stride == features as int / PRIOR_TRIAL_FEATURES as int,
            indices@.len() == i,
            forall|k: int| 0 <= k < i ==> #[trigger] indices@[k] == k * stride,
            forall|k: int| 0 <= k < i ==> #[trigger] indices@[k] < features,
            features >= 2 * PRIOR_TRIAL_FEATURES,
        decreases PRIOR_TRIAL_FEATURES - i,
    {
        assert(0 <= i * stride <= 23 * stride) by (nonlinear_arith)
            requires
                0 <= i <= 23,
                0 <= stride,
        ;
        assert(23 * stride < features);
        indices.push(i * stride);
        i = i + 1;
    }
    assert forall|i: int| 0 <= i < 23 implies #[trigger] indices@[i + 1] - indices@[i]
        == features as int / 24 by {
        assert((i + 1) * stride - i * stride == stride) by (nonlinear_arith);
        assert(indices@[i] == i * stride);
        assert(indices@[i + 1] == (i + 1) * stride);
    }
    indices
}

/// Whether the predicted positions take the frame: they must keep more of the
/// trial's features than the plain search does.
pub fn prediction_wins(kept_with: usize, kept_without: usize) -> (wins: bool)
    ensures
        wins == (kept_with > kept_without),
        wins == keeps_more(kept_with as nat, kept_without as nat),
{
    kept_with > kept_without
}

// ---------------------------------------------------------------------------
// What a whole flow reports
// ---------------------------------------------------------------------------

/// A level that is solved replaces position and residual, whatever was there before;
/// one that is skipped or fails changes neither.
pub proof fn law_solved_level_replaces_the_last<V, R>(
    flow: DirectedFlow<V, R>,
    event: LevelEvent<V, R>,
)
    requires
        flow.level is Some,
    ensures
        event matches LevelEvent::Solved { px, error, .. } ==> flow_after(flow, event).current == px
            && flow_after(flow, event).error == error && flow_after(flow, event).solved_any,
        !(event is Solved) ==> flow_after(flow, event).current == flow.current && flow_after(
            flow,
            event,
        ).error == flow.error && flow_after(flow, event).solved_any == flow.solved_any,
{
}

/// Levels are taken one by one, from coarse to fine: after an event a flow that has
/// not failed is at the next finer level, and after the finest it has none left.
pub proof fn law_levels_follow_each_other<V, R>(
    flow: DirectedFlow<V, R>,
    event: LevelEvent<V, R>,
)
    requires
        flow.level is Some,
        flow.failure is None,
        flow_after(flow, event).failure is None,
    ensures
        flow.level->0 > 0 ==> flow_after(flow, event).level == Some((flow.level->0 - 1) as u32),
        flow.level->0 == 0 ==> flow_after(flow, event).level is None,
{
}

/// Whether an event ends a flow at the level at which it comes: the patch left the
/// image, or the finest level did not converge or could not be solved.
spec fn ends_at<V, R>(event: LevelEvent<V, R>, level: int) -> bool {
    match event {
        LevelEvent::Skipped => false,
        LevelEvent::Solved { converged, out_of_bounds, .. } => out_of_bounds || (level == 0
            && !converged),
        LevelEvent::Failed { .. } => level == 0,
    }
}

proof fn lemma_flow_so_far<V, R>(
    flow: DirectedFlow<V, R>,
    events: Seq<LevelEvent<V, R>>,
    n: nat,
)
    requires
        flow.level is Some,
        flow.failure is None,
        n <= events.len() <= flow.level->0 + 1,
        forall|i: int| 0 <= i < n ==> !ends_at(#[trigger] events[i], flow.level->0 - i),
    ensures
        ({
            let f = flow_through(flow, events.take(n as int));
            &&& f.failure is None
            &&& f.level == (if n <= flow.level->0 {
                Some((flow.level->0 - n) as u32)
            } else {
                None
            })
            &&& f.solved_any == (flow.solved_any || exists|i: int|
                0 <= i < n && #[trigger] events[i] is Solved)
        }),
    decreases n,
{
    if n == 0 {
        assert(events.take(0).len() == 0);
    } else {
        lemma_flow_so_far(flow, events, (n - 1) as nat);
        assert(events.take(n as int).drop_last() =~= events.take(n - 1));
        assert(events.take(n as int).last() == events[n - 1]);
        let e = events[n - 1];
        assert(!ends_at(e, flow.level->0 - (n - 1)));
        if e is Solved {
            assert(0 <= n - 1 < n && events[n - 1] is Solved);
        }
        if exists|i: int| 0 <= i < n && #[trigger] events[i] is Solved {
            let i = choose|i: int| 0 <= i < n && #[trigger] events[i] is Solved;
            if i < n - 1 {
                assert(0 <= i < n - 1 && events[i] is Solved);
            }
        }
    }
}

proof fn lemma_flow_ended_at<V, R>(
    flow: DirectedFlow<V, R>,
    events: Seq<LevelEvent<V, R>>,
    k: int,
    n: nat,
)
    requires
        flow.level is Some,
        flow.failure is None,
        0 <= k < n <= events.len() <= flow.level->0 + 1,
        ends_at(events[k], flow.level->0 - k),
        forall|i: int| 0 <= i < k ==> !ends_at(#[trigger] events[i], flow.level->0 - i),
    ensures
        flow_through(flow, events.take(n as int)).level is None,
        flow_through(flow, events.take(n as int)).failure == Some(
            match events[k] {
                LevelEvent::Solved { out_of_bounds, .. } => if out_of_bounds {
                    KltStatus::OutOfBounds
                } else {
                    KltStatus::NotConverged
                },
                LevelEvent::Failed { status } => status,
                LevelEvent::Skipped => KltStatus::Converged,
            },
        ),
    decreases n,
{
    assert(events.take(n as int).drop_last() =~= events.take(n - 1));
    assert(events.take(n as int).last() == events[n - 1]);
    if k == n - 1 {
        lemma_flow_so_far(flow, events, k as nat);
    } else {
        lemma_flow_ended_at(flow, events, k, (n - 1) as nat);
    }
}

/// A point that leaves the image at any level is out of bounds, as long as it was
/// still followed then.
pub proof fn law_leaving_the_image_is_reported<V, R>(
    flow: DirectedFlow<V, R>,
    events: Seq<LevelEvent<V, R>>,
    k: int,
    error_is_high: bool,
)
    requires
        flow.level is Some,
        flow.failure is None,
        events.len() == flow.level->0 + 1,
        0 <= k < events.len(),
        events[k] matches LevelEvent::Solved { out_of_bounds, .. } && out_of_bounds,
        forall|i: int|
            0 <= i < k ==> !(#[trigger] events[i] matches LevelEvent::Solved { out_of_bounds, .. }
                && out_of_bounds),
    ensures
        flow_status(flow_through(flow, events), error_is_high) == KltStatus::OutOfBounds,
{
    assert(events.take(events.len() as int) =~= events);
    assert forall|i: int| 0 <= i < k implies !ends_at(#[trigger] events[i], flow.level->0 - i) by {}
    lemma_flow_ended_at(flow, events, k, events.len());
}

/// A point that stays in the image is judged at the finest level: one that is not
/// found there has failed, one that was not solved at any level is unobservable, and
/// of the others those whose residual is acceptable are usable.
pub proof fn law_status_of_a_point_that_stays<V, R>(
    flow: DirectedFlow<V, R>,
    events: Seq<LevelEvent<V, R>>,
    error_is_high: bool,
)
    requires
        flow.level is Some,
        flow.failure is None,
        !flow.solved_any,
        events.len() == flow.level->0 + 1,
        forall|i: int|
            0 <= i < events.len() ==> !(#[trigger] events[i] matches LevelEvent::Solved {
                out_of_bounds,
                ..
            } && out_of_bounds),
    ensures
        ({
            let status = flow_status(flow_through(flow, events), error_is_high);
            let finest = events.last();
            let solved = exists|i: int| 0 <= i < events.len() && #[trigger] events[i] is Solved;
            &&& finest matches LevelEvent::Failed { status: why } ==> status == why
            &&& finest matches LevelEvent::Solved { converged, .. } ==> !converged ==> status
                == KltStatus::NotConverged
            &&& finest is Skipped && !solved ==> status == KltStatus::IllConditioned
            &&& (finest is Skipped && solved) || (finest matches LevelEvent::Solved {
                converged,
                ..
            } && converged) ==> status == (if error_is_high {
                KltStatus::HighError
            } else {
                KltStatus::Converged
            })
        }),
{
    let n = events.len();
    let last = n - 1;
    assert(events.take(n as int) =~= events);
    assert forall|i: int| 0 <= i < last implies !ends_at(#[trigger] events[i], flow.level->0 - i) by {}
    if ends_at(events[last], 0) {
        lemma_flow_ended_at(flow, events, last, n);
    } else {
        lemma_flow_so_far(flow, events, n);
        if events.last() is Solved {
            assert(events[last] is Solved);
        }
    }
}

/// What a flow reports is what its last solved level gave: of a run of levels, the
/// position and the residual are those of the last one that was solved, and those it
/// began with if none was.
pub proof fn law_flow_reports_the_finest_solve<V, R>(
    flow: DirectedFlow<V, R>,
    events: Seq<LevelEvent<V, R>>,
    k: int,
)
    requires
        0 <= k < events.len(),
        flow_through(flow, events.take(k)).level is Some,
        events[k] is Solved,
        forall|i: int| k < i < events.len() ==> !(#[trigger] events[i] is Solved),
    ensures
        flow_through(flow, events).current == events[k]->px,
        flow_through(flow, events).error == events[k]->error,
    decreases events.len(),
{
    let before = events.drop_last();
    assert(events.take(k) =~= before.take(k));
    if k == events.len() - 1 {
        assert(events.take(k) =~= before);
    } else {
        assert(before[k] == events[k]);
        assert forall|i: int| k < i < before.len() implies !(#[trigger] before[i] is Solved) by {
            assert(before[i] == events[i]);
        }
        law_flow_reports_the_finest_solve(flow, before, k);
        assert(!(events[events.len() - 1] is Solved));
    }
}

/// A flow in which no level is solved stays where it began.
pub proof fn law_unsolved_flow_stays<V, R>(
    flow: DirectedFlow<V, R>,
    events: Seq<LevelEvent<V, R>>,
)
    requires
        forall|i: int| 0 <= i < events.len() ==> !(#[trigger] events[i] is Solved),
    ensures
        flow_through(flow, events).current == flow.current,
        flow_through(flow, events).error == flow.error,
        flow_through(flow, events).solved_any == flow.solved_any,
    decreases events.len(),
{
    if events.len() > 0 {
        let before = events.drop_last();
        assert forall|i: int| 0 <= i < before.len() implies !(#[trigger] before[i] is Solved) by {
            assert(before[i] == events[i]);
        }
        law_unsolved_flow_stays(flow, before);
        assert(!(events[events.len() - 1] is Solved));
    }
}

// ---------------------------------------------------------------------------
// Round trips, levels and predictions
// ---------------------------------------------------------------------------

/// Whether a track is followed back.
pub open spec fn is_checked<V, R>(forward: KltTrack<V, R>, check: bool) -> bool {
    check && forward.status == KltStatus::Converged
}

/// A track once it has been followed back.
pub open spec fn round_tripped<V, R>(
    forward: KltTrack<V, R>,
    fb_error: R,
    misses: bool,
) -> KltTrack<V, R> {
    KltTrack {
        status: if misses {
            KltStatus::InconsistentBackward
        } else {
            forward.status
        },
        fb_error,
        ..forward
    }
}

/// The outcome that another front-end reported.
pub open spec fn status_reported(ok: bool, misses: bool) -> KltStatus {
    if !ok {
        KltStatus::NotConverged
    } else if misses {
        KltStatus::InconsistentBackward
    } else {
        KltStatus::Converged
    }
}

/// A track that is followed back is usable exactly when it was so before and returns to
/// where it started. Where it leads and how well it fits is not changed by that, and the
/// distance by which it misses is reported. Only a usable track is followed back at all,
/// and only where that is wanted.
pub proof fn law_round_trip_only_rejects<V, R>(
    forward: KltTrack<V, R>,
    fb_error: R,
    misses: bool,
    check: bool,
)
    ensures
        ({
            let back = round_tripped(forward, fb_error, misses);
            &&& back.status == KltStatus::Converged <==> forward.status == KltStatus::Converged
                && !misses
            &&& misses ==> back.status == KltStatus::InconsistentBackward
            &&& !misses ==> back.status == forward.status
            &&& back.px == forward.px && back.error == forward.error && back.fb_error == fb_error
            &&& is_checked(forward, check) <==> check && forward.status == KltStatus::Converged
        }),
{
}

/// A track from elsewhere is usable exactly when it was found there and returns.
pub proof fn law_reported_track_has_to_return(ok: bool, misses: bool)
    ensures
        status_reported(ok, misses) == KltStatus::Converged <==> ok && !misses,
        ok && misses ==> status_reported(ok, misses) == KltStatus::InconsistentBackward,
        !ok ==> status_reported(ok, misses) == KltStatus::NotConverged,
{
}

/// Steps that a level may still take.
pub open spec fn steps_left(progress: LevelProgress) -> nat {
    match progress {
        LevelProgress::Stepping { left } => left as nat,
        _ => 0,
    }
}

/// Whether a level takes another step.
pub open spec fn can_step(progress: LevelProgress, fits: bool) -> bool {
    steps_left(progress) > 0 && fits
}

/// A level once it has been looked at whether the patch still fits.
pub open spec fn looked_at(progress: LevelProgress, fits: bool) -> LevelProgress {
    if steps_left(progress) > 0 && !fits {
        LevelProgress::Left
    } else {
        progress
    }
}

/// A level after a step.
pub open spec fn after_step(progress: LevelProgress, small: bool) -> LevelProgress {
    if small {
        LevelProgress::Settled
    } else {
        LevelProgress::Stepping { left: (steps_left(progress) - 1) as u32 }
    }
}

/// What a level reports: whether it converged, and whether it left the image.
pub open spec fn report_of(progress: LevelProgress, fits: bool) -> (bool, bool) {
    (progress == LevelProgress::Settled && fits, progress == LevelProgress::Left || !fits)
}

/// The level after a run of steps; for each, whether the patch fits before it and
/// whether it is small.
pub open spec fn level_after(start: LevelProgress, steps: Seq<(bool, bool)>) -> LevelProgress
    decreases steps.len(),
{
    if steps.len() == 0 {
        start
    } else {
        let before = level_after(start, steps.drop_last());
        let (fits, small) = steps.last();
        if can_step(before, fits) {
            after_step(before, small)
        } else {
            looked_at(before, fits)
        }
    }
}

proof fn lemma_level_goes_on(start: LevelProgress, steps: Seq<(bool, bool)>)
    requires
        steps.len() <= steps_left(start),
        forall|i: int| 0 <= i < steps.len() ==> #[trigger] steps[i] == (true, false),
    ensures
        steps.len() > 0 ==> level_after(start, steps) == (LevelProgress::Stepping {
            left: (steps_left(start) - steps.len()) as u32,
        }),
        steps_left(level_after(start, steps)) == steps_left(start) - steps.len(),
    decreases steps.len(),
{
    if steps.len() > 0 {
        let before = steps.drop_last();
        assert forall|i: int| 0 <= i < before.len() implies #[trigger] before[i] == (
            true,
            false,
        ) by {
            assert(before[i] == steps[i]);
        }
        lemma_level_goes_on(start, before);
        assert(steps[steps.len() - 1] == (true, false));
    }
}

/// A level converges exactly when a step is small before the steps run out, and the
/// patch fits throughout: as long as steps are large they are counted down, the first
/// small one settles the level, and the first time the patch does not fit ends it.
pub proof fn law_level_converges_on_a_small_step(
    start: LevelProgress,
    steps: Seq<(bool, bool)>,
    fits_at_the_end: bool,
)
    requires
        steps.len() < steps_left(start),
        forall|i: int| 0 <= i < steps.len() ==> #[trigger] steps[i] == (true, false),
    ensures
        ({
            let so_far = level_after(start, steps);
            let settled = level_after(start, steps.push((true, true)));
            let left = level_after(start, steps.push((false, true)));
            let on = level_after(start, steps.push((true, false)));
            &&& steps_left(so_far) == steps_left(start) - steps.len()
            &&& report_of(settled, fits_at_the_end) == (fits_at_the_end, !fits_at_the_end)
            &&& report_of(left, fits_at_the_end) == (false, true)
            &&& report_of(on, fits_at_the_end) == (false, !fits_at_the_end)
            &&& steps_left(on) == steps_left(so_far) - 1
            &&& steps_left(settled) == 0 && steps_left(left) == 0
        }),
{
    lemma_level_goes_on(start, steps);
    assert(steps.push((true, true)).drop_last() =~= steps);
    assert(steps.push((false, true)).drop_last() =~= steps);
    assert(steps.push((true, false)).drop_last() =~= steps);
}

/// A level whose steps have run out, or that has settled or left, takes no more.
pub proof fn law_level_takes_no_more_steps_than_it_may(progress: LevelProgress, fits: bool)
    requires
        steps_left(progress) == 0,
    ensures
        !can_step(progress, fits),
        looked_at(progress, fits) == progress,
{
}

/// Whether there are features enough to try a prediction on some of them.
pub open spec fn is_worth_a_trial(features: nat) -> bool {
    features >= 48
}

/// Whether a prediction keeps more of the trial's features.
pub open spec fn keeps_more(with: nat, without: nat) -> bool {
    with > without
}

/// A trial is held on twenty-four features, one of every so many, as long as that leaves
/// as many again. A prediction that keeps no more of them than the plain search is not
/// used, however good it is; one that keeps a single one more is.
pub proof fn law_prediction_has_to_keep_more(features: nat, kept: nat)
    ensures
        is_worth_a_trial(features) <==> features >= 24 + 24,
        !keeps_more(kept, kept),
        keeps_more(kept + 1, kept),
        !keeps_more(kept, kept + 1),
        PRIOR_TRIAL_FEATURES + PRIOR_TRIAL_FEATURES == 48,
{
}

/// Whether a level is one that both pyramids have and the caller allows.
pub open spec fn is_had_by_both(level: u32, prev_top: u32, next_top: u32, max_level: u32) -> bool {
    level <= prev_top && level <= next_top && level <= max_level
}

} // verus!
