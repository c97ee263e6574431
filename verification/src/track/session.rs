//! A whole session: what holds of a tracker after any frames, resets,
//! relocalizations and changes of frame, in any order.

use vstd::prelude::*;

use crate::track::frame::{
    answers_left, begun, closed, fits, founded, law_frame_ends, lemma_proceeding, outcome_of, posed,
    proceeded, topping_up, Answer, Progress, Stage, TrackOutcome,
};
use crate::track::tracker::{
    adjusted, fresh, map_capacity, refilled, relocalized, transformed, PoseSolve, Snapshot,
    TrackConfig, TrackingState, Transformed, MIN_PNP_CORRESPONDENCES,
};
use crate::track::validity::{
    lemma_beginning_keeps_wf, lemma_pairs_need_a_map, lemma_solve_keeps_wf, lemma_transforming_keeps_wf,
};

verus! {

/// Something that happens to a tracker.
#[verifier::reject_recursive_types(V)]
#[verifier::reject_recursive_types(X)]
#[verifier::reject_recursive_types(P)]
#[verifier::reject_recursive_types(C)]
pub enum Event<V, X, P, C> {
    /// A frame. `geometry` is what its image, and all that goes with it, answers to
    /// each stage: the same to the same question.
    Frame {
        low_light: bool,
        refill_floor: usize,
        origin: P,
        geometry: spec_fn(Progress<V, X, P, C>) -> Answer<V, X, P, C>,
    },
    /// The session is started over.
    Reset,
    /// A pose is supplied from elsewhere.
    Relocalized { pose: P },
    /// The world is expressed in another frame.
    Moved { to: Transformed<X, P, C> },
}

/// A frame after at most `n` more answers.
#[verifier::opaque]
pub open spec fn played<V, X, P, C>(
    p: Progress<V, X, P, C>,
    config: TrackConfig,
    geometry: spec_fn(Progress<V, X, P, C>) -> Answer<V, X, P, C>,
    n: nat,
) -> Progress<V, X, P, C>
    decreases n,
{
    if n == 0 || p.run.stage == Stage::Done {
        p
    } else {
        played(proceeded(p, config, geometry(p)), config, geometry, (n - 1) as nat)
    }
}

/// The next `n` answers to a frame fit what was asked.
#[verifier::opaque]
pub open spec fn answers_fit<V, X, P, C>(
    p: Progress<V, X, P, C>,
    config: TrackConfig,
    geometry: spec_fn(Progress<V, X, P, C>) -> Answer<V, X, P, C>,
    n: nat,
) -> bool
    decreases n,
{
    n == 0 || p.run.stage == Stage::Done || (fits(p, config, geometry(p)) && answers_fit(
        proceeded(p, config, geometry(p)),
        config,
        geometry,
        (n - 1) as nat,
    ))
}

/// A frame from beginning to end.
pub open spec fn frame_of<V, X, P, C>(
    s: Snapshot<V, X, P, C>,
    config: TrackConfig,
    event: Event<V, X, P, C>,
) -> Progress<V, X, P, C>
    recommends
        event is Frame,
{
    let start = begun(s, event->low_light, event->refill_floor, event->origin);
    played(start, config, event->geometry, answers_left(Stage::Flow))
}

/// What is left of a state after an event.
pub open spec fn after_event<V, X, P, C>(
    s: Snapshot<V, X, P, C>,
    config: TrackConfig,
    event: Event<V, X, P, C>,
) -> Snapshot<V, X, P, C> {
    match event {
        Event::Frame { .. } => frame_of(s, config, event).tracker,
        Event::Reset => fresh(),
        Event::Relocalized { pose } => relocalized(s, pose),
        Event::Moved { to } => transformed(s, to),
    }
}

/// Whether an event can happen to a state: a frame can still be numbered and its
/// answers fit, and a change of frame leaves nothing out.
pub open spec fn can_happen<V, X, P, C>(
    s: Snapshot<V, X, P, C>,
    config: TrackConfig,
    event: Event<V, X, P, C>,
) -> bool {
    match event {
        Event::Frame { low_light, refill_floor, origin, geometry } => {
            &&& s.frame_index < u64::MAX
            &&& s.frame_index < usize::MAX
            &&& answers_fit(
                begun(s, low_light, refill_floor, origin),
                config,
                geometry,
                answers_left(Stage::Flow),
            )
        },
        Event::Moved { to } => to.covers(s),
        _ => true,
    }
}

/// The state of a tracker after a session.
pub open spec fn session<V, X, P, C>(
    config: TrackConfig,
    events: Seq<Event<V, X, P, C>>,
) -> Snapshot<V, X, P, C>
    decreases events.len(),
{
    if events.len() == 0 {
        fresh()
    } else {
        after_event(session(config, events.drop_last()), config, events.last())
    }
}

/// Whether every event of a session could happen when it did.
pub open spec fn is_session<V, X, P, C>(
    config: TrackConfig,
    events: Seq<Event<V, X, P, C>>,
) -> bool
    decreases events.len(),
{
    events.len() == 0 || (is_session(config, events.drop_last()) && can_happen(
        session(config, events.drop_last()),
        config,
        events.last(),
    ))
}

/// What event `k` of a session gave, where it was a frame.
pub open spec fn outcome_at<V, X, P, C>(
    config: TrackConfig,
    events: Seq<Event<V, X, P, C>>,
    k: int,
) -> Option<TrackOutcome<P, C>> {
    if events[k] is Frame {
        Some(outcome_of(frame_of(session(config, events.take(k)), config, events[k])))
    } else {
        None
    }
}

/// How many frames of a session gave no pose, since it was last started over.
pub open spec fn frames_without_pose<V, X, P, C>(
    config: TrackConfig,
    events: Seq<Event<V, X, P, C>>,
) -> nat
    decreases events.len(),
{
    if events.len() == 0 {
        0
    } else {
        let before = events.drop_last();
        match events.last() {
            Event::Frame { .. } => frames_without_pose(config, before) + if frame_of(
                session(config, before),
                config,
                events.last(),
            ).run.solve.solved {
                0nat
            } else {
                1nat
            },
            Event::Reset => 0,
            _ => frames_without_pose(config, before),
        }
    }
}

// ---------------------------------------------------------------------------
// Laws
// ---------------------------------------------------------------------------

proof fn lemma_played<V, X, P, C>(
    p: Progress<V, X, P, C>,
    config: TrackConfig,
    geometry: spec_fn(Progress<V, X, P, C>) -> Answer<V, X, P, C>,
    n: nat,
)
    requires
        p.tracker.wf(config),
        p.wf(config),
        answers_fit(p, config, geometry, n),
        answers_left(p.run.stage) <= n,
    ensures
        played(p, config, geometry, n).tracker.wf(config),
        played(p, config, geometry, n).wf(config),
        played(p, config, geometry, n).run.stage == Stage::Done,
        played(p, config, geometry, n).run.failures_before == p.run.failures_before,
    decreases n,
{
    reveal_with_fuel(played, 2);
    reveal_with_fuel(answers_fit, 2);
    if n > 0 && p.run.stage != Stage::Done {
        let next = proceeded(p, config, geometry(p));
        lemma_proceeding(p, config, geometry(p));
        law_frame_ends(p, config, geometry(p));
        lemma_answer_keeps_count(p, config, geometry(p));
        lemma_played(next, config, geometry, (n - 1) as nat);
    }
}

/// A frame that can happen comes to its end, and leaves the tracker and the frame
/// in a valid state.
pub proof fn law_frame_comes_to_its_end<V, X, P, C>(
    s: Snapshot<V, X, P, C>,
    config: TrackConfig,
    event: Event<V, X, P, C>,
)
    requires
        s.wf(config),
        event is Frame,
        can_happen(s, config, event),
    ensures
        frame_of(s, config, event).run.stage == Stage::Done,
        frame_of(s, config, event).tracker.wf(config),
        frame_of(s, config, event).wf(config),
        frame_of(s, config, event).run.failures_before == s.failures.sum(),
{
    let start = begun(s, event->low_light, event->refill_floor, event->origin);
    lemma_beginning_keeps_wf(s, config);
    lemma_played(start, config, event->geometry, answers_left(Stage::Flow));
}

/// After any session, the features are within their budget and none of them share
/// an id, the map is bounded by four landmarks for each feature of the budget, and
/// the state is valid.
pub proof fn law_sessions_keep_their_bounds<V, X, P, C>(
    config: TrackConfig,
    events: Seq<Event<V, X, P, C>>,
)
    requires
        is_session(config, events),
    ensures
        session(config, events).wf(config),
        session(config, events).features.len() <= config.max_features,
        session(config, events).map.len() <= map_capacity(config),
        session(config, events).map.len() <= 4 * config.max_features,
        forall|i: int, j: int|
            #![trigger session(config, events).features[i], session(config, events).features[j]]
            0 <= i < j < session(config, events).features.len() ==> session(
                config,
                events,
            ).features[i].id != session(config, events).features[j].id,
    decreases events.len(),
{
    if events.len() > 0 {
        let before = session(config, events.drop_last());
        law_sessions_keep_their_bounds(config, events.drop_last());
        match events.last() {
            Event::Frame { .. } => {
                law_frame_comes_to_its_end(before, config, events.last());
            },
            Event::Moved { to } => {
                lemma_transforming_keeps_wf(before, config, to);
            },
            _ => {},
        }
    }
}

/// What a frame of a session reports is how the tracker stands after it. A frame
/// that founds a map is a keyframe, and tracking is claimed only with a pose that
/// enough correspondences support.
pub proof fn law_outcomes_are_sound<V, X, P, C>(
    config: TrackConfig,
    events: Seq<Event<V, X, P, C>>,
    event: Event<V, X, P, C>,
)
    requires
        event is Frame,
        is_session(config, events.push(event)),
    ensures
        ({
            let outcome = outcome_of(frame_of(session(config, events), config, event));
            let after = session(config, events.push(event));
            &&& outcome.state == after.state
            &&& outcome.pose == after.pose
            &&& outcome.bootstrapped ==> outcome.is_keyframe && outcome.pose is Some
            &&& outcome.state == TrackingState::Tracking ==> outcome.pose is Some
                && outcome.inlier_count >= MIN_PNP_CORRESPONDENCES
        }),
{
    assert(events.push(event).drop_last() =~= events);
    law_sessions_keep_their_bounds(config, events);
    law_frame_comes_to_its_end(session(config, events), config, event);
}

/// The failure counters sum to the frames that gave no pose: each of those is
/// counted once, and no other.
pub proof fn law_failed_frames_are_counted_once<V, X, P, C>(
    config: TrackConfig,
    events: Seq<Event<V, X, P, C>>,
)
    requires
        is_session(config, events),
    ensures
        session(config, events).failures.sum() == frames_without_pose(config, events),
    decreases events.len(),
{
    if events.len() > 0 {
        let before = events.drop_last();
        law_failed_frames_are_counted_once(config, before);
        law_sessions_keep_their_bounds(config, before);
        if events.last() is Frame {
            law_frame_comes_to_its_end(session(config, before), config, events.last());
        }
    }
}

/// How the failures of a frame under way are counted, `start` being the state
/// before it.
spec fn is_counted<V, X, P, C>(p: Progress<V, X, P, C>, start: Snapshot<V, X, P, C>) -> bool {
    let f = p.tracker.failures;
    let g = start.failures;
    let solved = p.run.solve.solved;
    let no_map = start.map.len() == 0;
    match p.run.stage {
        Stage::Flow | Stage::Pose => f == g && p.tracker.map == start.map,
        Stage::Done => {
            &&& f.awaiting_bootstrap == g.awaiting_bootstrap + (if no_map && !solved {
                1int
            } else {
                0int
            })
            &&& no_map ==> {
                &&& f.too_few_correspondences == g.too_few_correspondences
                &&& f.ransac_failed == g.ransac_failed
                &&& f.too_few_inliers == g.too_few_inliers
                &&& solved == p.run.bootstrapped
            }
        },
        _ => {
            &&& f.awaiting_bootstrap == g.awaiting_bootstrap
            &&& no_map ==> f == g && solved == p.run.bootstrapped && (p.run.stage == Stage::FirstMap
                || p.run.stage == Stage::Corners)
            &&& !no_map && !solved ==> f.sum() == g.sum() + 1
        },
    }
}

/// What holds of the failures of a frame before it is closed.
spec fn is_counted_so_far<V, X, P, C>(
    p: Progress<V, X, P, C>,
    start: Snapshot<V, X, P, C>,
) -> bool {
    let f = p.tracker.failures;
    let g = start.failures;
    let solved = p.run.solve.solved;
    let no_map = start.map.len() == 0;
    &&& p.run.failures_before == g.sum()
    &&& p.run.failures_before < p.tracker.frame_index <= usize::MAX
    &&& solved ==> f.sum() == g.sum()
    &&& f.awaiting_bootstrap == g.awaiting_bootstrap
    &&& no_map ==> f == g && solved == p.run.bootstrapped
    &&& !no_map && !solved ==> f.sum() == g.sum() + 1
}

proof fn lemma_closing_counts<V, X, P, C>(
    p: Progress<V, X, P, C>,
    start: Snapshot<V, X, P, C>,
    config: TrackConfig,
)
    requires
        is_counted_so_far(p, start),
    ensures
        is_counted(closed(p, config), start),
{
}

proof fn lemma_topping_up_counts<V, X, P, C>(
    p: Progress<V, X, P, C>,
    start: Snapshot<V, X, P, C>,
    config: TrackConfig,
)
    requires
        is_counted_so_far(p, start),
    ensures
        is_counted(topping_up(p, config), start),
{
    lemma_closing_counts(p, start, config);
}

proof fn lemma_posing_counts<V, X, P, C>(
    p: Progress<V, X, P, C>,
    start: Snapshot<V, X, P, C>,
    config: TrackConfig,
    solve: Option<PoseSolve<P, C>>,
)
    requires
        p.tracker.wf(config),
        p.wf(config),
        p.run.stage == Stage::Pose,
        is_counted(p, start),
        !p.run.bootstrapped,
    ensures
        is_counted(posed(p, solve), start),
{
    lemma_solve_keeps_wf(p.tracker, config, solve);
    if start.map.len() == 0 {
        lemma_pairs_need_a_map(p.tracker.features, p.tracker.map, p.tracker.features.len());
    }
}

proof fn lemma_answer_counts<V, X, P, C>(
    p: Progress<V, X, P, C>,
    start: Snapshot<V, X, P, C>,
    config: TrackConfig,
    answer: Answer<V, X, P, C>,
)
    requires
        p.tracker.wf(config),
        p.wf(config),
        p.run.failures_before == start.failures.sum(),
        is_counted(p, start),
        fits(p, config, answer),
    ensures
        is_counted(proceeded(p, config, answer), start),
{
    let s = p.tracker;
    match answer {
        Answer::Flow { .. } => {},
        Answer::Pose { solve } => {
            lemma_posing_counts(p, start, config, solve);
        },
        Answer::Motion { .. } => {
            lemma_topping_up_counts(p, start, config);
        },
        Answer::Points { .. } => {},
        Answer::Window { adjusted: window } => {
            if let Some(w) = window {
                let moved = Progress {
                    tracker: adjusted(s, w.ids@, w.points@, w.poses@, w.live),
                    ..p
                };
                lemma_topping_up_counts(moved, start, config);
            }
            lemma_topping_up_counts(p, start, config);
        },
        Answer::FirstMap { map } => {
            lemma_topping_up_counts(founded(p, map), start, config);
        },
        Answer::Corners { corners } => {
            let filled = Progress { tracker: refilled(s, config, corners@), ..p };
            lemma_closing_counts(filled, start, config);
        },
    }
}

proof fn lemma_counted<V, X, P, C>(
    p: Progress<V, X, P, C>,
    start: Snapshot<V, X, P, C>,
    config: TrackConfig,
    geometry: spec_fn(Progress<V, X, P, C>) -> Answer<V, X, P, C>,
    n: nat,
)
    requires
        p.tracker.wf(config),
        p.wf(config),
        p.run.failures_before == start.failures.sum(),
        is_counted(p, start),
        answers_fit(p, config, geometry, n),
    ensures
        is_counted(played(p, config, geometry, n), start),
    decreases n,
{
    reveal_with_fuel(played, 2);
    reveal_with_fuel(answers_fit, 2);
    if n > 0 && p.run.stage != Stage::Done {
        lemma_proceeding(p, config, geometry(p));
        lemma_answer_counts(p, start, config, geometry(p));
        lemma_answer_keeps_count(p, config, geometry(p));
        lemma_counted(
            proceeded(p, config, geometry(p)),
            start,
            config,
            geometry,
            (n - 1) as nat,
        );
    }
}

/// A frame goes on knowing how many failures there were before it.
proof fn lemma_answer_keeps_count<V, X, P, C>(
    p: Progress<V, X, P, C>,
    config: TrackConfig,
    answer: Answer<V, X, P, C>,
)
    ensures
        proceeded(p, config, answer).run.failures_before == p.run.failures_before,
{
}

/// Without a map, a frame waits for the bootstrap or succeeds at it: one that gives
/// no pose is counted as waiting and as nothing else, and one that founds a map is
/// not counted at all. With a map, no frame is counted as waiting for one.
pub proof fn law_waiting_means_there_is_no_map<V, X, P, C>(
    s: Snapshot<V, X, P, C>,
    config: TrackConfig,
    event: Event<V, X, P, C>,
)
    requires
        s.wf(config),
        event is Frame,
        can_happen(s, config, event),
    ensures
        ({
            let p = frame_of(s, config, event);
            let before = s.failures;
            let after = p.tracker.failures;
            &&& s.map.len() == 0 && p.run.bootstrapped ==> after == before
            &&& s.map.len() == 0 && !p.run.bootstrapped ==> {
                &&& after.awaiting_bootstrap == before.awaiting_bootstrap + 1
                &&& after.too_few_correspondences == before.too_few_correspondences
                &&& after.ransac_failed == before.ransac_failed
                &&& after.too_few_inliers == before.too_few_inliers
            }
            &&& s.map.len() > 0 ==> after.awaiting_bootstrap == before.awaiting_bootstrap
        }),
{
    let start = begun(s, event->low_light, event->refill_floor, event->origin);
    lemma_beginning_keeps_wf(s, config);
    law_frame_comes_to_its_end(s, config, event);
    lemma_counted(start, s, config, event->geometry, answers_left(Stage::Flow));
}

/// A session that is started over replays identically: whatever came before the
/// reset, the events after it leave the tracker as they would have left a new one,
/// and every frame among them gives the same outcome.
pub proof fn law_reset_session_replays<V, X, P, C>(
    config: TrackConfig,
    before: Seq<Event<V, X, P, C>>,
    after: Seq<Event<V, X, P, C>>,
)
    ensures
        session(config, before.push(Event::Reset) + after) == session(config, after),
        is_session(config, before) ==> is_session(config, before.push(Event::Reset) + after)
            == is_session(config, after),
        forall|k: int|
            0 <= k < after.len() ==> outcome_at(
                config,
                before.push(Event::Reset) + after,
                before.len() + 1 + k,
            ) == #[trigger] outcome_at(config, after, k),
    decreases after.len(),
{
    let all = before.push(Event::Reset) + after;
    if after.len() == 0 {
        assert(all =~= before.push(Event::Reset));
        assert(all.drop_last() =~= before);
        assert(all.last() == Event::<V, X, P, C>::Reset);
    } else {
        let shorter = after.drop_last();
        let m = shorter.len() as int;
        law_reset_session_replays(config, before, shorter);
        assert(all.drop_last() =~= before.push(Event::Reset) + shorter);
        assert(all.last() == after.last());
        assert forall|k: int| 0 <= k < after.len() implies outcome_at(
            config,
            all,
            before.len() + 1 + k,
        ) == #[trigger] outcome_at(config, after, k) by {
            let at = before.len() + 1 + k;
            assert(all[at] == after[k]);
            if k < m {
                let fewer = before.push(Event::Reset) + shorter;
                assert(outcome_at(config, fewer, at) == outcome_at(config, shorter, k));
                assert(fewer[at] == all[at]);
                assert(shorter[k] == after[k]);
                assert(fewer.take(at) =~= all.take(at));
                assert(shorter.take(k) =~= after.take(k));
            } else {
                assert(all.take(at) =~= before.push(Event::Reset) + shorter);
                assert(after.take(k) =~= shorter);
            }
        }
    }
}

} // verus!
