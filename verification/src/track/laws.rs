//! What the stages of a frame do, in terms of features, landmarks, keyframes and
//! poses.

use vstd::prelude::*;

use crate::count::{how_many, lemma_how_many, lemma_how_many_bound};
use crate::track::frame::{
    begun, closed, fits, founded, outcome_of, proceeded, topping_up, AdjustedWindow, Answer,
    FirstMap, FrameRun, Progress, Stage,
};
use crate::track::local_map::{
    betters, ids_are_distinct, is_at, knows, place_of, survivors, with_sighting, Entry,
    LocalLandmark,
};
use crate::track::tracker::{
    abandoned, adjusted, after_bootstrap, after_solve, agrees, anchors, completed, ended,
    frame_begun, fresh, gains, graph_of, grown, harvest, ids_increase, is_adjustable, is_candidate,
    is_paired, is_solved, landmark_count, landmarks_are_given, landmarks_seen, lemma_with_gains,
    live_count, map_capacity, marked, matched, pairs_of, promoted, rearmed, refilled, relocalized,
    relocated, retained, seen_also, seen_at, sighted, slot_of, sown, transformed, verdict,
    with_keyframe, Correspondence, Covariance, Feature, FeatureState, FlowSummary, LimitedReason,
    Moved, PoseSolve, ReferenceView, Seed, Snapshot, SolveSummary, Sowing, TrackConfig,
    TrackingState, Transformed, WindowGraph, WindowProblem, WindowView,
};

verus! {

// ---------------------------------------------------------------------------
// Counting
// ---------------------------------------------------------------------------

proof fn lemma_landmarks_counted<V>(features: Seq<Feature<V>>, n: nat)
    requires
        n <= features.len(),
    ensures
        landmark_count(features, n) == how_many(
            n,
            |i: int| features[i].landmark is Some && features[i].state != FeatureState::Lost,
        ),
    decreases n,
{
    let p = |i: int| features[i].landmark is Some && features[i].state != FeatureState::Lost;
    if n > 0 {
        lemma_landmarks_counted(features, (n - 1) as nat);
        lemma_how_many(n, p);
    } else {
        lemma_how_many(1, p);
    }
}

/// The landmarks in view are counted by the features that carry one and were not
/// lost.
pub proof fn law_landmarks_in_view_are_counted<V>(features: Seq<Feature<V>>)
    ensures
        landmark_count(features, features.len()) == how_many(
            features.len(),
            |i: int| features[i].landmark is Some && features[i].state != FeatureState::Lost,
        ),
{
    lemma_landmarks_counted(features, features.len());
}

proof fn lemma_live_counted<V>(features: Seq<Feature<V>>, n: nat)
    requires
        n <= features.len(),
    ensures
        live_count(features, n) == how_many(n, |i: int| features[i].state != FeatureState::Lost),
    decreases n,
{
    let p = |i: int| features[i].state != FeatureState::Lost;
    if n > 0 {
        lemma_live_counted(features, (n - 1) as nat);
        lemma_how_many(n, p);
    } else {
        lemma_how_many(1, p);
    }
}

/// The features in the current frame are those that were not lost.
pub proof fn law_live_features_are_counted<V>(features: Seq<Feature<V>>)
    ensures
        live_count(features, features.len()) == how_many(
            features.len(),
            |i: int| features[i].state != FeatureState::Lost,
        ),
{
    lemma_live_counted(features, features.len());
}

// ---------------------------------------------------------------------------
// Keyframes
// ---------------------------------------------------------------------------

proof fn lemma_survivors_were_there<X>(
    map: Seq<Entry<X>>,
    frame: u64,
    ttl: u64,
    capacity: usize,
    n: nat,
    k: int,
)
    requires
        n <= map.len(),
        0 <= k < survivors(map, frame, ttl, capacity, n).len(),
    ensures
        map.contains(survivors(map, frame, ttl, capacity, n)[k]),
    decreases n,
{
    let before = survivors(map, frame, ttl, capacity, (n - 1) as nat);
    if k < before.len() {
        lemma_survivors_were_there(map, frame, ttl, capacity, (n - 1) as nat, k);
    } else {
        assert(survivors(map, frame, ttl, capacity, n)[k] == map[n - 1]);
    }
}

/// A frame becomes a keyframe only for a reason. Where the camera has not moved, and
/// the landmarks in view are either not running out or too few to go on with, no
/// keyframe is made: the frame does not become one, the window and the last keyframe
/// stay, and no landmark is added.
pub proof fn law_keyframe_needs_a_reason<V, X, P, C>(
    p: Progress<V, X, P, C>,
    config: TrackConfig,
    starving_below: usize,
)
    requires
        p.run.stage == Stage::Motion,
        !p.run.is_keyframe,
        ({
            let f = p.tracker.features;
            let in_view = how_many(
                f.len(),
                |i: int| f[i].landmark is Some && f[i].state != FeatureState::Lost,
            );
            in_view >= starving_below || in_view <= config.keyframe_min_tracked
        }),
    ensures
        ({
            let q = proceeded(
                p,
                config,
                Answer::<V, X, P, C>::Motion { has_moved: false, starving_below },
            );
            &&& q.run.stage == Stage::Corners || q.run.stage == Stage::Done
            &&& !q.run.is_keyframe
            &&& q.tracker.window == p.tracker.window
            &&& q.tracker.keyframe == p.tracker.keyframe
            &&& q.tracker.features == p.tracker.features
            &&& q.tracker.next_landmark_id == p.tracker.next_landmark_id
            &&& forall|k: int|
                0 <= k < q.tracker.map.len() ==> p.tracker.map.contains(#[trigger] q.tracker.map[k])
        }),
{
    let s = p.tracker;
    law_landmarks_in_view_are_counted(s.features);
    let q = proceeded(
        p,
        config,
        Answer::<V, X, P, C>::Motion { has_moved: false, starving_below },
    );
    assert forall|k: int| 0 <= k < q.tracker.map.len() implies s.map.contains(
        #[trigger] q.tracker.map[k],
    ) by {
        if q.run.stage == Stage::Done {
            lemma_survivors_were_there(
                s.map,
                s.frame_index,
                150,
                crate::track::tracker::map_capacity(config),
                s.map.len(),
                k,
            );
        }
    }
}

/// Nor is one made before enough frames have passed since the last, or where there
/// is none to go by.
pub proof fn law_keyframe_waits_its_turn<V, X, P, C>(
    p: Progress<V, X, P, C>,
    config: TrackConfig,
    has_moved: bool,
    starving_below: usize,
)
    requires
        p.run.stage == Stage::Motion,
        !p.run.is_keyframe,
        p.tracker.pose is None || p.tracker.keyframe is None || p.tracker.frames_since_keyframe
            < config.keyframe_min_frames || p.tracker.frames_since_keyframe == 0,
    ensures
        ({
            let q = proceeded(
                p,
                config,
                Answer::<V, X, P, C>::Motion { has_moved, starving_below },
            );
            &&& q.run.stage == Stage::Corners || q.run.stage == Stage::Done
            &&& !q.run.is_keyframe
            &&& q.tracker.window == p.tracker.window
            &&& q.tracker.keyframe == p.tracker.keyframe
            &&& q.tracker.next_landmark_id == p.tracker.next_landmark_id
        }),
{
}

/// With a pose, a keyframe to go by and enough frames passed, either reason alone
/// makes a keyframe: that the camera has moved, or that the landmarks run out while
/// there are still enough to go on with.
pub proof fn law_either_reason_makes_a_keyframe<V, X, P, C>(
    p: Progress<V, X, P, C>,
    config: TrackConfig,
    has_moved: bool,
    starving_below: usize,
)
    requires
        p.run.stage == Stage::Motion,
        p.tracker.pose is Some,
        p.tracker.keyframe is Some,
        p.tracker.frames_since_keyframe >= config.keyframe_min_frames,
        p.tracker.frames_since_keyframe > 0,
        has_moved || ({
            let f = p.tracker.features;
            let in_view = how_many(
                f.len(),
                |i: int| f[i].landmark is Some && f[i].state != FeatureState::Lost,
            );
            config.keyframe_min_tracked < in_view < starving_below
        }),
    ensures
        ({
            let q = proceeded(
                p,
                config,
                Answer::<V, X, P, C>::Motion { has_moved, starving_below },
            );
            q.run.stage == Stage::Points && q.tracker == p.tracker
        }),
{
    law_landmarks_in_view_are_counted(p.tracker.features);
}

// ---------------------------------------------------------------------------
// Flow
// ---------------------------------------------------------------------------

proof fn lemma_retained_is_filter<V>(features: Seq<Feature<V>>, n: nat)
    requires
        n <= features.len(),
    ensures
        retained(features, 0, n) == features.take(n as int).filter(
            |f: Feature<V>| f.state != FeatureState::Lost,
        ),
    decreases n,
{
    let p = |f: Feature<V>| f.state != FeatureState::Lost;
    reveal_with_fuel(Seq::filter, 2);
    if n == 0 {
        assert(features.take(0).filter(p) =~= Seq::<Feature<V>>::empty());
    } else {
        lemma_retained_is_filter(features, (n - 1) as nat);
        crate::track::tracker::lemma_live_count(features, (n - 1) as nat);
        assert(features.take(n as int).drop_last() =~= features.take(n - 1));
        assert(features.take(n as int).last() == features[n - 1]);
    }
}

/// A frame begins with the features that the last one did not lose, in their order,
/// and one more frame is counted. Nothing else changes.
pub proof fn law_frame_begins_with_what_is_live<V, X, P, C>(s: Snapshot<V, X, P, C>)
    requires
        s.frame_index < u64::MAX,
        s.frames_since_keyframe < u64::MAX,
    ensures
        frame_begun(s).features == s.features.filter(
            |f: Feature<V>| f.state != FeatureState::Lost,
        ),
        frame_begun(s).frame_index == s.frame_index + 1,
        frame_begun(s).frames_since_keyframe == s.frames_since_keyframe + 1,
        frame_begun(s) == (Snapshot {
            features: frame_begun(s).features,
            frame_index: frame_begun(s).frame_index,
            frames_since_keyframe: frame_begun(s).frames_since_keyframe,
            ..s
        }),
{
    lemma_retained_is_filter(s.features, s.features.len());
    assert(s.features.take(s.features.len() as int) =~= s.features);
}

/// Flow moves the features that it finds and only those, makes them a frame older,
/// keeps their identity and their landmark, and counts what it followed and what it
/// found.
pub proof fn law_flow_moves_what_it_finds<V, X, P, C>(
    p: Progress<V, X, P, C>,
    config: TrackConfig,
    results: Vec<Option<Moved<V>>>,
    is_wide: bool,
    i: int,
)
    requires
        p.run.stage == Stage::Flow,
        p.tracker.features.len() == results@.len(),
        0 <= i < p.tracker.features.len(),
        forall|k: int|
            0 <= k < p.tracker.features.len() ==> (#[trigger] p.tracker.features[k]).state
                != FeatureState::Lost,
        p.tracker.features.len() <= usize::MAX,
    ensures
        ({
            let f = p.tracker.features[i];
            let q = proceeded(
                p,
                config,
                Answer::<V, X, P, C>::Flow { results: Some(results), is_wide },
            );
            let g = q.tracker.features[i];
            &&& q.run.stage == Stage::Pose
            &&& q.run.flow_is_wide == is_wide
            &&& q.run.flow.attempted == results@.len()
            &&& q.run.flow.survived == how_many(results@.len(), |k: int| results@[k] is Some)
            &&& q.tracker.features.len() == p.tracker.features.len()
            &&& g.id == f.id && g.landmark == f.landmark
            &&& results@[i] matches Some(m) ==> g.px == m.px && g.px_undist == m.px_undist
                && g.state == FeatureState::Followed && (f.age < u32::MAX ==> g.age == f.age + 1)
            &&& results@[i] is None ==> g.px == f.px && g.px_undist == f.px_undist && g.state
                == FeatureState::Lost && g.age == f.age
        }),
{
    let n = p.tracker.features.len();
    let q = proceeded(
        p,
        config,
        Answer::<V, X, P, C>::Flow { results: Some(results), is_wide },
    );
    law_live_features_are_counted(p.tracker.features);
    law_live_features_are_counted(q.tracker.features);
    let all = vstd::set_lib::set_int_range(0, n as int);
    vstd::set_lib::lemma_int_range(0, n as int);
    assert(all.filter(|k: int| p.tracker.features[k].state != FeatureState::Lost) =~= all);
    let found = |k: int| results@[k] is Some;
    assert(all.filter(|k: int| q.tracker.features[k].state != FeatureState::Lost) =~= all.filter(
        found,
    ));
    lemma_how_many_bound(n, found);
}

// ---------------------------------------------------------------------------
// Pose
// ---------------------------------------------------------------------------

/// Whether a feature shows a landmark of the map in the current frame.
pub open spec fn shows_landmark<V, X>(f: Feature<V>, map: Seq<Entry<X>>) -> bool {
    &&& f.state != FeatureState::Lost
    &&& f.landmark is Some
    &&& exists|j: int| 0 <= j < map.len() && (#[trigger] map[j]).landmark.id == f.landmark->0
}

proof fn lemma_paired<V, X>(f: Feature<V>, map: Seq<Entry<X>>)
    ensures
        is_paired(f, map) == shows_landmark(f, map),
{
    if f.landmark is Some {
        let id = f.landmark->0;
        if knows(map, id) {
            let j = choose|j: int| #[trigger] is_at(map, id, j);
            assert(0 <= j < map.len() && map[j].landmark.id == id);
        }
        if exists|j: int| 0 <= j < map.len() && (#[trigger] map[j]).landmark.id == id {
            let j = choose|j: int| 0 <= j < map.len() && (#[trigger] map[j]).landmark.id == id;
            assert(is_at(map, id, j));
        }
    }
}

proof fn lemma_pairs<V, X>(features: Seq<Feature<V>>, map: Seq<Entry<X>>, n: nat)
    requires
        n <= features.len(),
    ensures
        pairs_of(features, map, n).len() == how_many(
            n,
            |i: int| shows_landmark(features[i], map),
        ),
    decreases n,
{
    let p = |i: int| shows_landmark(features[i], map);
    if n > 0 {
        lemma_pairs(features, map, (n - 1) as nat);
        lemma_how_many(n, p);
        lemma_paired(features[n - 1], map);
    } else {
        lemma_how_many(1, p);
    }
}

proof fn lemma_pair_at<V, X>(features: Seq<Feature<V>>, map: Seq<Entry<X>>, n: nat, i: int)
    requires
        0 <= i < n <= features.len(),
        is_paired(features[i], map),
    ensures
        pairs_of(features, map, i as nat).len() < pairs_of(features, map, n).len(),
        pairs_of(features, map, n)[pairs_of(features, map, i as nat).len() as int] == (
        Correspondence {
            position: map[place_of(map, features[i].landmark->0)].landmark.position,
            px: features[i].px_undist,
        }),
    decreases n,
{
    if i < n - 1 {
        lemma_pair_at(features, map, (n - 1) as nat, i);
    }
}

/// The pose is solved for against every landmark in view, each with its position in
/// the map and where it is seen: as many as there are features that show one, in the
/// order of the features.
pub proof fn law_every_landmark_in_view_is_offered<V, X>(
    features: Seq<Feature<V>>,
    map: Seq<Entry<X>>,
    i: int,
    j: int,
)
    requires
        ids_are_distinct(map),
        0 <= i < features.len(),
        features[i].state != FeatureState::Lost,
        0 <= j < map.len(),
        features[i].landmark == Some(map[j].landmark.id),
    ensures
        ({
            let pairs = pairs_of(features, map, features.len());
            let rank = how_many(i as nat, |k: int| shows_landmark(features[k], map));
            &&& pairs.len() == how_many(
                features.len(),
                |k: int| shows_landmark(features[k], map),
            )
            &&& rank < pairs.len()
            &&& pairs[rank as int].position == map[j].landmark.position
            &&& pairs[rank as int].px == features[i].px_undist
        }),
{
    let id = map[j].landmark.id;
    assert(is_at(map, id, j));
    let at = place_of(map, id);
    assert(is_at(map, id, at));
    if at < j {
        assert(map[at].landmark.id != map[j].landmark.id);
    } else if j < at {
        assert(map[j].landmark.id != map[at].landmark.id);
    }
    lemma_pairs(features, map, features.len());
    lemma_pairs(features, map, i as nat);
    lemma_pair_at(features, map, features.len(), i);
}

proof fn lemma_marked_at<V, X>(
    features: Seq<Feature<V>>,
    map: Seq<Entry<X>>,
    inliers: Seq<bool>,
    n: nat,
    i: int,
)
    requires
        0 <= i < n <= features.len(),
    ensures
        marked(features, map, inliers, n).len() == n,
        ({
            let rank = pairs_of(features, map, i as nat).len() as int;
            marked(features, map, inliers, n)[i] == (if !is_paired(features[i], map) {
                features[i]
            } else if agrees(inliers, rank) {
                Feature { state: FeatureState::Followed, ..features[i] }
            } else {
                Feature { state: FeatureState::Outlier, ..features[i] }
            })
        }),
    decreases n,
{
    reveal_with_fuel(marked, 2);
    if i < n - 1 {
        lemma_marked_at(features, map, inliers, (n - 1) as nat, i);
    } else if n > 1 {
        lemma_marked_at(features, map, inliers, (n - 1) as nat, 0);
    }
}

/// A solved pose judges exactly the features that took part in it: the ones that agree
/// are followed, the others are outliers, and a feature that shows no landmark is left
/// alone.
pub proof fn law_solve_judges_its_features<V, X>(
    features: Seq<Feature<V>>,
    map: Seq<Entry<X>>,
    inliers: Seq<bool>,
    i: int,
)
    requires
        0 <= i < features.len(),
    ensures
        ({
            let f = features[i];
            let g = marked(features, map, inliers, features.len())[i];
            let rank = how_many(i as nat, |k: int| shows_landmark(features[k], map)) as int;
            &&& marked(features, map, inliers, features.len()).len() == features.len()
            &&& g == (Feature { state: g.state, ..f })
            &&& !shows_landmark(f, map) ==> g.state == f.state
            &&& shows_landmark(f, map) && rank < inliers.len() && inliers[rank] ==> g.state
                == FeatureState::Followed
            &&& shows_landmark(f, map) && !(rank < inliers.len() && inliers[rank]) ==> g.state
                == FeatureState::Outlier
        }),
{
    lemma_marked_at(features, map, inliers, features.len(), i);
    lemma_paired(features[i], map);
    lemma_pairs(features, map, i as nat);
}

proof fn lemma_sighted_at<V, X>(
    features: Seq<Feature<V>>,
    map: Seq<Entry<X>>,
    inliers: Seq<bool>,
    frame: u64,
    n: nat,
    j: int,
)
    requires
        ids_are_distinct(map),
        n <= features.len(),
        0 <= j < map.len(),
    ensures
        ({
            let after = sighted(features, map, inliers, frame, n);
            let seen = how_many(
                n,
                |i: int|
                    shows_landmark(features[i], map) && features[i].landmark == Some(
                        map[j].landmark.id,
                    ) && ({
                        let rank = how_many(i as nat, |k: int| shows_landmark(features[k], map));
                        rank < inliers.len() && inliers[rank as int]
                    }),
            );
            let e = map[j];
            let total = e.landmark.observations + seen;
            &&& crate::track::tracker::same_ids(map, after)
            &&& after[j].landmark.position == e.landmark.position
            &&& after[j].landmark.observations == (if total > u32::MAX {
                u32::MAX as int
            } else {
                total as int
            })
            &&& after[j].last_seen == (if seen > 0 {
                frame
            } else {
                e.last_seen
            })
        }),
    decreases n,
{
    let p = |i: int|
        shows_landmark(features[i], map) && features[i].landmark == Some(map[j].landmark.id) && ({
            let rank = how_many(i as nat, |k: int| shows_landmark(features[k], map));
            rank < inliers.len() && inliers[rank as int]
        });
    if n == 0 {
        lemma_how_many(1, p);
    } else {
        let m = (n - 1) as nat;
        lemma_sighted_at(features, map, inliers, frame, m, j);
        lemma_how_many(n, p);
        lemma_pairs(features, map, m);
        let f = features[n - 1];
        lemma_paired(f, map);
        let before = sighted(features, map, inliers, frame, m);
        let rank = pairs_of(features, map, m).len() as int;
        if is_paired(f, map) && agrees(inliers, rank) {
            let id = f.landmark->0;
            let i0 = choose|i: int| #[trigger] is_at(map, id, i);
            assert(map[i0].landmark.id == before[i0].landmark.id);
            assert(is_at(before, id, i0));
            let at = place_of(before, id);
            assert(is_at(before, id, at));
            assert(map[at].landmark.id == before[at].landmark.id);
            crate::track::tracker::lemma_sighting_keeps_ids(before, id, frame);
            let after = with_sighting(before, id, frame);
            assert forall|i: int| 0 <= i < map.len() implies (#[trigger] map[i]).landmark.id
                == after[i].landmark.id by {
                assert(before[i].landmark.id == after[i].landmark.id);
            }
            if at != j {
                if at < j {
                    assert(map[at].landmark.id != map[j].landmark.id);
                } else {
                    assert(map[j].landmark.id != map[at].landmark.id);
                }
            }
            assert(map[j].landmark.id == before[j].landmark.id);
        }
    }
}

/// A solved pose is a sighting of the landmarks that agree with it, and of no others:
/// a landmark counts one more for each agreeing feature that shows it, and is then
/// last seen in this frame; its place is not changed.
pub proof fn law_agreeing_landmarks_are_sighted<V, X>(
    features: Seq<Feature<V>>,
    map: Seq<Entry<X>>,
    inliers: Seq<bool>,
    frame: u64,
    j: int,
)
    requires
        ids_are_distinct(map),
        0 <= j < map.len(),
    ensures
        ({
            let after = sighted(features, map, inliers, frame, features.len());
            let seen = how_many(
                features.len(),
                |i: int|
                    shows_landmark(features[i], map) && features[i].landmark == Some(
                        map[j].landmark.id,
                    ) && ({
                        let rank = how_many(i as nat, |k: int| shows_landmark(features[k], map));
                        rank < inliers.len() && inliers[rank as int]
                    }),
            );
            let e = map[j];
            &&& after.len() == map.len()
            &&& after[j].landmark.id == e.landmark.id
            &&& after[j].landmark.position == e.landmark.position
            &&& e.landmark.observations + seen <= u32::MAX ==> after[j].landmark.observations
                == e.landmark.observations + seen
            &&& seen > 0 ==> after[j].last_seen == frame
            &&& seen == 0 ==> after[j] == e
        }),
{
    lemma_sighted_at(features, map, inliers, frame, features.len(), j);
    let after = sighted(features, map, inliers, frame, features.len());
    assert(map[j].landmark.id == after[j].landmark.id);
}

/// A frame has a pose of its own exactly when six landmarks or more are in view, the
/// search found a pose and six correspondences or more agree with it. The pose is
/// then the one that was found and the failures in a row are over. Otherwise the last
/// pose stands, is a frame staler, and one more failure in a row is counted.
pub proof fn law_pose_needs_six_landmarks<V, X, P, C>(
    s: Snapshot<V, X, P, C>,
    solve: Option<PoseSolve<P, C>>,
)
    requires
        s.solve_failures < u32::MAX,
        s.failures.sum() < usize::MAX,
    ensures
        ({
            let t = after_solve(s, solve);
            let f = s.features;
            let in_view = how_many(f.len(), |k: int| shows_landmark(f[k], s.map));
            let solved = in_view >= 6 && solve is Some && solve->0.inlier_count >= 6;
            &&& is_solved(s, solve) == solved
            &&& solved ==> t.pose == Some(solve->0.pose) && t.solve_failures == 0 && t.failures
                == s.failures
            &&& solved ==> (solve->0.covariance matches Some(c) ==> t.covariance
                == Covariance::Solved { value: c, widenings: 0 })
            &&& solved && solve->0.covariance is None ==> t.covariance is Unbounded
            &&& !solved ==> t.pose == s.pose && t.features == s.features && t.map == s.map
                && t.solve_failures == s.solve_failures + 1
            &&& !solved && s.pose is None ==> t.covariance == s.covariance
            &&& !solved && s.pose is Some ==> match s.covariance {
                Covariance::Unbounded => t.covariance is Unbounded,
                Covariance::Solved { value, widenings } => t.covariance is Solved
                    && t.covariance->value == value && (widenings < u32::MAX
                    ==> t.covariance->widenings == widenings + 1),
            }
            &&& t.failures.awaiting_bootstrap == s.failures.awaiting_bootstrap
            &&& t.failures.too_few_correspondences == s.failures.too_few_correspondences + (if s.map.len()
                > 0 && in_view < 6 {
                1int
            } else {
                0int
            })
            &&& t.failures.ransac_failed == s.failures.ransac_failed + (if in_view >= 6
                && solve is None {
                1int
            } else {
                0int
            })
            &&& t.failures.too_few_inliers == s.failures.too_few_inliers + (if in_view >= 6
                && solve is Some && solve->0.inlier_count < 6 {
                1int
            } else {
                0int
            })
            &&& t == (Snapshot {
                pose: t.pose,
                covariance: t.covariance,
                features: t.features,
                map: t.map,
                failures: t.failures,
                solve_failures: t.solve_failures,
                ..s
            })
        }),
{
    lemma_pairs(s.features, s.map, s.features.len());
}

/// A map is given up exactly when there is one and the solve has failed thirty times
/// in a row against it.
pub proof fn law_map_is_given_up_after_thirty_failures<V, X, P, C>(s: Snapshot<V, X, P, C>)
    ensures
        ({
            let t = abandoned(s);
            let given_up = s.map.len() > 0 && s.solve_failures >= 30;
            &&& !given_up ==> t == s
            &&& given_up ==> {
                &&& t.map.len() == 0
                &&& t.pose is None
                &&& t.keyframe is None
                &&& t.bootstrap is None
                &&& t.window.len() == 0
                &&& t.reference_landmarks == 0
                &&& t.features.len() == s.features.len()
                &&& forall|i: int|
                    0 <= i < s.features.len() ==> #[trigger] t.features[i] == (Feature {
                        landmark: None,
                        ..s.features[i]
                    })
                &&& t.failures == s.failures && t.solve_failures == s.solve_failures
                &&& t.state == s.state && t.covariance == s.covariance
                &&& t.next_feature_id == s.next_feature_id && t.next_landmark_id
                    == s.next_landmark_id
            }
        }),
{
}

// ---------------------------------------------------------------------------
// What a keyframe sees and adds
// ---------------------------------------------------------------------------

proof fn lemma_seen_at<V>(features: Seq<Feature<V>>, n: nat, i: int)
    requires
        n <= features.len(),
        ids_increase(features),
    ensures
        0 <= i < n && features[i].state != FeatureState::Lost ==> seen_at(features, n).contains_key(
            features[i].id,
        ) && seen_at(features, n)[features[i].id] == features[i].px_undist,
        forall|id: u64| #[trigger]
            seen_at(features, n).contains_key(id) ==> exists|k: int|
                0 <= k < n && #[trigger] features[k].id == id && features[k].state
                    != FeatureState::Lost,
    decreases n,
{
    if n > 0 {
        lemma_seen_at(features, (n - 1) as nat, i);
        assert forall|id: u64| #[trigger] seen_at(features, n).contains_key(id) implies exists|
            k: int,
        |
            0 <= k < n && #[trigger] features[k].id == id && features[k].state
                != FeatureState::Lost by {
            if seen_at(features, (n - 1) as nat).contains_key(id) {
                let k = choose|k: int|
                    0 <= k < n - 1 && #[trigger] features[k].id == id && features[k].state
                        != FeatureState::Lost;
                assert(features[k].id == id);
            } else {
                assert(features[n - 1].id == id);
            }
        }
        if 0 <= i < n - 1 {
            assert(features[i].id < features[n - 1].id);
        }
    }
}

/// A view knows where every feature of its frame is, and nothing else: no feature
/// that was lost, and none that is not there.
pub proof fn law_view_knows_its_features<V>(features: Seq<Feature<V>>, i: int)
    requires
        ids_increase(features),
        0 <= i < features.len(),
    ensures
        ({
            let seen = seen_at(features, features.len());
            &&& seen.contains_key(features[i].id) <==> features[i].state != FeatureState::Lost
            &&& features[i].state != FeatureState::Lost ==> seen[features[i].id]
                == features[i].px_undist
            &&& forall|id: u64| #[trigger]
                seen.contains_key(id) ==> exists|k: int|
                    0 <= k < features.len() && #[trigger] features[k].id == id
        }),
{
    lemma_seen_at(features, features.len(), i);
    let seen = seen_at(features, features.len());
    if seen.contains_key(features[i].id) {
        let k = choose|k: int|
            0 <= k < features.len() && #[trigger] features[k].id == features[i].id
                && features[k].state != FeatureState::Lost;
        if k < i {
            assert(features[k].id < features[i].id);
        } else if i < k {
            assert(features[i].id < features[k].id);
        }
    }
}

proof fn lemma_seen_also<V>(seen: Map<u64, V>, features: Seq<Feature<V>>, n: nat, i: int, id: u64)
    requires
        n <= features.len(),
        ids_increase(features),
    ensures
        seen.contains_key(id) ==> seen_also(seen, features, n).contains_key(id) && seen_also(
            seen,
            features,
            n,
        )[id] == seen[id],
        0 <= i < n && features[i].state != FeatureState::Lost ==> seen_also(
            seen,
            features,
            n,
        ).contains_key(features[i].id),
        0 <= i < n && features[i].state != FeatureState::Lost && !seen.contains_key(features[i].id)
            ==> seen_also(seen, features, n)[features[i].id] == features[i].px_undist,
        seen_also(seen, features, n).contains_key(id) && !seen.contains_key(id) ==> exists|k: int|
            0 <= k < n && #[trigger] features[k].id == id && features[k].state
                != FeatureState::Lost,
    decreases n,
{
    if n > 0 {
        let m = (n - 1) as nat;
        lemma_seen_also(seen, features, m, i, id);
        let before = seen_also(seen, features, m);
        let f = features[n - 1];
        if before.contains_key(id) && !seen.contains_key(id) {
            let k = choose|k: int|
                0 <= k < m && #[trigger] features[k].id == id && features[k].state
                    != FeatureState::Lost;
            assert(features[k].id == id);
        }
        assert(features[n - 1].id == f.id);
        if 0 <= i < n - 1 {
            assert(features[i].id < features[n - 1].id);
        }
        if i == n - 1 && before.contains_key(f.id) && !seen.contains_key(f.id) {
            lemma_seen_also(seen, features, m, i, f.id);
            let k = choose|k: int|
                0 <= k < m && #[trigger] features[k].id == f.id && features[k].state
                    != FeatureState::Lost;
            assert(features[k].id < features[n - 1].id);
        }
    }
}

/// A view that is completed keeps what it knew and learns where the features are that
/// it lacked.
pub proof fn law_completed_view_learns_the_rest<V, P>(
    view: ReferenceView<V, P>,
    features: Seq<Feature<V>>,
    i: int,
    id: u64,
)
    requires
        ids_increase(features),
        0 <= i < features.len(),
        features[i].state != FeatureState::Lost,
    ensures
        ({
            let after = completed(Some(view), features);
            &&& completed::<V, P>(None, features) is None
            &&& after is Some
            &&& after->0.pose == view.pose
            &&& view.observations.contains_key(id) ==> after->0.observations.contains_key(id)
                && after->0.observations[id] == view.observations[id]
            &&& after->0.observations.contains_key(features[i].id)
            &&& !view.observations.contains_key(features[i].id)
                ==> after->0.observations[features[i].id] == features[i].px_undist
            &&& after->0.observations.contains_key(id) && !view.observations.contains_key(id)
                ==> exists|k: int| 0 <= k < features.len() && #[trigger] features[k].id == id
        }),
{
    lemma_seen_also(view.observations, features, features.len(), i, id);
}

/// Whether a feature is triangulated at a keyframe: it is in the frame, carries no
/// landmark yet, was seen at the last keyframe, and gave a point.
pub open spec fn is_triangulated<V, X>(
    f: Feature<V>,
    seen: Map<u64, V>,
    point: Option<X>,
) -> bool {
    f.state != FeatureState::Lost && f.landmark is None && seen.contains_key(f.id) && point is Some
}

proof fn lemma_gains_counted<V, X>(
    features: Seq<Feature<V>>,
    seen: Map<u64, V>,
    points: Seq<Option<X>>,
    n: nat,
)
    requires
        n <= features.len(),
    ensures
        gains(features, seen, points, n) == how_many(
            n,
            |k: int| is_triangulated(features[k], seen, points[k]),
        ),
        gains(features, seen, points, n) <= n,
    decreases n,
{
    let p = |k: int| is_triangulated(features[k], seen, points[k]);
    if n > 0 {
        lemma_gains_counted(features, seen, points, (n - 1) as nat);
        lemma_how_many(n, p);
    } else {
        lemma_how_many(1, p);
    }
}

proof fn lemma_gains_grow<V, X>(
    features: Seq<Feature<V>>,
    seen: Map<u64, V>,
    points: Seq<Option<X>>,
    n: nat,
    m: nat,
)
    requires
        n <= m,
    ensures
        gains(features, seen, points, n) <= gains(features, seen, points, m),
    decreases m,
{
    if n < m {
        lemma_gains_grow(features, seen, points, n, (m - 1) as nat);
    }
}

proof fn lemma_grown_at<V, X>(
    map: Seq<Entry<X>>,
    features: Seq<Feature<V>>,
    seen: Map<u64, V>,
    points: Seq<Option<X>>,
    next: u64,
    frame: u64,
    n: nat,
    i: int,
)
    requires
        n <= features.len(),
        next + features.len() <= u64::MAX,
        landmarks_are_given(map, next),
    ensures
        ({
            let after = grown(map, features, seen, points, next, frame, n);
            let count = gains(features, seen, points, n);
            &&& after.len() == map.len() + count
            &&& after.take(map.len() as int) =~= map
            &&& landmarks_are_given(after, (next + count) as u64)
            &&& 0 <= i < n && is_triangulated(features[i], seen, points[i]) ==> gains(
                features,
                seen,
                points,
                i as nat,
            ) < count && after[(map.len() + gains(features, seen, points, i as nat)) as int] == (
            Entry {
                landmark: LocalLandmark {
                    id: (next + gains(features, seen, points, i as nat)) as u64,
                    position: points[i]->0,
                    observations: 2,
                },
                last_seen: frame,
            })
        }),
    decreases n,
{
    if n > 0 {
        let m = (n - 1) as nat;
        lemma_grown_at(map, features, seen, points, next, frame, m, i);
        lemma_gains_counted(features, seen, points, m);
        let before = grown(map, features, seen, points, next, frame, m);
        let id = (next + gains(features, seen, points, m)) as u64;
        if is_candidate(features[n - 1], seen) && points[n - 1] is Some {
            if knows(before, id) {
                let at = place_of(before, id);
                assert(is_at(before, id, at));
                assert(before[at].landmark.id < id);
            }
            let after = grown(map, features, seen, points, next, frame, n);
            assert(after.take(map.len() as int) =~= before.take(map.len() as int));
        }
    }
}

/// A keyframe gives a landmark to every feature that it triangulates, and to no other:
/// the landmark is where the feature was triangulated to, counts as seen twice and in
/// this frame, and has an id of its own. Those that were in the map stay as they are.
pub proof fn law_keyframe_maps_what_it_triangulates<V, X, P, C>(
    s: Snapshot<V, X, P, C>,
    config: TrackConfig,
    points: Seq<Option<X>>,
    i: int,
)
    requires
        s.wf(config),
        s.keyframe is Some,
        s.pose is Some,
        points.len() == s.features.len(),
        s.next_landmark_id + s.features.len() <= u64::MAX,
        0 <= i < s.features.len(),
    ensures
        ({
            let t = promoted(s, config, points);
            let seen = s.keyframe->0.observations;
            let is_new = |k: int| is_triangulated(s.features[k], seen, points[k]);
            let total = how_many(s.features.len(), is_new);
            &&& t.features.len() == s.features.len()
            &&& !is_new(i) ==> t.features[i] == s.features[i]
            &&& is_new(i) ==> {
                let l = s.next_landmark_id + how_many(i as nat, is_new);
                let at = s.map.len() + how_many(i as nat, is_new);
                &&& t.features[i] == (Feature { landmark: Some(l as u64), ..s.features[i] })
                &&& at < t.map.len()
                &&& t.map[at as int].landmark.id == l
                &&& t.map[at as int].landmark.position == points[i]->0
                &&& t.map[at as int].landmark.observations == 2
                &&& t.map[at as int].last_seen == s.frame_index
            }
            &&& t.map.len() == s.map.len() + total
            &&& t.map.take(s.map.len() as int) =~= s.map
            &&& t.next_landmark_id == s.next_landmark_id + total
        }),
{
    let seen = s.keyframe->0.observations;
    let n = s.features.len();
    lemma_with_gains(s.features, seen, points, s.next_landmark_id, n, i);
    lemma_gains_counted(s.features, seen, points, n);
    lemma_gains_counted(s.features, seen, points, i as nat);
    lemma_grown_at(
        s.map,
        s.features,
        seen,
        points,
        s.next_landmark_id,
        s.frame_index,
        n,
        i,
    );
}

proof fn lemma_landmarks_seen<V>(features: Seq<Feature<V>>, n: nat, i: int)
    requires
        n <= features.len(),
    ensures
        landmarks_seen(features, n).len() == landmark_count(features, n),
        0 <= i < n && features[i].landmark is Some && features[i].state != FeatureState::Lost
            ==> landmark_count(features, i as nat) < landmark_count(features, n) && landmarks_seen(
            features,
            n,
        )[landmark_count(features, i as nat) as int] == (
            features[i].landmark->0,
            features[i].px_undist,
        ),
    decreases n,
{
    if n > 0 {
        lemma_landmarks_seen(features, (n - 1) as nat, i);
    }
}

/// A keyframe is the view of its frame from its pose, the count of frames since it
/// starts anew, and the landmarks it sees become the reference.
pub proof fn law_keyframe_is_the_view_of_its_frame<V, X, P, C>(
    s: Snapshot<V, X, P, C>,
    config: TrackConfig,
    points: Seq<Option<X>>,
    i: int,
)
    requires
        s.wf(config),
        s.keyframe is Some,
        s.pose is Some,
        points.len() == s.features.len(),
        s.next_landmark_id + s.features.len() <= u64::MAX,
        s.features.len() <= usize::MAX,
        0 <= i < s.features.len(),
    ensures
        ({
            let t = promoted(s, config, points);
            let f = t.features;
            &&& t.keyframe is Some
            &&& t.keyframe->0.pose == s.pose->0
            &&& t.keyframe->0.observations.contains_key(f[i].id) <==> f[i].state
                != FeatureState::Lost
            &&& f[i].state != FeatureState::Lost ==> t.keyframe->0.observations[f[i].id]
                == f[i].px_undist
            &&& t.frames_since_keyframe == 0
            &&& t.reference_landmarks == how_many(
                f.len(),
                |k: int| f[k].landmark is Some && f[k].state != FeatureState::Lost,
            )
            &&& t.pose == s.pose && t.covariance == s.covariance && t.bootstrap == s.bootstrap
            &&& t.failures == s.failures && t.solve_failures == s.solve_failures
        }),
{
    let t = promoted(s, config, points);
    let n = s.features.len();
    crate::track::validity::lemma_promotion_keeps_wf(s, config, points);
    law_keyframe_maps_what_it_triangulates(s, config, points, i);
    law_view_knows_its_features(t.features, i);
    law_landmarks_in_view_are_counted(t.features);
    lemma_how_many_bound(
        n,
        |k: int| t.features[k].landmark is Some && t.features[k].state != FeatureState::Lost,
    );
}

/// The window takes in every keyframe that sees a landmark, as the newest one, with
/// every landmark that it sees and where. The oldest make room once the window and
/// its context are full; without a window nothing is kept.
pub proof fn law_window_takes_the_keyframe_in<V, X, P, C>(
    s: Snapshot<V, X, P, C>,
    config: TrackConfig,
    points: Seq<Option<X>>,
    i: int,
    k: int,
)
    requires
        s.wf(config),
        s.keyframe is Some,
        s.pose is Some,
        points.len() == s.features.len(),
        s.next_landmark_id + s.features.len() <= u64::MAX,
        0 <= i < s.features.len(),
    ensures
        ({
            let t = promoted(s, config, points);
            let f = t.features;
            let shows = |a: int| f[a].landmark is Some && f[a].state != FeatureState::Lost;
            let in_view = how_many(f.len(), shows);
            let capacity = config.local_ba_window + config.local_ba_context;
            let newest = t.window[t.window.len() - 1];
            &&& config.local_ba_window == 0 || in_view == 0 ==> t.window == s.window
            &&& config.local_ba_window > 0 && in_view > 0 ==> {
                &&& t.window.len() == (if s.window.len() < capacity {
                    s.window.len() + 1
                } else {
                    capacity as nat
                })
                &&& newest.pose == s.pose->0
                &&& newest.observations.len() == in_view
                &&& shows(i) ==> newest.observations[how_many(i as nat, shows) as int] == (
                    f[i].landmark->0,
                    f[i].px_undist,
                )
                &&& 1 <= k < t.window.len() ==> t.window[t.window.len() - 1 - k]
                    == s.window[s.window.len() - k]
            }
        }),
{
    let t = promoted(s, config, points);
    law_keyframe_maps_what_it_triangulates(s, config, points, i);
    lemma_landmarks_counted(t.features, t.features.len());
    lemma_landmarks_counted(t.features, i as nat);
    lemma_landmarks_seen(t.features, t.features.len(), i);
}

// ---------------------------------------------------------------------------
// The window
// ---------------------------------------------------------------------------

/// Whether an observation of a window is of a landmark, in a keyframe, at a place.
spec fn observes<V>(g: WindowGraph<V>, o: int, keyframe: nat, id: u64, px: V) -> bool {
    &&& 0 <= o < g.observations.len()
    &&& g.observations[o].keyframe == keyframe
    &&& g.observations[o].point < g.ids.len()
    &&& g.ids[g.observations[o].point as int] == id
    &&& g.observations[o].px == px
}

/// A graph that goes on another one: what was there is still there.
spec fn goes_on<V>(g: WindowGraph<V>, h: WindowGraph<V>) -> bool {
    &&& g.ids.len() <= h.ids.len()
    &&& g.observations.len() <= h.observations.len()
    &&& forall|i: int| 0 <= i < g.ids.len() ==> #[trigger] h.ids[i] == g.ids[i]
    &&& forall|i: int|
        0 <= i < g.observations.len() ==> #[trigger] h.observations[i] == g.observations[i]
}

proof fn lemma_graph_ids<V, X>(
    g: WindowGraph<V>,
    map: Seq<Entry<X>>,
    keyframe: nat,
    sightings: Seq<(u64, V)>,
    n: nat,
    m: int,
)
    requires
        keyframe <= usize::MAX,
        n <= sightings.len(),
        g.ids.no_duplicates(),
        with_keyframe(g, map, keyframe, sightings, n).ids.len() <= usize::MAX,
        0 <= m < n ==> knows(map, sightings[m].0),
    ensures
        ({
            let h = with_keyframe(g, map, keyframe, sightings, n);
            &&& goes_on(g, h)
            &&& h.ids.no_duplicates()
            &&& h.observations.len() == g.observations.len() + how_many(
                n,
                |k: int| knows(map, sightings[k].0),
            )
            &&& 0 <= m < n ==> observes(
                h,
                (g.observations.len() + how_many(
                    m as nat,
                    |k: int| knows(map, sightings[k].0),
                )) as int,
                keyframe,
                sightings[m].0,
                sightings[m].1,
            )
        }),
    decreases n,
{
    let p = |k: int| knows(map, sightings[k].0);
    if n == 0 {
        lemma_how_many(1, p);
    } else {
        let b = with_keyframe(g, map, keyframe, sightings, (n - 1) as nat);
        let h = with_keyframe(g, map, keyframe, sightings, n);
        let id = sightings[n - 1].0;
        lemma_how_many(n, p);
        if knows(map, id) && !b.ids.contains(id) {
            assert(b.ids.len() < h.ids.len());
        }
        assert(b.ids.len() <= h.ids.len());
        lemma_graph_ids(g, map, keyframe, sightings, (n - 1) as nat, m);
        if knows(map, id) {
            if b.ids.contains(id) {
                let at = choose|i: int| 0 <= i < b.ids.len() && b.ids[i] == id;
                assert(h.ids[at] == id);
            } else {
                assert(h.ids[b.ids.len() as int] == id);
            }
            let slot = slot_of(h.ids, id);
            assert(0 <= slot < h.ids.len() && h.ids[slot] == id);
            assert(h.ids.no_duplicates());
            assert(observes(h, b.observations.len() as int, keyframe, id, sightings[n - 1].1));
        }
        if 0 <= m < n - 1 {
            let o = (g.observations.len() + how_many(m as nat, p)) as int;
            assert(observes(b, o, keyframe, sightings[m].0, sightings[m].1));
            assert(h.observations[o] == b.observations[o]);
            assert(h.ids[b.observations[o].point as int] == b.ids[b.observations[o].point as int]);
        }
    }
}

proof fn lemma_graph_keeps<V, X, P>(
    map: Seq<Entry<X>>,
    window: Seq<WindowView<V, P>>,
    n: nat,
    k: int,
    m: int,
)
    requires
        n <= window.len() <= usize::MAX,
        graph_of(map, window, n).ids.len() <= usize::MAX,
        0 <= k < n ==> 0 <= m < window[k].observations.len() && knows(
            map,
            window[k].observations[m].0,
        ),
    ensures
        graph_of(map, window, n).ids.no_duplicates(),
        0 <= k < n ==> exists|o: int|
            #[trigger]
            observes(
                graph_of(map, window, n),
                o,
                k as nat,
                window[k].observations[m].0,
                window[k].observations[m].1,
            ),
    decreases n,
{
    if n > 0 {
        let g = graph_of(map, window, (n - 1) as nat);
        let h = graph_of(map, window, n);
        let s = window[n - 1].observations;
        lemma_graph_only_grows(g, map, (n - 1) as nat, s, s.len());
        lemma_graph_keeps(map, window, (n - 1) as nat, k, m);
        let last = if k == n - 1 {
            m
        } else {
            -1
        };
        lemma_graph_ids(g, map, (n - 1) as nat, s, s.len(), last);
        if k == n - 1 {
            let o = (g.observations.len() + how_many(m as nat, |i: int| knows(map, s[i].0))) as int;
            let (id, px) = window[k].observations[m];
            assert(observes(h, o, k as nat, id, px));
        } else if 0 <= k < n {
            let id = window[k].observations[m].0;
            let px = window[k].observations[m].1;
            let o = choose|o: int| #[trigger] observes(g, o, k as nat, id, px);
            assert(h.observations[o] == g.observations[o]);
            assert(h.ids[g.observations[o].point as int] == g.ids[g.observations[o].point as int]);
            assert(observes(h, o, k as nat, id, px));
        }
    }
}

proof fn lemma_graph_only_grows<V, X>(
    g: WindowGraph<V>,
    map: Seq<Entry<X>>,
    keyframe: nat,
    sightings: Seq<(u64, V)>,
    n: nat,
)
    ensures
        g.ids.len() <= with_keyframe(g, map, keyframe, sightings, n).ids.len(),
    decreases n,
{
    if n > 0 {
        lemma_graph_only_grows(g, map, keyframe, sightings, (n - 1) as nat);
    }
}

/// A window that is adjusted holds every sighting of a landmark that is still in the
/// map: for each keyframe and each landmark it saw there is an observation of that
/// keyframe, where the landmark was seen, of the point that stands for it; the point
/// is where the map has the landmark, and no two points stand for the same one.
pub proof fn law_window_holds_every_sighting<V, X, P, C>(
    s: Snapshot<V, X, P, C>,
    config: TrackConfig,
    w: WindowProblem<V, X, P>,
    k: int,
    m: int,
    j: int,
)
    requires
        w.is_of(s, config),
        ids_are_distinct(s.map),
        s.window.len() <= usize::MAX,
        0 <= k < s.window.len(),
        0 <= m < s.window[k].observations.len(),
        0 <= j < s.map.len(),
        s.map[j].landmark.id == s.window[k].observations[m].0,
    ensures
        w.ids@.no_duplicates(),
        w.problem.poses@[k] == s.window[k].pose,
        exists|o: int|
            0 <= o < w.problem.observations@.len() && ({
                let seen = #[trigger] w.problem.observations@[o];
                &&& seen.keyframe == k
                &&& seen.px == s.window[k].observations[m].1
                &&& seen.point < w.ids@.len()
                &&& w.ids@[seen.point as int] == s.map[j].landmark.id
                &&& w.problem.points@[seen.point as int] == s.map[j].landmark.position
            }),
{
    let id = s.map[j].landmark.id;
    let px = s.window[k].observations[m].1;
    assert(is_at(s.map, id, j));
    let at = place_of(s.map, id);
    assert(is_at(s.map, id, at));
    if at < j {
        assert(s.map[at].landmark.id != s.map[j].landmark.id);
    } else if j < at {
        assert(s.map[j].landmark.id != s.map[at].landmark.id);
    }
    assert(w.ids.len() == w.ids@.len());
    lemma_graph_keeps(s.map, s.window, s.window.len(), k, m);
    let g = graph_of(s.map, s.window, s.window.len());
    let o = choose|o: int| #[trigger] observes(g, o, k as nat, id, px);
    let seen = w.problem.observations@[o];
    assert(seen == g.observations[o]);
    assert(g.ids[seen.point as int] == id);
}

spec fn comes_from<V, P>(
    g: WindowGraph<V>,
    window: Seq<WindowView<V, P>>,
    o: int,
    k: int,
    m: int,
) -> bool {
    &&& 0 <= k < window.len()
    &&& 0 <= m < window[k].observations.len()
    &&& g.observations[o].keyframe == k
    &&& g.observations[o].px == window[k].observations[m].1
    &&& g.observations[o].point < g.ids.len()
    &&& g.ids[g.observations[o].point as int] == window[k].observations[m].0
}

proof fn lemma_graph_adds_nothing<V, X, P>(
    map: Seq<Entry<X>>,
    window: Seq<WindowView<V, P>>,
    n: nat,
    o: int,
)
    requires
        n <= window.len() <= usize::MAX,
        graph_of(map, window, n).ids.len() <= usize::MAX,
        0 <= o < graph_of(map, window, n).observations.len(),
    ensures
        exists|k: int, m: int| #[trigger] comes_from(graph_of(map, window, n), window, o, k, m),
    decreases n,
{
    if n > 0 {
        let g = graph_of(map, window, (n - 1) as nat);
        let s = window[n - 1].observations;
        lemma_graph_only_grows(g, map, (n - 1) as nat, s, s.len());
        lemma_keyframe_adds_nothing(g, map, window, (n - 1) as nat, s.len(), o);
    }
}

proof fn lemma_keyframe_adds_nothing<V, X, P>(
    g: WindowGraph<V>,
    map: Seq<Entry<X>>,
    window: Seq<WindowView<V, P>>,
    keyframe: nat,
    n: nat,
    o: int,
)
    requires
        keyframe < window.len() <= usize::MAX,
        n <= window[keyframe as int].observations.len(),
        g == graph_of(map, window, keyframe),
        with_keyframe(g, map, keyframe, window[keyframe as int].observations, n).ids.len()
            <= usize::MAX,
        0 <= o < with_keyframe(
            g,
            map,
            keyframe,
            window[keyframe as int].observations,
            n,
        ).observations.len(),
    ensures
        exists|k: int, m: int| #[trigger]
            comes_from(
                with_keyframe(g, map, keyframe, window[keyframe as int].observations, n),
                window,
                o,
                k,
                m,
            ),
    decreases keyframe, n,
{
    let s = window[keyframe as int].observations;
    let h = with_keyframe(g, map, keyframe, s, n);
    if n == 0 {
        if keyframe > 0 {
            let prior = graph_of(map, window, (keyframe - 1) as nat);
            let ps = window[keyframe - 1].observations;
            lemma_keyframe_adds_nothing(prior, map, window, (keyframe - 1) as nat, ps.len(), o);
        }
    } else {
        let b = with_keyframe(g, map, keyframe, s, (n - 1) as nat);
        let id = s[n - 1].0;
        if o < b.observations.len() {
            lemma_keyframe_adds_nothing(g, map, window, keyframe, (n - 1) as nat, o);
            let (k, m) = choose|k: int, m: int| #[trigger] comes_from(b, window, o, k, m);
            assert(h.observations[o] == b.observations[o]);
            assert(h.ids[b.observations[o].point as int] == b.ids[b.observations[o].point as int]);
            assert(comes_from(h, window, o, k, m));
        } else {
            if b.ids.contains(id) {
                let at = choose|i: int| 0 <= i < b.ids.len() && b.ids[i] == id;
                assert(h.ids[at] == id);
            } else {
                assert(h.ids[b.ids.len() as int] == id);
            }
            let slot = slot_of(h.ids, id);
            assert(0 <= slot < h.ids.len() && h.ids[slot] == id);
            assert(comes_from(h, window, o, keyframe as int, n - 1));
        }
    }
}

/// Nothing is observed that no keyframe saw: every observation of a window is the
/// sighting of its point's landmark by its keyframe.
pub proof fn law_window_holds_nothing_else<V, X, P, C>(
    s: Snapshot<V, X, P, C>,
    config: TrackConfig,
    w: WindowProblem<V, X, P>,
    o: int,
)
    requires
        w.is_of(s, config),
        s.window.len() <= usize::MAX,
        0 <= o < w.problem.observations@.len(),
    ensures
        exists|k: int, m: int|
            #![trigger s.window[k].observations[m]]
            {
                let seen = w.problem.observations@[o];
                &&& 0 <= k < s.window.len()
                &&& 0 <= m < s.window[k].observations.len()
                &&& seen.keyframe == k
                &&& seen.point < w.ids@.len()
                &&& s.window[k].observations[m] == (w.ids@[seen.point as int], seen.px)
            },
{
    assert(w.ids.len() == w.ids@.len());
    lemma_graph_adds_nothing(s.map, s.window, s.window.len(), o);
    let g = graph_of(s.map, s.window, s.window.len());
    let (k, m) = choose|k: int, m: int| #[trigger] comes_from(g, s.window, o, k, m);
    let seen = w.problem.observations@[o];
    assert(s.window[k].observations[m] == (w.ids@[seen.point as int], seen.px));
}

/// The oldest keyframes of a window are held: as many as there is context, but one at
/// least and as many as are asked for, and never the newest. A window is adjusted
/// when it has more keyframes than are asked to be held, eight landmarks and twenty
/// sightings.
pub proof fn law_window_is_held_by_its_oldest<V, X, P, C>(
    s: Snapshot<V, X, P, C>,
    config: TrackConfig,
)
    requires
        s.window.len() >= 2,
    ensures
        ({
            let held = anchors(config, s.window.len());
            let free = s.window.len() - held;
            let g = graph_of(s.map, s.window, s.window.len());
            &&& 1 <= held < s.window.len()
            &&& held < s.window.len() - 1 ==> held >= config.local_ba_fixed && held
                >= config.local_ba_context
            &&& held <= config.local_ba_context || held <= config.local_ba_fixed || held == 1
            &&& is_adjustable(s, config) <==> s.window.len() > config.local_ba_fixed && g.ids.len()
                >= 8 && g.observations.len() >= 20
        }),
{
}

proof fn lemma_relocated_at<X>(
    map: Seq<Entry<X>>,
    ids: Seq<u64>,
    points: Seq<Option<X>>,
    n: nat,
    j: int,
    k: int,
)
    requires
        ids_are_distinct(map),
        n <= ids.len(),
        ids.len() == points.len(),
        ids.no_duplicates(),
        0 <= j < map.len(),
        0 <= k < ids.len() ==> ids[k] == map[j].landmark.id,
        !(0 <= k < ids.len()) ==> !ids.contains(map[j].landmark.id),
    ensures
        crate::track::tracker::same_ids(map, relocated(map, ids, points, n)),
        relocated(map, ids, points, n)[j] == (if 0 <= k < n && points[k] is Some {
            Entry {
                landmark: LocalLandmark { position: points[k]->0, ..map[j].landmark },
                last_seen: map[j].last_seen,
            }
        } else {
            map[j]
        }),
    decreases n,
{
    if n > 0 {
        lemma_relocated_at(map, ids, points, (n - 1) as nat, j, k);
        let before = relocated(map, ids, points, (n - 1) as nat);
        let after = relocated(map, ids, points, n);
        let id = ids[n - 1];
        if let Some(x) = points[n - 1] {
            crate::track::tracker::lemma_position_keeps_ids(before, id, x);
            assert forall|i: int| 0 <= i < map.len() implies (#[trigger] map[i]).landmark.id
                == after[i].landmark.id by {
                assert(before[i].landmark.id == after[i].landmark.id);
            }
            assert(map[j].landmark.id == before[j].landmark.id);
            if knows(before, id) {
                let at = place_of(before, id);
                assert(is_at(before, id, at));
                assert(map[at].landmark.id == before[at].landmark.id);
                if k == n - 1 {
                    if at < j {
                        assert(map[at].landmark.id != map[j].landmark.id);
                    } else if j < at {
                        assert(map[j].landmark.id != map[at].landmark.id);
                    }
                } else {
                    assert(ids.contains(id));
                    assert(id != map[j].landmark.id) by {
                        if 0 <= k < ids.len() {
                            assert(ids[k] != ids[n - 1]);
                        }
                    }
                }
            } else if k == n - 1 {
                assert(is_at(before, id, j));
            }
        }
    }
}

/// An adjusted window is written back to where it came from: a landmark that took part
/// and has a usable place is there now, every other landmark stays, every keyframe has
/// its new pose and what it saw, the last keyframe has the newest one's, and the live
/// pose is the corrected one.
pub proof fn law_adjustment_is_written_back<V, X, P, C>(
    s: Snapshot<V, X, P, C>,
    config: TrackConfig,
    ids: Seq<u64>,
    points: Seq<Option<X>>,
    poses: Seq<P>,
    live: P,
    j: int,
    k: int,
    i: int,
)
    requires
        s.wf(config),
        s.pose is Some,
        s.window.len() > 0,
        poses.len() == s.window.len(),
        ids.len() == points.len(),
        ids.no_duplicates(),
        0 <= i < s.window.len(),
        0 <= j < s.map.len(),
        0 <= k < ids.len() ==> ids[k] == s.map[j].landmark.id,
        !(0 <= k < ids.len()) ==> !ids.contains(s.map[j].landmark.id),
    ensures
        ({
            let t = adjusted(s, ids, points, poses, live);
            let (a, b) = (s.map[j], t.map[j]);
            &&& t.map.len() == s.map.len()
            &&& b.landmark.id == a.landmark.id && b.last_seen == a.last_seen
                && b.landmark.observations == a.landmark.observations
            &&& 0 <= k < ids.len() && points[k] is Some ==> b.landmark.position == points[k]->0
            &&& !(0 <= k < ids.len() && points[k] is Some) ==> b == a
            &&& t.window.len() == s.window.len()
            &&& t.window[i].pose == poses[i]
            &&& t.window[i].observations == s.window[i].observations
            &&& t.pose == Some(live)
            &&& s.keyframe is Some <==> t.keyframe is Some
            &&& s.keyframe is Some ==> t.keyframe->0.pose == poses[poses.len() - 1]
                && t.keyframe->0.observations == s.keyframe->0.observations
            &&& t == (Snapshot {
                map: t.map,
                window: t.window,
                keyframe: t.keyframe,
                pose: t.pose,
                ..s
            })
        }),
{
    lemma_relocated_at(s.map, ids, points, ids.len(), j, k);
    assert(s.map[j].landmark.id == adjusted(s, ids, points, poses, live).map[j].landmark.id);
}

// ---------------------------------------------------------------------------
// The first map
// ---------------------------------------------------------------------------

/// Whether a feature is matched with a reference view: it is in the frame, and the
/// view saw it.
pub open spec fn is_matched<V>(f: Feature<V>, seen: Map<u64, V>) -> bool {
    f.state != FeatureState::Lost && seen.contains_key(f.id)
}

proof fn lemma_matches<V>(features: Seq<Feature<V>>, seen: Map<u64, V>, n: nat, i: int)
    requires
        n <= features.len(),
    ensures
        matched(features, seen, n).len() == how_many(n, |k: int| is_matched(features[k], seen)),
        0 <= i < n && is_matched(features[i], seen) ==> how_many(
            i as nat,
            |k: int| is_matched(features[k], seen),
        ) < matched(features, seen, n).len() && matched(features, seen, n)[how_many(
            i as nat,
            |k: int| is_matched(features[k], seen),
        ) as int] == i,
        forall|a: int, b: int|
            #![trigger matched(features, seen, n)[a], matched(features, seen, n)[b]]
            0 <= a < b < matched(features, seen, n).len() ==> matched(features, seen, n)[a]
                < matched(features, seen, n)[b],
        forall|a: int|
            0 <= a < matched(features, seen, n).len() ==> #[trigger] matched(features, seen, n)[a]
                < n,
    decreases n,
{
    let p = |k: int| is_matched(features[k], seen);
    if n > 0 {
        lemma_matches(features, seen, (n - 1) as nat, i);
        lemma_how_many(n, p);
    } else {
        lemma_how_many(1, p);
    }
}

/// The two-view bootstrap is offered every feature that the reference view saw and that
/// is still in the frame, in the order of the features.
pub proof fn law_every_match_is_offered<V>(features: Seq<Feature<V>>, seen: Map<u64, V>, i: int)
    requires
        0 <= i < features.len(),
        is_matched(features[i], seen),
    ensures
        ({
            let at = matched(features, seen, features.len());
            let p = |k: int| is_matched(features[k], seen);
            &&& at.len() == how_many(features.len(), p)
            &&& how_many(i as nat, p) < at.len()
            &&& at[how_many(i as nat, p) as int] == i
        }),
{
    lemma_matches(features, seen, features.len(), i);
}

proof fn lemma_sown_at<V, X>(
    start: Sowing<V, X>,
    matches: Seq<nat>,
    frame: u64,
    seeds: Seq<Seed<X>>,
    n: nat,
    k: int,
    i: int,
)
    requires
        n <= seeds.len(),
        start.next + seeds.len() <= u64::MAX,
        start.count == 0,
        landmarks_are_given(start.map, start.next as u64),
        forall|a: int| 0 <= a < matches.len() ==> #[trigger] matches[a] < start.features.len(),
        forall|a: int, b: int|
            #![trigger matches[a], matches[b]]
            0 <= a < b < matches.len() ==> matches[a] < matches[b],
        forall|a: int, b: int|
            #![trigger seeds[a], seeds[b]]
            0 <= a < b < seeds.len() ==> seeds[a].match_index != seeds[b].match_index,
        0 <= i < start.features.len(),
    ensures
        ({
            let s = sown(start, matches, frame, seeds, n);
            let valid = |a: int| seeds[a].match_index < matches.len();
            let count = how_many(n, valid);
            &&& s.count == count
            &&& s.next == start.next + count
            &&& s.features.len() == start.features.len()
            &&& s.map.len() == start.map.len() + count
            &&& s.map.take(start.map.len() as int) =~= start.map
            &&& landmarks_are_given(s.map, s.next as u64)
            &&& s.features[i].id == start.features[i].id
            &&& s.features[i].px_undist == start.features[i].px_undist
            &&& (forall|a: int|
                0 <= a < n && valid(a) ==> matches[(#[trigger] seeds[a]).match_index as int] != i)
                ==> s.features[i] == start.features[i]
            &&& 0 <= k < n && valid(k) ==> {
                let r = how_many(k as nat, valid);
                &&& r < count
                &&& s.map[(start.map.len() + r) as int] == (Entry {
                    landmark: LocalLandmark {
                        id: (start.next + r) as u64,
                        position: seeds[k].position,
                        observations: 2,
                    },
                    last_seen: frame,
                })
                &&& matches[seeds[k].match_index as int] == i ==> s.features[i] == (Feature {
                    landmark: Some((start.next + r) as u64),
                    state: FeatureState::Followed,
                    ..start.features[i]
                }) && s.seen.contains_key(start.features[i].id) && (ids_increase(start.features)
                    ==> s.seen[start.features[i].id] == start.features[i].px_undist)
            }
        }),
    decreases n,
{
    let valid = |a: int| seeds[a].match_index < matches.len();
    if n == 0 {
        lemma_how_many(1, valid);
    } else {
        let m = (n - 1) as nat;
        lemma_sown_at(start, matches, frame, seeds, m, k, i);
        lemma_how_many(n, valid);
        lemma_how_many_bound(m, valid);
        let before = sown(start, matches, frame, seeds, m);
        let after = sown(start, matches, frame, seeds, n);
        let seed = seeds[n - 1];
        if valid(n - 1) {
            let at = matches[seed.match_index as int] as int;
            lemma_sown_at(start, matches, frame, seeds, m, k, at);
            let id = before.next as u64;
            if knows(before.map, id) {
                let j = place_of(before.map, id);
                assert(is_at(before.map, id, j));
                assert(before.map[j].landmark.id < id);
            }
            assert(after.map.take(start.map.len() as int) =~= before.map.take(
                start.map.len() as int,
            ));
            if at == i {
                assert forall|a: int| 0 <= a < m && valid(a) implies matches[(
                #[trigger] seeds[a]).match_index as int] != i by {
                    let (x, y) = (seeds[a].match_index as int, seeds[n - 1].match_index as int);
                    assert(x != y);
                    if x < y {
                        assert(matches[x] < matches[y]);
                    } else {
                        assert(matches[y] < matches[x]);
                    }
                }
            }
            if 0 <= k < m && valid(k) && matches[seeds[k].match_index as int] == i {
                let (x, y) = (seeds[k].match_index as int, seeds[n - 1].match_index as int);
                assert(x != y);
                if x < y {
                    assert(matches[x] < matches[y]);
                } else {
                    assert(matches[y] < matches[x]);
                }
                assert(at != i);
                assert(before.features[at].id == start.features[at].id);
                if ids_increase(start.features) {
                    if at < i {
                        assert(start.features[at].id < start.features[i].id);
                    } else {
                        assert(start.features[i].id < start.features[at].id);
                    }
                }
            }
            if at != i && (forall|a: int|
                0 <= a < n && valid(a) ==> matches[(#[trigger] seeds[a]).match_index as int]
                    != i) {
                assert forall|a: int| 0 <= a < m && valid(a) implies matches[(
                #[trigger] seeds[a]).match_index as int] != i by {}
            }
            if forall|a: int|
                0 <= a < n && valid(a) ==> matches[(#[trigger] seeds[a]).match_index as int] != i {
                assert(matches[seeds[n - 1].match_index as int] != i);
            }
        }
    }
}

/// The first map holds what the two views gave. With six landmarks or more, each one
/// that belongs to a match is in the map, where it was triangulated, under an id of
/// its own, seen twice and in this frame; the feature of its match carries it; and the
/// frame has the pose that was found, as the first keyframe. With fewer there is no
/// map, and no feature carries a landmark.
pub proof fn law_first_map_holds_what_was_found<V, X, P, C>(
    s: Snapshot<V, X, P, C>,
    config: TrackConfig,
    pose: P,
    covariance: Option<C>,
    seeds: Seq<Seed<X>>,
    k: int,
    i: int,
)
    requires
        s.wf(config),
        s.map.len() == 0,
        s.bootstrap is Some,
        s.next_landmark_id + seeds.len() <= u64::MAX,
        forall|a: int, b: int|
            #![trigger seeds[a], seeds[b]]
            0 <= a < b < seeds.len() ==> seeds[a].match_index != seeds[b].match_index,
        0 <= k < seeds.len(),
        0 <= i < s.features.len(),
        ({
            let p = |a: int| is_matched(s.features[a], s.bootstrap->0.observations);
            p(i) && seeds[k].match_index == how_many(i as nat, p)
        }),
    ensures
        ({
            let t = after_bootstrap(s, pose, covariance, seeds);
            let f = s.features[i];
            let p = |a: int| is_matched(s.features[a], s.bootstrap->0.observations);
            let offered = how_many(s.features.len(), p);
            let valid = |a: int| seeds[a].match_index < offered;
            let count = how_many(seeds.len(), valid);
            let r = how_many(k as nat, valid);
            let l = (s.next_landmark_id + r) as u64;
            &&& count >= 6 ==> {
                &&& t.map.len() == count
                &&& r < count
                &&& t.map[r as int].landmark.id == l
                &&& t.map[r as int].landmark.position == seeds[k].position
                &&& t.map[r as int].landmark.observations == 2
                &&& t.map[r as int].last_seen == s.frame_index
                &&& t.features[i].landmark == Some(l)
                &&& t.features[i].state == FeatureState::Followed
                &&& t.features[i].id == f.id && t.features[i].px_undist == f.px_undist
                &&& t.pose == Some(pose)
                &&& covariance is None ==> t.covariance is Unbounded
                &&& covariance matches Some(c) ==> t.covariance == Covariance::Solved {
                    value: c,
                    widenings: 0,
                }
                &&& t.keyframe is Some && t.keyframe->0.pose == pose
                &&& t.keyframe->0.observations.contains_key(f.id)
                &&& t.keyframe->0.observations[f.id] == f.px_undist
                &&& t.bootstrap is None && t.window.len() == 0
                &&& t.frames_since_keyframe == 0 && t.solve_failures == 0 && t.reference_landmarks
                    == 0
                &&& t.next_landmark_id == s.next_landmark_id + count
            }
            &&& count < 6 ==> {
                &&& t.map.len() == 0
                &&& t.features[i].landmark is None
                &&& t.pose == s.pose && t.keyframe == s.keyframe && t.bootstrap == s.bootstrap
                &&& t.solve_failures == s.solve_failures && t.frames_since_keyframe
                    == s.frames_since_keyframe
            }
            &&& t.failures == s.failures && t.state == s.state
        }),
{
    let seen = s.bootstrap->0.observations;
    let n = s.features.len();
    lemma_matches(s.features, seen, n, i);
    let matches = matched(s.features, seen, n);
    let start = Sowing {
        features: s.features,
        map: s.map,
        next: s.next_landmark_id as nat,
        seen: Map::empty(),
        count: 0,
    };
    lemma_sown_at(start, matches, s.frame_index, seeds, seeds.len(), k, i);
    lemma_how_many_bound(seeds.len(), |a: int| seeds[a].match_index < matches.len());
}

/// A bootstrap gives no landmark to a feature that no seed belongs to.
pub proof fn law_first_map_leaves_others_alone<V, X, P, C>(
    s: Snapshot<V, X, P, C>,
    config: TrackConfig,
    pose: P,
    covariance: Option<C>,
    seeds: Seq<Seed<X>>,
    i: int,
)
    requires
        s.wf(config),
        s.next_landmark_id + seeds.len() <= u64::MAX,
        forall|a: int, b: int|
            #![trigger seeds[a], seeds[b]]
            0 <= a < b < seeds.len() ==> seeds[a].match_index != seeds[b].match_index,
        0 <= i < s.features.len(),
        s.features[i].landmark is None,
        ({
            let p = |a: int| is_matched(s.features[a], s.bootstrap->0.observations);
            !p(i) || forall|a: int|
                0 <= a < seeds.len() ==> (#[trigger] seeds[a]).match_index != how_many(i as nat, p)
        }),
    ensures
        after_bootstrap(s, pose, covariance, seeds).features.len() == s.features.len(),
        after_bootstrap(s, pose, covariance, seeds).features[i] == s.features[i],
{
    let seen = s.bootstrap->0.observations;
    let n = s.features.len();
    lemma_matches(s.features, seen, n, i);
    let matches = matched(s.features, seen, n);
    let p = |a: int| is_matched(s.features[a], seen);
    let start = Sowing {
        features: s.features,
        map: s.map,
        next: s.next_landmark_id as nat,
        seen: Map::empty(),
        count: 0,
    };
    assert forall|a: int|
        0 <= a < seeds.len() && seeds[a].match_index < matches.len() implies matches[(
    #[trigger] seeds[a]).match_index as int] != i by {
        let x = seeds[a].match_index as int;
        if matches[x] == i {
            crate::track::tracker::lemma_matched(s.features, seen, n, x);
            let r = how_many(i as nat, p) as int;
            assert(matches[r] == i);
            if x < r {
                assert(matches[x] < matches[r]);
            } else if r < x {
                assert(matches[r] < matches[x]);
            }
        }
    }
    lemma_sown_at(start, matches, s.frame_index, seeds, seeds.len(), -1, i);
}

// ---------------------------------------------------------------------------
// Refill, reference view and the end of a frame
// ---------------------------------------------------------------------------

/// Corners are asked for exactly when the features in the frame have drained below the
/// floor, or the frame wants a full set, as a keyframe and a frame without a map do,
/// and the set is not full. Otherwise the frame is over.
pub proof fn law_corners_are_asked_for_when_features_drain<V, X, P, C>(
    p: Progress<V, X, P, C>,
    config: TrackConfig,
)
    ensures
        ({
            let f = p.tracker.features;
            let live = how_many(f.len(), |i: int| f[i].state != FeatureState::Lost);
            let wants_all = p.run.is_keyframe || p.tracker.map.len() == 0;
            let q = topping_up(p, config);
            &&& live < p.run.refill_floor ==> q.run.stage == Stage::Corners
            &&& wants_all && live < config.max_features ==> q.run.stage == Stage::Corners
            &&& live >= p.run.refill_floor && (!wants_all || live >= config.max_features)
                ==> q.run.stage == Stage::Done
            &&& q.run.stage == Stage::Corners ==> q.tracker == p.tracker
        }),
{
    law_live_features_are_counted(p.tracker.features);
}

proof fn lemma_retained_keeps_live<V>(features: Seq<Feature<V>>, spare: nat, n: nat, i: int)
    requires
        0 <= i < n <= features.len(),
        features[i].state != FeatureState::Lost,
    ensures
        retained(features, spare, n).contains(features[i]),
    decreases n,
{
    let before = retained(features, spare, (n - 1) as nat);
    let after = retained(features, spare, n);
    if i < n - 1 {
        lemma_retained_keeps_live(features, spare, (n - 1) as nat, i);
        let k = choose|k: int| 0 <= k < before.len() && before[k] == features[i];
        assert(after[k] == features[i]);
    } else {
        assert(after[before.len() as int] == features[i]);
    }
}

/// Every corner that is taken in becomes a feature, behind those that are there: where
/// it was found, new, without a landmark, and with the next id. Every feature of the
/// frame stays, and a reference view learns of the new ones.
pub proof fn law_corners_become_features<V, X, P, C>(
    s: Snapshot<V, X, P, C>,
    config: TrackConfig,
    corners: Seq<Moved<V>>,
    k: int,
    i: int,
)
    requires
        s.wf(config),
        s.next_feature_id + corners.len() <= u64::MAX,
        how_many(s.features.len(), |a: int| s.features[a].state != FeatureState::Lost)
            + corners.len() <= config.max_features,
        0 <= k < corners.len(),
        0 <= i < s.features.len(),
        s.features[i].state != FeatureState::Lost,
    ensures
        ({
            let t = refilled(s, config, corners);
            let at = t.features.len() - corners.len() + k;
            let f = t.features[at];
            &&& corners.len() <= t.features.len() <= config.max_features
            &&& f.id == s.next_feature_id + k
            &&& f.px == corners[k].px && f.px_undist == corners[k].px_undist
            &&& f.state == FeatureState::New && f.landmark is None && f.age == 0
            &&& t.features.contains(s.features[i])
            &&& t.next_feature_id == s.next_feature_id + corners.len()
            &&& s.bootstrap is Some <==> t.bootstrap is Some
            &&& s.bootstrap is Some ==> t.bootstrap->0.pose == s.bootstrap->0.pose
                && t.bootstrap->0.observations.contains_key(f.id)
            &&& t == (Snapshot {
                features: t.features,
                next_feature_id: t.next_feature_id,
                bootstrap: t.bootstrap,
                ..s
            })
        }),
{
    law_live_features_are_counted(s.features);
    let n = s.features.len();
    let t = refilled(s, config, corners);
    let live = live_count(s.features, n);
    let spare = (config.max_features - live - corners.len()) as nat;
    lemma_retained_keeps_live(s.features, spare, n, i);
    let kept = retained(s.features, spare, n);
    crate::track::tracker::lemma_retained(
        s.features,
        spare,
        n,
        s.next_feature_id,
        s.next_landmark_id,
    );
    crate::track::validity::lemma_refill_keeps_wf(s, config, corners);
    let a = choose|a: int| 0 <= a < kept.len() && kept[a] == s.features[i];
    assert(t.features[a] == s.features[i]);
    if let Some(r) = s.bootstrap {
        let at = t.features.len() - corners.len() + k;
        lemma_seen_also(r.observations, t.features, t.features.len(), at, 0);
    }
}

/// Without a map there is a reference view after every frame. One that knows fewer
/// than eight features, or that is older than forty-five frames, is replaced by a view
/// of this frame, and the count of frames starts anew; any other is kept. With a map
/// nothing is done.
pub proof fn law_reference_is_kept_while_it_may_work<V, X, P, C>(
    s: Snapshot<V, X, P, C>,
    origin: P,
)
    ensures
        ({
            let t = rearmed(s, origin);
            let good = s.bootstrap is Some && s.bootstrap->0.observations.len() >= 8
                && s.frames_since_keyframe <= 45;
            &&& s.map.len() > 0 ==> t == s
            &&& s.map.len() == 0 && good ==> t == s
            &&& s.map.len() == 0 && !good ==> {
                &&& t.bootstrap is Some
                &&& t.bootstrap->0.observations == seen_at(s.features, s.features.len())
                &&& s.pose matches Some(p) ==> t.bootstrap->0.pose == p
                &&& s.pose is None ==> t.bootstrap->0.pose == origin
                &&& s.bootstrap is Some ==> t.frames_since_keyframe == 0
                &&& s.bootstrap is None ==> t.frames_since_keyframe == s.frames_since_keyframe
                &&& t == (Snapshot {
                    bootstrap: t.bootstrap,
                    frames_since_keyframe: t.frames_since_keyframe,
                    ..s
                })
            }
        }),
{
}

/// How well tracking goes, cause by cause. Without a pose or a map it is initialising,
/// or lost if it had a pose and failed three times in a row since. With both, three
/// failures in a row are a loss; then darkness limits it, then motion, then a pose that
/// was not solved by six correspondences or too few features; otherwise it tracks.
pub proof fn law_verdict_names_the_cause<V, X, P, C>(
    s: Snapshot<V, X, P, C>,
    config: TrackConfig,
    low_light: bool,
    flow: FlowSummary,
    flow_is_wide: bool,
    solve: SolveSummary,
)
    ensures
        ({
            let state = verdict(s, config, low_light, flow, flow_is_wide, solve);
            let live = how_many(
                s.features.len(),
                |i: int| s.features[i].state != FeatureState::Lost,
            );
            let mapped = s.pose is Some && s.map.len() > 0;
            let had_pose = s.state is Tracking || s.state is Limited;
            let moving = flow.attempted > 0 && (flow_is_wide || (s.healthy_last_frame
                && flow.attempted >= config.min_features && live * 2 >= flow.attempted
                && flow.survived * 10 < flow.attempted * 3));
            let weak = !solve.solved || solve.inliers < 6 || live < config.min_features;
            let failing = s.solve_failures >= 3;
            &&& !mapped && failing && had_pose ==> state == TrackingState::Lost
            &&& !mapped && !(failing && had_pose) ==> state == TrackingState::Initializing
            &&& mapped && failing ==> state == TrackingState::Lost
            &&& mapped && !failing && low_light ==> state == TrackingState::Limited(
                LimitedReason::LowLight,
            )
            &&& mapped && !failing && !low_light && moving ==> state == TrackingState::Limited(
                LimitedReason::ExcessiveMotion,
            )
            &&& mapped && !failing && !low_light && !moving && weak ==> state
                == TrackingState::Limited(LimitedReason::InsufficientFeatures)
            &&& mapped && !failing && !low_light && !moving && !weak ==> state
                == TrackingState::Tracking
        }),
{
    law_live_features_are_counted(s.features);
}

/// At the end of a frame landmarks that were not seen for more than a hundred and fifty
/// frames are let go, and no other as long as there are no more than four for each
/// feature of the budget; the state is the one that was found, and a frame without a
/// pose that no failure explains is counted as waiting for a map.
pub proof fn law_frame_ends_by_letting_go<V, X, P, C>(
    s: Snapshot<V, X, P, C>,
    config: TrackConfig,
    failures_before: nat,
    solved: bool,
    state: TrackingState,
    j: int,
)
    requires
        s.wf(config),
        s.failures.sum() < usize::MAX,
        0 <= j < s.map.len() <= usize::MAX,
    ensures
        ({
            let t = ended(s, config, failures_before, solved, state);
            let e = s.map[j];
            &&& t.state == state
            &&& t.healthy_last_frame == (state == TrackingState::Tracking)
            &&& s.frame_index - e.last_seen > 150 ==> !t.map.contains(e)
            &&& s.frame_index - e.last_seen <= 150 && s.map.len() <= 4 * config.max_features
                ==> t.map.contains(e)
            &&& t.map.len() <= 4 * config.max_features
            &&& t.failures.too_few_correspondences == s.failures.too_few_correspondences
            &&& t.failures.ransac_failed == s.failures.ransac_failed
            &&& t.failures.too_few_inliers == s.failures.too_few_inliers
            &&& t.failures.awaiting_bootstrap == s.failures.awaiting_bootstrap + (if !solved
                && s.failures.sum() == failures_before {
                1int
            } else {
                0int
            })
            &&& t == (Snapshot {
                state: t.state,
                healthy_last_frame: t.healthy_last_frame,
                map: t.map,
                failures: t.failures,
                ..s
            })
        }),
{
    let t = ended(s, config, failures_before, solved, state);
    let capacity = map_capacity(config);
    crate::track::tracker::law_map_stays_bounded(s, config, failures_before, solved, state);
    if s.frame_index - s.map[j].last_seen > 150 {
        lemma_survivor_is_fresh(s.map, s.frame_index, capacity, s.map.len(), j);
    }
    if s.frame_index - s.map[j].last_seen <= 150 && s.map.len() <= 4 * config.max_features {
        let better = betters(s.map, s.frame_index, 150, j);
        let all = vstd::set_lib::set_int_range(0, s.map.len() as int).remove(j);
        vstd::set_lib::lemma_int_range(0, s.map.len() as int);
        assert(better.subset_of(all));
        vstd::set_lib::lemma_len_subset(better, all);
        lemma_survivor_stays(s.map, s.frame_index, capacity, s.map.len(), j);
    }
}

proof fn lemma_survivor_is_fresh<X>(
    map: Seq<Entry<X>>,
    frame: u64,
    capacity: usize,
    n: nat,
    j: int,
)
    requires
        ids_are_distinct(map),
        n <= map.len(),
        0 <= j < map.len(),
        frame - map[j].last_seen > 150,
    ensures
        !survivors(map, frame, 150, capacity, n).contains(map[j]),
    decreases n,
{
    if n > 0 {
        lemma_survivor_is_fresh(map, frame, capacity, (n - 1) as nat, j);
        let before = survivors(map, frame, 150, capacity, (n - 1) as nat);
        let after = survivors(map, frame, 150, capacity, n);
        if after.contains(map[j]) {
            let k = choose|k: int| 0 <= k < after.len() && after[k] == map[j];
            if k < before.len() {
                assert(before[k] == map[j]);
                assert(before.contains(map[j]));
            }
        }
    }
}

proof fn lemma_survivor_stays<X>(
    map: Seq<Entry<X>>,
    frame: u64,
    capacity: usize,
    n: nat,
    j: int,
)
    requires
        0 <= j < n <= map.len(),
        frame - map[j].last_seen <= 150,
        betters(map, frame, 150, j).len() < capacity,
    ensures
        survivors(map, frame, 150, capacity, n).contains(map[j]),
    decreases n,
{
    let before = survivors(map, frame, 150, capacity, (n - 1) as nat);
    let after = survivors(map, frame, 150, capacity, n);
    if j < n - 1 {
        lemma_survivor_stays(map, frame, capacity, (n - 1) as nat, j);
        let k = choose|k: int| 0 <= k < before.len() && before[k] == map[j];
        assert(after[k] == map[j]);
    } else {
        assert(after[before.len() as int] == map[j]);
    }
}

// ---------------------------------------------------------------------------
// Starting over
// ---------------------------------------------------------------------------

/// A new tracker, and one that was reset, knows nothing: no feature, no landmark, no
/// pose, no view, no failure, and every number starts at zero.
pub proof fn law_new_tracker_knows_nothing<V, X, P, C>(s: Snapshot<V, X, P, C>)
    requires
        s == fresh::<V, X, P, C>(),
    ensures
        s.state == TrackingState::Initializing,
        s.features.len() == 0 && s.map.len() == 0 && s.window.len() == 0,
        s.pose is None && s.keyframe is None && s.bootstrap is None,
        s.covariance is Unbounded,
        s.failures.sum() == 0,
        s.reference_landmarks == 0 && s.next_feature_id == 0 && s.next_landmark_id == 0,
        s.frame_index == 0 && s.frames_since_keyframe == 0 && s.solve_failures == 0,
        !s.healthy_last_frame,
{
}

/// A relocalized tracker has the pose that it was given and nothing of its old map:
/// no feature, landmark or view. The session goes on: frames, failures and ids are
/// counted from where they were.
pub proof fn law_relocalization_keeps_only_the_pose<V, X, P, C>(s: Snapshot<V, X, P, C>, pose: P)
    ensures
        ({
            let t = relocalized(s, pose);
            &&& t.pose == Some(pose) && t.covariance is Unbounded
            &&& t.state == TrackingState::Initializing && !t.healthy_last_frame
            &&& t.features.len() == 0 && t.map.len() == 0 && t.window.len() == 0
            &&& t.keyframe is None && t.bootstrap is None
            &&& t.reference_landmarks == 0 && t.frames_since_keyframe == 0 && t.solve_failures == 0
            &&& t.failures == s.failures && t.frame_index == s.frame_index
            &&& t.next_feature_id == s.next_feature_id && t.next_landmark_id == s.next_landmark_id
        }),
{
}

/// A change of frame moves all that has a place, the pose, every landmark, every
/// keyframe and the reference view, to where it is said to be, and leaves what was
/// seen and counted alone.
pub proof fn law_change_of_frame_moves_every_place<V, X, P, C>(
    s: Snapshot<V, X, P, C>,
    to: Transformed<X, P, C>,
    j: int,
    i: int,
)
    requires
        to.covers(s),
        0 <= j < s.map.len(),
        0 <= i < s.window.len(),
    ensures
        ({
            let t = transformed(s, to);
            &&& t.pose == to.pose && t.covariance == to.covariance
            &&& t.map.len() == s.map.len()
            &&& t.map[j].landmark.position == to.positions@[j]
            &&& t.map[j].landmark.id == s.map[j].landmark.id
            &&& t.map[j].landmark.observations == s.map[j].landmark.observations
            &&& t.map[j].last_seen == s.map[j].last_seen
            &&& t.window.len() == s.window.len()
            &&& t.window[i].pose == to.window@[i]
            &&& t.window[i].observations == s.window[i].observations
            &&& s.keyframe matches Some(v) ==> t.keyframe == Some(
                ReferenceView { pose: to.keyframe->0, observations: v.observations },
            )
            &&& s.bootstrap matches Some(v) ==> t.bootstrap == Some(
                ReferenceView { pose: to.bootstrap->0, observations: v.observations },
            )
            &&& t == (Snapshot {
                pose: t.pose,
                covariance: t.covariance,
                map: t.map,
                window: t.window,
                keyframe: t.keyframe,
                bootstrap: t.bootstrap,
                ..s
            })
        }),
{
}

// ---------------------------------------------------------------------------
// From stage to stage
// ---------------------------------------------------------------------------

/// Once the pose has been tried for, a frame with a pose and a map goes on to look for
/// a keyframe, and any other to look for its first map. What the solve gave is kept.
pub proof fn law_frame_goes_on_by_what_it_has<V, X, P, C>(
    p: Progress<V, X, P, C>,
    config: TrackConfig,
    solve: Option<PoseSolve<P, C>>,
)
    requires
        p.run.stage == Stage::Pose,
    ensures
        ({
            let q = proceeded(p, config, Answer::<V, X, P, C>::Pose { solve });
            let f = p.tracker.features;
            let in_view = how_many(f.len(), |k: int| shows_landmark(f[k], p.tracker.map));
            let solved = in_view >= 6 && solve is Some && solve->0.inlier_count >= 6;
            &&& q.tracker.pose is Some && q.tracker.map.len() > 0 ==> q.run.stage == Stage::Motion
            &&& q.tracker.pose is None || q.tracker.map.len() == 0 ==> q.run.stage
                == Stage::FirstMap
            &&& q.run.solve.solved == solved
            &&& q.run.solve.inliers == (if solved {
                solve->0.inlier_count
            } else {
                0
            })
            &&& solved ==> q.tracker.pose == Some(solve->0.pose) || q.tracker.map.len() == 0
            &&& q.run.is_keyframe == p.run.is_keyframe && q.run.bootstrapped == p.run.bootstrapped
            &&& q.run.flow == p.run.flow && q.run.low_light == p.run.low_light
        }),
{
    lemma_pairs(p.tracker.features, p.tracker.map, p.tracker.features.len());
}

/// A first map makes its frame a keyframe with a pose, solved by the landmarks that are
/// in view; a try that fails leaves the frame as it was.
pub proof fn law_first_map_is_the_frames_solve<V, X, P, C>(
    p: Progress<V, X, P, C>,
    map: Option<FirstMap<X, P, C>>,
)
    requires
        p.tracker.features.len() <= usize::MAX,
    ensures
        ({
            let q = founded(p, map);
            let f = q.tracker.features;
            let in_view = how_many(
                f.len(),
                |i: int| f[i].landmark is Some && f[i].state != FeatureState::Lost,
            );
            let founds = map is Some && harvest(p.tracker, map->0.seeds@).count >= 6;
            &&& map is None ==> q == p
            &&& founds ==> q.run.bootstrapped && q.run.is_keyframe && q.run.solve.solved
                && q.run.solve.inliers == in_view as usize
            &&& !founds ==> q.run == p.run
        }),
{
    law_landmarks_in_view_are_counted(founded(p, map).tracker.features);
}

/// A window that was not adjusted, or not for the better, changes nothing: the pose,
/// the window and the last keyframe stay, and so does every landmark that is kept.
pub proof fn law_worse_window_changes_nothing<V, X, P, C>(
    p: Progress<V, X, P, C>,
    config: TrackConfig,
    window: Option<AdjustedWindow<X, P>>,
)
    requires
        window matches Some(w) ==> !w.improved,
    ensures
        proceeded(p, config, Answer::<V, X, P, C>::Window { adjusted: window }) == topping_up(
            p,
            config,
        ),
{
}

/// A frame that is over reports the state that was found for it, with its map and its
/// features as they then were; its keyframe, if it is one, knows every feature of the
/// frame, and without a map there is a reference view.
pub proof fn law_frame_is_closed_in_order<V, X, P, C>(
    p: Progress<V, X, P, C>,
    config: TrackConfig,
    i: int,
)
    requires
        p.tracker.wf(config),
        p.run.stage == Stage::Corners,
        0 <= i < p.tracker.features.len(),
    ensures
        ({
            let q = closed(p, config);
            let s = p.tracker;
            let f = s.features[i];
            &&& q.run == (FrameRun { stage: Stage::Done, ..p.run })
            &&& q.tracker.features == s.features && q.tracker.pose == s.pose
            &&& q.tracker.window == s.window && q.tracker.covariance == s.covariance
            &&& q.tracker.state == verdict(
                s,
                config,
                p.run.low_light,
                p.run.flow,
                p.run.flow_is_wide,
                p.run.solve,
            )
            &&& !p.run.is_keyframe ==> q.tracker.keyframe == s.keyframe
            &&& p.run.is_keyframe && s.keyframe is Some && f.state != FeatureState::Lost
                ==> q.tracker.keyframe is Some && q.tracker.keyframe->0.pose == s.keyframe->0.pose
                && q.tracker.keyframe->0.observations.contains_key(f.id)
            &&& s.map.len() == 0 ==> q.tracker.bootstrap is Some
            &&& s.map.len() > 0 ==> q.tracker.bootstrap == s.bootstrap
        }),
{
    if let Some(v) = p.tracker.keyframe {
        lemma_seen_also(
            v.observations,
            p.tracker.features,
            p.tracker.features.len(),
            i,
            0,
        );
    }
}

// ---------------------------------------------------------------------------
// The frame as a whole
// ---------------------------------------------------------------------------

/// A frame begins by following its features, with nothing followed, solved or promoted
/// yet, and with what it was told about its light, its features and its origin.
pub proof fn law_frame_begins_with_what_it_is_told<V, X, P, C>(
    s: Snapshot<V, X, P, C>,
    low_light: bool,
    refill_floor: usize,
    origin: P,
)
    requires
        s.failures.sum() <= usize::MAX,
    ensures
        ({
            let p = begun(s, low_light, refill_floor, origin);
            let outcome = outcome_of(p);
            &&& p.run.stage == Stage::Flow
            &&& p.run.low_light == low_light && p.run.refill_floor == refill_floor
            &&& p.run.origin == origin
            &&& p.run.failures_before == s.failures.sum()
            &&& !p.run.flow_is_wide && p.run.flow.attempted == 0 && !p.run.solve.solved
            &&& outcome.tracked_count == 0 && outcome.inlier_count == 0
            &&& !outcome.is_keyframe && !outcome.bootstrapped
            &&& outcome.pose == s.pose && outcome.state == s.state
            &&& p.tracker == frame_begun(s)
        }),
{
}

/// What a frame was told at its beginning holds to its end, and each of its answers
/// decides what is asked in it and nothing else: the flow how many features were
/// followed, the pose how many landmarks agree with it, and the first map both that and
/// that the frame is a keyframe, which triangulation does too.
pub proof fn law_answers_decide_what_they_are_asked<V, X, P, C>(
    p: Progress<V, X, P, C>,
    config: TrackConfig,
    answer: Answer<V, X, P, C>,
)
    requires
        fits(p, config, answer),
    ensures
        ({
            let q = proceeded(p, config, answer);
            let (a, b) = (outcome_of(p), outcome_of(q));
            let stage = p.run.stage;
            &&& q.run.low_light == p.run.low_light && q.run.refill_floor == p.run.refill_floor
            &&& q.run.origin == p.run.origin && q.run.failures_before == p.run.failures_before
            &&& stage != Stage::Flow ==> b.tracked_count == a.tracked_count && q.run.flow
                == p.run.flow && q.run.flow_is_wide == p.run.flow_is_wide
            &&& stage != Stage::Pose && stage != Stage::FirstMap ==> b.inlier_count
                == a.inlier_count && q.run.solve == p.run.solve
            &&& stage != Stage::FirstMap ==> b.bootstrapped == a.bootstrapped
            &&& stage != Stage::FirstMap && stage != Stage::Points ==> b.is_keyframe
                == a.is_keyframe
            &&& stage == Stage::Points ==> b.is_keyframe
            &&& b.pose == q.tracker.pose && b.state == q.tracker.state && b.covariance
                == q.tracker.covariance
        }),
{
}

/// The features reported as tracked are those that the flow found.
pub proof fn law_tracked_features_are_those_found<V, X, P, C>(
    p: Progress<V, X, P, C>,
    config: TrackConfig,
    results: Vec<Option<Moved<V>>>,
    is_wide: bool,
)
    requires
        p.run.stage == Stage::Flow,
        p.tracker.features.len() == results@.len(),
        0 < p.tracker.features.len() <= usize::MAX,
        forall|k: int|
            0 <= k < p.tracker.features.len() ==> (#[trigger] p.tracker.features[k]).state
                != FeatureState::Lost,
    ensures
        outcome_of(
            proceeded(
                p,
                config,
                Answer::<V, X, P, C>::Flow { results: Some(results), is_wide },
            ),
        ).tracked_count == how_many(results@.len(), |k: int| results@[k] is Some),
{
    law_flow_moves_what_it_finds(p, config, results, is_wide, 0);
}

/// The problem of a window holds the context and the anchors asked for, always one
/// keyframe at least, and leaves one at least to move; it asks for every keyframe and
/// for one point per landmark.
pub proof fn law_window_problem_leaves_one_to_move<V, X, P, C>(
    s: Snapshot<V, X, P, C>,
    config: TrackConfig,
    w: WindowProblem<V, X, P>,
)
    requires
        w.is_of(s, config),
        s.window.len() >= 2,
    ensures
        ({
            let held = w.problem.fixed_poses;
            let n = s.window.len();
            &&& 1 <= held < n
            &&& held == n - 1 || (held >= config.local_ba_fixed && held >= config.local_ba_context)
            &&& held == 1 || held <= config.local_ba_fixed || held <= config.local_ba_context
            &&& w.problem.poses@.len() == n
            &&& w.problem.points@.len() == w.ids@.len()
        }),
{
    law_window_is_held_by_its_oldest(s, config);
}

} // verus!
