//! What every stage keeps: each step of a frame leads from one valid state of the
//! tracker to another.

use vstd::prelude::*;

use crate::track::local_map::{
    ids_are_distinct, is_at, knows, place_of, survivors, with_landmark, Entry, LocalLandmark,
};
use crate::track::tracker::{
    abandoned, adjusted, after_bootstrap, after_solve, ended, followed, frame_begun, gains, grown,
    harvest, ids_are_given, ids_increase, is_candidate, is_live, is_paired, landmarks_are_given,
    lemma_live_count, lemma_matched, lemma_position_keeps_ids, lemma_retained,
    lemma_sighting_keeps_ids, lemma_with_gains, live_count, map_capacity, marked, matched, pairs_of,
    promoted, rearmed, refilled, relocated, retained, same_ids, sighted, sow, sown, topped_up,
    transformed, with_gains, Feature, Moved, PoseSolve, Seed, Snapshot, Sowing, TrackConfig,
    TrackingState, Transformed, LANDMARK_TTL_FRAMES,
};

verus! {

/// Two lists of features name the same features in the same order.
spec fn same_names<V>(a: Seq<Feature<V>>, b: Seq<Feature<V>>) -> bool {
    a.len() == b.len() && forall|i: int| 0 <= i < a.len() ==> (#[trigger] a[i]).id == b[i].id
}

/// The landmarks that features point at have been given out.
spec fn pointers_are_given<V>(features: Seq<Feature<V>>, next: u64) -> bool {
    forall|i: int|
        0 <= i < features.len() ==> ((#[trigger] features[i]).landmark matches Some(l) ==> l < next)
}

proof fn lemma_names<V>(
    a: Seq<Feature<V>>,
    b: Seq<Feature<V>>,
    next_feature: u64,
    before: u64,
    next_landmark: u64,
)
    requires
        same_names(a, b),
        ids_increase(a),
        ids_are_given(a, next_feature, before),
        pointers_are_given(b, next_landmark),
    ensures
        ids_increase(b),
        ids_are_given(b, next_feature, next_landmark),
{
    assert forall|i: int, j: int|
        #![trigger b[i], b[j]]
        0 <= i < j < b.len() implies b[i].id < b[j].id by {
        assert(a[i].id < a[j].id);
    }
    assert forall|i: int| 0 <= i < b.len() implies (#[trigger] b[i]).id < next_feature && (
    b[i].landmark matches Some(l) ==> l < next_landmark) by {
        assert(a[i].id < next_feature);
    }
}

proof fn lemma_landmarks<X>(a: Seq<Entry<X>>, b: Seq<Entry<X>>, next: u64)
    requires
        same_ids(a, b),
        ids_are_distinct(a),
        landmarks_are_given(a, next),
    ensures
        ids_are_distinct(b),
        landmarks_are_given(b, next),
{
    assert forall|i: int, j: int|
        #![trigger b[i], b[j]]
        0 <= i < j < b.len() implies b[i].landmark.id != b[j].landmark.id by {
        assert(a[i].landmark.id != a[j].landmark.id);
    }
    assert forall|i: int| 0 <= i < b.len() implies (#[trigger] b[i]).landmark.id < next by {
        assert(a[i].landmark.id < next);
    }
}

// ---------------------------------------------------------------------------
// Flow
// ---------------------------------------------------------------------------

/// Beginning a frame keeps the state valid.
pub(crate) proof fn lemma_beginning_keeps_wf<V, X, P, C>(
    s: Snapshot<V, X, P, C>,
    config: TrackConfig,
)
    requires
        s.wf(config),
        s.frame_index < u64::MAX,
    ensures
        frame_begun(s).wf(config),
{
    lemma_retained(s.features, 0, s.features.len(), s.next_feature_id, s.next_landmark_id);
}

/// Following features keeps the state valid.
pub(crate) proof fn lemma_flow_keeps_wf<V, X, P, C>(
    s: Snapshot<V, X, P, C>,
    config: TrackConfig,
    results: Seq<Option<Moved<V>>>,
)
    requires
        s.wf(config),
    ensures
        (Snapshot { features: followed(s.features, results), ..s }).wf(config),
{
    let features = followed(s.features, results);
    assert(pointers_are_given(features, s.next_landmark_id)) by {
        assert forall|i: int| 0 <= i < features.len() implies ((
        #[trigger] features[i]).landmark matches Some(l) ==> l < s.next_landmark_id) by {
            assert(s.features[i].landmark == features[i].landmark);
        }
    }
    lemma_names(
        s.features,
        features,
        s.next_feature_id,
        s.next_landmark_id,
        s.next_landmark_id,
    );
}

// ---------------------------------------------------------------------------
// Pose
// ---------------------------------------------------------------------------

proof fn lemma_marked<V, X>(
    features: Seq<Feature<V>>,
    map: Seq<Entry<X>>,
    inliers: Seq<bool>,
    n: nat,
)
    requires
        n <= features.len(),
    ensures
        marked(features, map, inliers, n).len() == n,
        forall|i: int|
            0 <= i < n ==> (#[trigger] marked(features, map, inliers, n)[i]).id == features[i].id
                && marked(features, map, inliers, n)[i].landmark == features[i].landmark,
    decreases n,
{
    if n > 0 {
        lemma_marked(features, map, inliers, (n - 1) as nat);
        let before = marked(features, map, inliers, (n - 1) as nat);
        assert forall|i: int| 0 <= i < n implies (#[trigger] marked(features, map, inliers, n)[i]).id
            == features[i].id && marked(features, map, inliers, n)[i].landmark
            == features[i].landmark by {
            if i < n - 1 {
                assert(marked(features, map, inliers, n)[i] == before[i]);
            }
        }
    }
}

proof fn lemma_sighted<V, X>(
    features: Seq<Feature<V>>,
    map: Seq<Entry<X>>,
    inliers: Seq<bool>,
    frame: u64,
    n: nat,
)
    ensures
        same_ids(map, sighted(features, map, inliers, frame, n)),
    decreases n,
{
    if n > 0 {
        lemma_sighted(features, map, inliers, frame, (n - 1) as nat);
        let before = sighted(features, map, inliers, frame, (n - 1) as nat);
        let f = features[n - 1];
        if f.landmark is Some {
            lemma_sighting_keeps_ids(before, f.landmark->0, frame);
        }
        let after = sighted(features, map, inliers, frame, n);
        assert forall|i: int| 0 <= i < map.len() implies (#[trigger] map[i]).landmark.id
            == after[i].landmark.id by {
            assert(before[i].landmark.id == after[i].landmark.id);
        }
    }
}

/// Landmarks in view are landmarks of a map.
pub(crate) proof fn lemma_pairs_need_a_map<V, X>(
    features: Seq<Feature<V>>,
    map: Seq<Entry<X>>,
    n: nat,
)
    requires
        map.len() == 0,
    ensures
        pairs_of(features, map, n).len() == 0,
    decreases n,
{
    if n > 0 {
        lemma_pairs_need_a_map(features, map, (n - 1) as nat);
        let f = features[n - 1];
        if is_paired(f, map) {
            assert(is_at(map, f.landmark->0, place_of(map, f.landmark->0)));
        }
    }
}

/// Recording a solve keeps the state valid, as long as this frame has not been
/// counted as failed yet.
pub(crate) proof fn lemma_solve_keeps_wf<V, X, P, C>(
    s: Snapshot<V, X, P, C>,
    config: TrackConfig,
    solve: Option<PoseSolve<P, C>>,
)
    requires
        s.wf(config),
        s.failures.sum() < s.frame_index,
        s.failures.sum() < usize::MAX,
    ensures
        after_solve(s, solve).wf(config),
        after_solve(s, solve).map.len() == s.map.len(),
{
    if let Some(p) = solve {
        let n = s.features.len();
        lemma_marked(s.features, s.map, p.inliers@, n);
        lemma_sighted(s.features, s.map, p.inliers@, s.frame_index, n);
        let features = marked(s.features, s.map, p.inliers@, n);
        let map = sighted(s.features, s.map, p.inliers@, s.frame_index, n);
        assert(same_names(s.features, features));
        assert(pointers_are_given(features, s.next_landmark_id)) by {
            assert forall|i: int| 0 <= i < features.len() implies ((
            #[trigger] features[i]).landmark matches Some(l) ==> l < s.next_landmark_id) by {
                assert(s.features[i].landmark == features[i].landmark);
            }
        }
        lemma_names(
            s.features,
            features,
            s.next_feature_id,
            s.next_landmark_id,
            s.next_landmark_id,
        );
        lemma_landmarks(s.map, map, s.next_landmark_id);
    }
}

/// Giving a map up keeps the state valid.
pub(crate) proof fn lemma_abandoning_keeps_wf<V, X, P, C>(
    s: Snapshot<V, X, P, C>,
    config: TrackConfig,
)
    requires
        s.wf(config),
    ensures
        abandoned(s).wf(config),
{
    let t = abandoned(s);
    if t.features.len() == s.features.len() && t.map.len() == 0 {
        lemma_names(
            s.features,
            t.features,
            s.next_feature_id,
            s.next_landmark_id,
            s.next_landmark_id,
        );
    }
}

// ---------------------------------------------------------------------------
// Keyframes
// ---------------------------------------------------------------------------

proof fn lemma_inserted<X>(map: Seq<Entry<X>>, landmark: LocalLandmark<X>, frame: u64, next: u64)
    requires
        ids_are_distinct(map),
        landmarks_are_given(map, next),
        landmark.id == next,
        next < u64::MAX,
    ensures
        with_landmark(map, landmark, frame).len() == map.len() + 1,
        ids_are_distinct(with_landmark(map, landmark, frame)),
        landmarks_are_given(with_landmark(map, landmark, frame), (next + 1) as u64),
{
    if knows(map, landmark.id) {
        let i = place_of(map, landmark.id);
        assert(is_at(map, landmark.id, i));
        assert(map[i].landmark.id < next);
    }
    let after = with_landmark(map, landmark, frame);
    assert forall|i: int, j: int|
        #![trigger after[i], after[j]]
        0 <= i < j < after.len() implies after[i].landmark.id != after[j].landmark.id by {
        assert(map[i].landmark.id < next);
        if j < map.len() {
            assert(map[i].landmark.id != map[j].landmark.id);
        }
    }
}

proof fn lemma_gains<V, X>(
    features: Seq<Feature<V>>,
    seen: Map<u64, V>,
    points: Seq<Option<X>>,
    map: Seq<Entry<X>>,
    next: u64,
    frame: u64,
    n: nat,
)
    requires
        n <= features.len(),
        next + n <= u64::MAX,
        ids_are_distinct(map),
        landmarks_are_given(map, next),
        pointers_are_given(features, next),
    ensures
        gains(features, seen, points, n) <= n,
        with_gains(features, seen, points, next, n).len() == n,
        forall|i: int|
            0 <= i < n ==> (#[trigger] with_gains(features, seen, points, next, n)[i]).id
                == features[i].id,
        pointers_are_given(
            with_gains(features, seen, points, next, n),
            (next + gains(features, seen, points, n)) as u64,
        ),
        ids_are_distinct(grown(map, features, seen, points, next, frame, n)),
        landmarks_are_given(
            grown(map, features, seen, points, next, frame, n),
            (next + gains(features, seen, points, n)) as u64,
        ),
    decreases n,
{
    if n > 0 {
        let m = (n - 1) as nat;
        lemma_gains(features, seen, points, map, next, frame, m);
        let f = features[n - 1];
        let given = (next + gains(features, seen, points, m)) as u64;
        let before = with_gains(features, seen, points, next, m);
        let after = with_gains(features, seen, points, next, n);
        assert forall|i: int| 0 <= i < n implies (#[trigger] after[i]).id == features[i].id && (
        after[i].landmark matches Some(l) ==> l < next + gains(features, seen, points, n)) by {
            if i < m {
                assert(after[i] == before[i]);
            } else {
                assert(f.landmark matches Some(l) ==> l < next);
            }
        }
        if is_candidate(f, seen) && points[n - 1] is Some {
            lemma_inserted(
                grown(map, features, seen, points, next, frame, m),
                LocalLandmark { id: given, position: points[n - 1]->0, observations: 2 },
                frame,
                given,
            );
        }
    }
}

/// Making a keyframe keeps the state valid.
pub(crate) proof fn lemma_promotion_keeps_wf<V, X, P, C>(
    s: Snapshot<V, X, P, C>,
    config: TrackConfig,
    points: Seq<Option<X>>,
)
    requires
        s.wf(config),
        s.pose is Some,
        s.next_landmark_id + s.features.len() <= u64::MAX,
    ensures
        promoted(s, config, points).wf(config),
{
    let seen = s.keyframe->0.observations;
    let n = s.features.len();
    let t = promoted(s, config, points);
    lemma_gains(s.features, seen, points, s.map, s.next_landmark_id, s.frame_index, n);
    assert(same_names(s.features, t.features));
    lemma_names(
        s.features,
        t.features,
        s.next_feature_id,
        s.next_landmark_id,
        t.next_landmark_id,
    );
}

proof fn lemma_relocated<X>(map: Seq<Entry<X>>, ids: Seq<u64>, points: Seq<Option<X>>, n: nat)
    ensures
        same_ids(map, relocated(map, ids, points, n)),
    decreases n,
{
    if n > 0 {
        lemma_relocated(map, ids, points, (n - 1) as nat);
        let before = relocated(map, ids, points, (n - 1) as nat);
        let after = relocated(map, ids, points, n);
        if let Some(x) = points[n - 1] {
            lemma_position_keeps_ids(before, ids[n - 1], x);
        }
        assert forall|i: int| 0 <= i < map.len() implies (#[trigger] map[i]).landmark.id
            == after[i].landmark.id by {
            assert(before[i].landmark.id == after[i].landmark.id);
        }
    }
}

/// Writing an adjusted window back keeps the state valid.
pub(crate) proof fn lemma_adjustment_keeps_wf<V, X, P, C>(
    s: Snapshot<V, X, P, C>,
    config: TrackConfig,
    ids: Seq<u64>,
    points: Seq<Option<X>>,
    poses: Seq<P>,
    live: P,
)
    requires
        s.wf(config),
    ensures
        adjusted(s, ids, points, poses, live).wf(config),
{
    lemma_relocated(s.map, ids, points, ids.len());
    lemma_landmarks(s.map, relocated(s.map, ids, points, ids.len()), s.next_landmark_id);
}

// ---------------------------------------------------------------------------
// The first map
// ---------------------------------------------------------------------------

/// What has been sown is named properly.
spec fn is_sound<V, X>(s: Sowing<V, X>, features: Seq<Feature<V>>) -> bool {
    &&& s.next <= u64::MAX
    &&& same_names(features, s.features)
    &&& pointers_are_given(s.features, s.next as u64)
    &&& ids_are_distinct(s.map)
    &&& landmarks_are_given(s.map, s.next as u64)
}

proof fn lemma_sown<V, X>(
    start: Sowing<V, X>,
    features: Seq<Feature<V>>,
    matches: Seq<nat>,
    frame: u64,
    seeds: Seq<Seed<X>>,
    n: nat,
)
    requires
        is_sound(start, features),
        start.next + n <= u64::MAX,
        forall|k: int| 0 <= k < matches.len() ==> #[trigger] matches[k] < features.len(),
    ensures
        is_sound(sown(start, matches, frame, seeds, n), features),
        sown(start, matches, frame, seeds, n).next <= start.next + n,
    decreases n,
{
    if n > 0 {
        lemma_sown(start, features, matches, frame, seeds, (n - 1) as nat);
        let before = sown(start, matches, frame, seeds, (n - 1) as nat);
        let seed = seeds[n - 1];
        let after = sow(before, matches, frame, seed);
        if seed.match_index < matches.len() {
            let at = matches[seed.match_index as int] as int;
            lemma_inserted(
                before.map,
                LocalLandmark { id: before.next as u64, position: seed.position, observations: 2 },
                frame,
                before.next as u64,
            );
            assert forall|i: int| 0 <= i < features.len() implies (#[trigger] features[i]).id
                == after.features[i].id by {
                assert(features[i].id == before.features[i].id);
            }
            assert forall|i: int| 0 <= i < after.features.len() implies ((
            #[trigger] after.features[i]).landmark matches Some(l) ==> l < after.next) by {
                if i != at {
                    assert(after.features[i] == before.features[i]);
                }
            }
        }
    }
}

/// Trying for a first map keeps the state valid.
pub(crate) proof fn lemma_bootstrap_keeps_wf<V, X, P, C>(
    s: Snapshot<V, X, P, C>,
    config: TrackConfig,
    pose: P,
    covariance: Option<C>,
    seeds: Seq<Seed<X>>,
)
    requires
        s.wf(config),
        s.next_landmark_id + seeds.len() <= u64::MAX,
    ensures
        after_bootstrap(s, pose, covariance, seeds).wf(config),
{
    let matches = matched(s.features, s.bootstrap->0.observations, s.features.len());
    let start = Sowing {
        features: s.features,
        map: s.map,
        next: s.next_landmark_id as nat,
        seen: Map::empty(),
        count: 0,
    };
    assert forall|k: int| 0 <= k < matches.len() implies #[trigger] matches[k] < s.features.len() by {
        lemma_matched(s.features, s.bootstrap->0.observations, s.features.len(), k);
    }
    assert(is_sound(start, s.features));
    lemma_sown(start, s.features, matches, s.frame_index, seeds, seeds.len());
    let h = harvest(s, seeds);
    let t = after_bootstrap(s, pose, covariance, seeds);
    assert(same_names(s.features, t.features)) by {
        assert forall|i: int| 0 <= i < s.features.len() implies (#[trigger] s.features[i]).id
            == t.features[i].id by {
            assert(s.features[i].id == h.features[i].id);
        }
    }
    assert(pointers_are_given(t.features, t.next_landmark_id));
    lemma_names(
        s.features,
        t.features,
        s.next_feature_id,
        s.next_landmark_id,
        t.next_landmark_id,
    );
}

// ---------------------------------------------------------------------------
// Refill and the end of a frame
// ---------------------------------------------------------------------------

/// Taking corners in keeps the state valid, as long as there is room for them.
pub(crate) proof fn lemma_refill_keeps_wf<V, X, P, C>(
    s: Snapshot<V, X, P, C>,
    config: TrackConfig,
    corners: Seq<Moved<V>>,
)
    requires
        s.wf(config),
        live_count(s.features, s.features.len()) + corners.len() <= config.max_features,
        s.next_feature_id + corners.len() <= u64::MAX,
    ensures
        refilled(s, config, corners).wf(config),
{
    let t = refilled(s, config, corners);
    let live = live_count(s.features, s.features.len());
    if live < config.max_features {
        let spare = (config.max_features - live - corners.len()) as nat;
        let kept = retained(s.features, spare, s.features.len());
        let n = kept.len();
        lemma_retained(s.features, spare, s.features.len(), s.next_feature_id, s.next_landmark_id);
        assert(t.features == topped_up(kept, corners, s.next_feature_id));
        assert forall|i: int, j: int|
            #![trigger t.features[i], t.features[j]]
            0 <= i < j < t.features.len() implies t.features[i].id < t.features[j].id by {
            if i < n {
                assert(kept[i].id < s.next_feature_id);
                if j < n {
                    assert(kept[i].id < kept[j].id);
                }
            }
        }
        assert forall|i: int| 0 <= i < t.features.len() implies (#[trigger] t.features[i]).id
            < t.next_feature_id && (t.features[i].landmark matches Some(l) ==> l
            < t.next_landmark_id) by {
            if i < n {
                assert(kept[i].id < s.next_feature_id);
            }
        }
    }
}

proof fn lemma_survivors<X>(
    map: Seq<Entry<X>>,
    frame: u64,
    ttl: u64,
    capacity: usize,
    n: nat,
    next: u64,
)
    requires
        n <= map.len(),
        ids_are_distinct(map),
        landmarks_are_given(map, next),
    ensures
        survivors(map, frame, ttl, capacity, n).len() <= n,
        ids_are_distinct(survivors(map, frame, ttl, capacity, n)),
        landmarks_are_given(survivors(map, frame, ttl, capacity, n), next),
        forall|k: int, j: int|
            #![trigger survivors(map, frame, ttl, capacity, n)[k], map[j]]
            0 <= k < survivors(map, frame, ttl, capacity, n).len() && n <= j < map.len()
                ==> survivors(map, frame, ttl, capacity, n)[k].landmark.id != map[j].landmark.id,
    decreases n,
{
    if n > 0 {
        lemma_survivors(map, frame, ttl, capacity, (n - 1) as nat, next);
        let before = survivors(map, frame, ttl, capacity, (n - 1) as nat);
        let after = survivors(map, frame, ttl, capacity, n);
        let e = map[n - 1];
        assert(e.landmark.id < next);
        assert forall|k: int, j: int|
            #![trigger after[k], map[j]]
            0 <= k < after.len() && n <= j < map.len() implies after[k].landmark.id
            != map[j].landmark.id by {
            if k < before.len() {
                assert(before[k].landmark.id != map[j].landmark.id);
            } else {
                assert(e.landmark.id != map[j].landmark.id);
            }
        }
    }
}

/// Ending a frame keeps the state valid and bounds the map.
pub(crate) proof fn lemma_ending_keeps_wf<V, X, P, C>(
    s: Snapshot<V, X, P, C>,
    config: TrackConfig,
    failures_before: nat,
    solved: bool,
    state: TrackingState,
)
    requires
        s.wf(config),
        failures_before < s.frame_index <= usize::MAX,
    ensures
        ended(s, config, failures_before, solved, state).wf(config),
        ended(s, config, failures_before, solved, state).map.len() <= map_capacity(config),
{
    lemma_survivors(
        s.map,
        s.frame_index,
        LANDMARK_TTL_FRAMES,
        map_capacity(config),
        s.map.len(),
        s.next_landmark_id,
    );
    crate::track::tracker::law_map_stays_bounded(s, config, failures_before, solved, state);
}

/// Taking up a reference view keeps the state valid.
pub(crate) proof fn lemma_rearming_keeps_wf<V, X, P, C>(
    s: Snapshot<V, X, P, C>,
    config: TrackConfig,
    origin: P,
)
    requires
        s.wf(config),
    ensures
        rearmed(s, origin).wf(config),
{
}

/// A change of frame keeps the state valid.
pub(crate) proof fn lemma_transforming_keeps_wf<V, X, P, C>(
    s: Snapshot<V, X, P, C>,
    config: TrackConfig,
    t: Transformed<X, P, C>,
)
    requires
        s.wf(config),
        t.covers(s),
    ensures
        transformed(s, t).wf(config),
        transformed(s, t).map.len() == s.map.len(),
{
    lemma_landmarks(s.map, transformed(s, t).map, s.next_landmark_id);
}

// ---------------------------------------------------------------------------
// Lost features
// ---------------------------------------------------------------------------

pub(crate) proof fn lemma_marking_keeps_lost<V, X>(
    features: Seq<Feature<V>>,
    map: Seq<Entry<X>>,
    inliers: Seq<bool>,
    n: nat,
    i: int,
)
    requires
        0 <= i < n <= features.len(),
        !is_live(features[i]),
    ensures
        marked(features, map, inliers, n).len() == n,
        marked(features, map, inliers, n)[i] == features[i],
    decreases n,
{
    lemma_marked(features, map, inliers, n);
    lemma_marked(features, map, inliers, (n - 1) as nat);
    if i < n - 1 {
        lemma_marking_keeps_lost(features, map, inliers, (n - 1) as nat, i);
    }
}

pub(crate) proof fn lemma_gaining_keeps_lost<V, X>(
    features: Seq<Feature<V>>,
    seen: Map<u64, V>,
    points: Seq<Option<X>>,
    next: u64,
    n: nat,
    i: int,
)
    requires
        0 <= i < n <= features.len(),
        !is_live(features[i]),
    ensures
        with_gains(features, seen, points, next, n).len() == n,
        with_gains(features, seen, points, next, n)[i] == features[i],
{
    lemma_with_gains(features, seen, points, next, n, i);
}

proof fn lemma_sowing_keeps_others<V, X>(
    start: Sowing<V, X>,
    matches: Seq<nat>,
    frame: u64,
    seeds: Seq<Seed<X>>,
    n: nat,
    i: int,
)
    requires
        0 <= i < start.features.len(),
        forall|k: int|
            0 <= k < matches.len() ==> #[trigger] matches[k] != i && matches[k]
                < start.features.len(),
    ensures
        sown(start, matches, frame, seeds, n).features.len() == start.features.len(),
        sown(start, matches, frame, seeds, n).features[i] == start.features[i],
    decreases n,
{
    if n > 0 {
        lemma_sowing_keeps_others(start, matches, frame, seeds, (n - 1) as nat, i);
        let seed = seeds[n - 1];
        if seed.match_index < matches.len() {
            assert(matches[seed.match_index as int] != i);
        }
    }
}

/// Trying for a first map leaves lost features lost.
pub(crate) proof fn lemma_bootstrap_keeps_lost<V, X, P, C>(
    s: Snapshot<V, X, P, C>,
    pose: P,
    covariance: Option<C>,
    seeds: Seq<Seed<X>>,
    i: int,
)
    requires
        0 <= i < s.features.len(),
        !is_live(s.features[i]),
    ensures
        ({
            let t = after_bootstrap(s, pose, covariance, seeds);
            &&& t.features.len() == s.features.len()
            &&& t.features[i].id == s.features[i].id
            &&& t.features[i].state == s.features[i].state
        }),
{
    let seen = s.bootstrap->0.observations;
    let matches = matched(s.features, seen, s.features.len());
    assert forall|k: int| 0 <= k < matches.len() implies #[trigger] matches[k] != i && matches[k]
        < s.features.len() by {
        lemma_matched(s.features, seen, s.features.len(), k);
    }
    lemma_sowing_keeps_others(
        Sowing {
            features: s.features,
            map: s.map,
            next: s.next_landmark_id as nat,
            seen: Map::empty(),
            count: 0,
        },
        matches,
        s.frame_index,
        seeds,
        seeds.len(),
        i,
    );
}

/// With room for them all, every lost feature is retained.
pub(crate) proof fn lemma_room_retains_all<V>(features: Seq<Feature<V>>, spare: nat, n: nat)
    requires
        n <= features.len(),
        n - live_count(features, n) <= spare,
    ensures
        retained(features, spare, n) =~= features.take(n as int),
    decreases n,
{
    if n > 0 {
        lemma_room_retains_all(features, spare, (n - 1) as nat);
        assert(features.take(n as int) =~= features.take(n - 1).push(features[n - 1]));
    }
}

/// Without room, none is.
pub(crate) proof fn lemma_no_room_retains_none<V>(features: Seq<Feature<V>>, n: nat, i: int)
    requires
        n <= features.len(),
        0 <= i < retained(features, 0, n).len(),
    ensures
        is_live(retained(features, 0, n)[i]),
    decreases n,
{
    if n > 0 {
        lemma_live_count(features, (n - 1) as nat);
        let before = retained(features, 0, (n - 1) as nat);
        if i < before.len() {
            lemma_no_room_retains_none(features, (n - 1) as nat, i);
        }
    }
}

} // verus!
