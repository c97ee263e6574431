//! Local bundle adjustment: which variables of a window are free, how a step is
//! applied to them, and which observations disagree afterwards.
//!
//! `P` is the type of a pose, `X` that of a position and `V` that of a pixel.

use vstd::prelude::*;

use crate::count::{how_many, lemma_how_many};

verus! {

/// Trials in a row that raise the damping before a solve is taken to be at its
/// minimum.
pub const MAX_ESCALATIONS: usize = 8;

/// One landmark seen in one keyframe.
#[derive(Debug, Clone, Copy)]
pub struct Observation<V> {
    /// Index into the poses.
    pub keyframe: usize,
    /// Index into the points.
    pub point: usize,
    /// Where it was seen, in undistorted pixels.
    pub px: V,
}

/// A windowed bundle-adjustment problem.
#[derive(Debug)]
pub struct LocalBaProblem<P, X, V> {
    /// Keyframe poses, oldest first.
    pub poses: Vec<P>,
    /// How many of the leading poses are held fixed.
    pub fixed_poses: usize,
    /// Landmark positions.
    pub points: Vec<X>,
    /// The observation graph.
    pub observations: Vec<Observation<V>>,
}

/// The keyframes that see a point, by the first `n` observations.
pub open spec fn seen_by<V>(observations: Seq<Observation<V>>, point: int, n: nat) -> Set<usize>
    decreases n,
{
    if n == 0 {
        Set::empty()
    } else {
        let before = seen_by(observations, point, (n - 1) as nat);
        if observations[n - 1].point == point {
            before.insert(observations[n - 1].keyframe)
        } else {
            before
        }
    }
}

/// How many keyframes see a point. Seen twice by one keyframe, it is seen by one.
pub open spec fn sightings<V>(observations: Seq<Observation<V>>, point: int) -> nat {
    seen_by(observations, point, observations.len()).len()
}

proof fn lemma_seen_by<V>(observations: Seq<Observation<V>>, point: int, n: nat)
    ensures
        seen_by(observations, point, n).finite(),
        seen_by(observations, point, n).len() <= n,
    decreases n,
{
    if n > 0 {
        lemma_seen_by(observations, point, (n - 1) as nat);
    }
}

/// How many of the first `n` points are seen by at least `min` keyframes.
pub open spec fn free_before<V>(observations: Seq<Observation<V>>, min: nat, n: nat) -> nat
    decreases n,
{
    if n == 0 {
        0
    } else {
        free_before(observations, min, (n - 1) as nat) + if sightings(
            observations,
            n - 1,
        ) >= min {
            1nat
        } else {
            0nat
        }
    }
}

/// The slot of a pose: the leading ones are fixed, the others follow each other.
pub open spec fn pose_slot(fixed: nat, i: nat) -> Option<nat> {
    if i < fixed {
        None
    } else {
        Some((i - fixed) as nat)
    }
}

/// The slot of a point: one seen by too few keyframes is fixed, the others follow
/// each other.
pub open spec fn point_slot<V>(observations: Seq<Observation<V>>, min: nat, j: nat) -> Option<nat> {
    if sightings(observations, j as int) < min {
        None
    } else {
        Some(free_before(observations, min, j))
    }
}

/// Whether a slot is the one given.
pub open spec fn is_slot(slot: Option<usize>, expected: Option<nat>) -> bool {
    match (slot, expected) {
        (None, None) => true,
        (Some(s), Some(e)) => s == e,
        _ => false,
    }
}

/// Which variables are free, and where they sit in the stacked vectors.
#[derive(Debug)]
pub struct Layout {
    /// `None` for a fixed pose, else its slot among the free poses.
    pub pose_slot: Vec<Option<usize>>,
    /// `None` for a fixed landmark, else its slot among the free landmarks.
    pub point_slot: Vec<Option<usize>>,
    /// How many poses are free.
    pub free_poses: usize,
    /// How many landmarks are free.
    pub free_points: usize,
}

/// The layout of a problem in which landmarks seen by fewer than `min` keyframes
/// are held fixed.
pub open spec fn is_layout<P, X, V>(
    layout: Layout,
    problem: LocalBaProblem<P, X, V>,
    min: nat,
) -> bool {
    &&& layout.pose_slot@.len() == problem.poses@.len()
    &&& layout.point_slot@.len() == problem.points@.len()
    &&& layout.free_poses == (if problem.fixed_poses < problem.poses@.len() {
        problem.poses@.len() - problem.fixed_poses
    } else {
        0
    })
    &&& layout.free_points == free_before(problem.observations@, min, problem.points@.len())
    &&& forall|i: int|
        0 <= i < layout.pose_slot@.len() ==> is_slot(
            #[trigger] layout.pose_slot@[i],
            pose_slot(problem.fixed_poses as nat, i as nat),
        )
    &&& forall|j: int|
        0 <= j < layout.point_slot@.len() ==> is_slot(
            #[trigger] layout.point_slot@[j],
            point_slot(problem.observations@, min, j as nat),
        )
}

/// A keyframe is in a list.
fn is_listed(list: &Vec<usize>, keyframe: usize) -> (found: bool)
    ensures
        found == list@.contains(keyframe),
{
    let mut i: usize = 0;
    while i < list.len()
        invariant
            i <= list@.len(),
            forall|k: int| 0 <= k < i ==> #[trigger] list@[k] != keyframe,
        decreases list@.len() - i,
    {
        if list[i] == keyframe {
            return true;
        }
        i = i + 1;
    }
    false
}

/// How many keyframes see each point; observations of points that are not there
/// count for nothing.
fn count_sightings<V>(observations: &Vec<Observation<V>>, points: usize) -> (counts: Vec<usize>)
    ensures
        counts@.len() == points,
        forall|j: int|
            0 <= j < points ==> #[trigger] counts@[j] == sightings(observations@, j),
{
    let mut lists: Vec<Vec<usize>> = Vec::new();
    let mut j: usize = 0;
    while j < points
        invariant
            j <= points,
            lists@.len() == j,
            forall|k: int| 0 <= k < j ==> (#[trigger] lists@[k])@ == Seq::<usize>::empty(),
        decreases points - j,
    {
        lists.push(Vec::new());
        j = j + 1;
    }
    proof {
        assert forall|k: int| 0 <= k < points implies lists_keyframes(
            #[trigger] lists@[k]@,
            observations@,
            k,
            0,
        ) by {
            assert(lists@[k]@.to_set() =~= Set::<usize>::empty());
        }
    }
    let mut i: usize = 0;
    while i < observations.len()
        invariant
            i <= observations@.len(),
            lists@.len() == points,
            forall|k: int|
                0 <= k < points ==> lists_keyframes(
                    #[trigger] lists@[k]@,
                    observations@,
                    k,
                    i as nat,
                ),
        decreases observations@.len() - i,
    {
        let p: usize = observations[i].point;
        let keyframe: usize = observations[i].keyframe;
        if p < lists.len() {
            let ghost before = lists@[p as int]@;
            assert(lists_keyframes(before, observations@, p as int, i as nat));
            assert(before.to_set().contains(keyframe) == before.contains(keyframe));
            if is_listed(&lists[p], keyframe) {
                assert(before.to_set().insert(keyframe) =~= before.to_set());
            } else {
                lists[p].push(keyframe);
                assert(before.push(keyframe).to_set() =~= before.to_set().insert(keyframe)) by {
                    assert(before.push(keyframe)[before.len() as int] == keyframe);
                    assert forall|v: usize| before.contains(v) implies before.push(
                        keyframe,
                    ).contains(v) by {
                        let k = before.index_of(v);
                        assert(before.push(keyframe)[k] == v);
                    }
                }
            }
        }
        i = i + 1;
    }
    let mut counts: Vec<usize> = Vec::new();
    let mut q: usize = 0;
    while q < points
        invariant
            q <= points,
            lists@.len() == points,
            counts@.len() == q,
            forall|k: int|
                0 <= k < points ==> lists_keyframes(
                    #[trigger] lists@[k]@,
                    observations@,
                    k,
                    observations@.len(),
                ),
            forall|k: int| 0 <= k < q ==> #[trigger] counts@[k] == sightings(observations@, k),
        decreases points - q,
    {
        proof {
            assert(lists_keyframes(lists@[q as int]@, observations@, q as int, observations@.len()));
            lists@[q as int]@.unique_seq_to_set();
        }
        counts.push(lists[q].len());
        q = q + 1;
    }
    counts
}

/// A list names each keyframe that sees a point once.
spec fn lists_keyframes<V>(
    list: Seq<usize>,
    observations: Seq<Observation<V>>,
    point: int,
    n: nat,
) -> bool {
    list.no_duplicates() && list.to_set() == seen_by(observations, point, n)
}

impl Layout {
    /// Lay a problem out. A landmark seen by fewer than `min_observations`
    /// keyframes is not determined by the data and is held fixed.
    pub fn new<P, X, V>(problem: &LocalBaProblem<P, X, V>, min_observations: usize) -> (layout:
        Layout)
        ensures
            is_layout(layout, *problem, min_observations as nat),
    {
        let counts: Vec<usize> = count_sightings(&problem.observations, problem.points.len());
        let mut pose_slots: Vec<Option<usize>> = Vec::new();
        let mut free_poses: usize = 0;
        let mut i: usize = 0;
        while i < problem.poses.len()
            invariant
                i <= problem.poses@.len(),
                pose_slots@.len() == i,
                free_poses == (if problem.fixed_poses < i {
                    i - problem.fixed_poses
                } else {
                    0
                }),
                forall|k: int|
                    0 <= k < i ==> is_slot(
                        #[trigger] pose_slots@[k],
                        pose_slot(problem.fixed_poses as nat, k as nat),
                    ),
            decreases problem.poses@.len() - i,
        {
            if i < problem.fixed_poses {
                pose_slots.push(None);
            } else {
                pose_slots.push(Some(free_poses));
                free_poses = free_poses + 1;
            }
            i = i + 1;
        }
        let mut point_slots: Vec<Option<usize>> = Vec::new();
        let mut free_points: usize = 0;
        let mut j: usize = 0;
        while j < counts.len()
            invariant
                j <= counts@.len(),
                counts@.len() == problem.points@.len(),
                forall|k: int|
                    0 <= k < counts@.len() ==> #[trigger] counts@[k] == sightings(
                        problem.observations@,
                        k,
                    ),
                point_slots@.len() == j,
                free_points == free_before(problem.observations@, min_observations as nat, j as nat),
                free_points <= j,
                forall|k: int|
                    0 <= k < j ==> is_slot(
                        #[trigger] point_slots@[k],
                        point_slot(problem.observations@, min_observations as nat, k as nat),
                    ),
            decreases counts@.len() - j,
        {
            if counts[j] >= min_observations {
                point_slots.push(Some(free_points));
                free_points = free_points + 1;
            } else {
                point_slots.push(None);
            }
            j = j + 1;
        }
        Layout { pose_slot: pose_slots, point_slot: point_slots, free_poses, free_points }
    }
}

/// How many keyframes have to see a landmark for it to be free: as configured when
/// the anchors determine scale, and more than any window has when they do not.
pub open spec fn effective_minimum(scale_is_observable: bool, min_observations: usize) -> usize {
    if scale_is_observable {
        min_observations
    } else {
        usize::MAX
    }
}

/// Lay a problem out for a solve, or refuse it.
///
/// A problem without an anchor, or with more anchors than poses, is refused, and
/// so is one in which nothing is free. `anchors_span_the_scene` says whether the
/// fixed poses are far enough apart, relative to the depth of the scene, to
/// determine scale; a single anchor never is.
pub fn plan<P, X, V>(
    problem: &LocalBaProblem<P, X, V>,
    anchors_span_the_scene: bool,
    min_observations: usize,
) -> (layout: Option<Layout>)
    ensures
        ({
            let min = effective_minimum(
                problem.fixed_poses >= 2 && anchors_span_the_scene,
                min_observations,
            ) as nat;
            match layout {
                Some(l) => {
                    &&& is_layout(l, *problem, min)
                    &&& 0 < problem.fixed_poses <= problem.poses@.len()
                    &&& l.free_poses > 0 || l.free_points > 0
                },
                None => problem.fixed_poses == 0 || problem.fixed_poses > problem.poses@.len() || (
                problem.fixed_poses == problem.poses@.len() && free_before(
                    problem.observations@,
                    min,
                    problem.points@.len(),
                ) == 0),
            }
        }),
{
    if problem.fixed_poses == 0 || problem.fixed_poses > problem.poses.len() {
        return None;
    }
    let min: usize = if problem.fixed_poses >= 2 && anchors_span_the_scene {
        min_observations
    } else {
        usize::MAX
    };
    let layout: Layout = Layout::new(problem, min);
    if layout.free_poses == 0 && layout.free_points == 0 {
        return None;
    }
    Some(layout)
}

/// The values after a step: a free one is replaced by the value its slot holds, a
/// fixed one stays.
pub open spec fn stepped<T>(values: Seq<T>, slots: Seq<Option<usize>>, steps: Seq<T>) -> Seq<T> {
    Seq::new(
        values.len(),
        |i: int|
            match slots[i] {
                Some(s) => steps[s as int],
                None => values[i],
            },
    )
}

/// Apply a step: `steps` holds the new value of each free variable.
pub fn apply<T: Copy>(values: &Vec<T>, slots: &Vec<Option<usize>>, steps: &Vec<T>) -> (after: Vec<
    T,
>)
    requires
        slots@.len() == values@.len(),
        forall|i: int|
            0 <= i < slots@.len() ==> ((#[trigger] slots@[i]) matches Some(s) ==> s < steps@.len()),
    ensures
        after@ == stepped(values@, slots@, steps@),
{
    let mut after: Vec<T> = Vec::new();
    let mut i: usize = 0;
    while i < values.len()
        invariant
            i <= values@.len(),
            slots@.len() == values@.len(),
            forall|k: int|
                0 <= k < slots@.len() ==> ((#[trigger] slots@[k]) matches Some(s) ==> s
                    < steps@.len()),
            after@ =~= stepped(values@, slots@, steps@).take(i as int),
        decreases values@.len() - i,
    {
        assert(slots@[i as int] matches Some(s) ==> s < steps@.len());
        let v: T = match slots[i] {
            Some(s) => steps[s],
            None => values[i],
        };
        after.push(v);
        i = i + 1;
    }
    after
}

/// Whether an observation is of a pose and a point that are there.
pub open spec fn is_linked<V>(o: Observation<V>, poses: nat, points: nat) -> bool {
    o.keyframe < poses && o.point < points
}

/// The outliers among the first `n` observations: those that are linked and do
/// not agree with the solution.
pub open spec fn outliers_of<V>(
    observations: Seq<Observation<V>>,
    poses: nat,
    points: nat,
    agrees: Seq<bool>,
    n: nat,
) -> Seq<usize>
    decreases n,
{
    if n == 0 {
        seq![]
    } else {
        let before = outliers_of(observations, poses, points, agrees, (n - 1) as nat);
        if is_linked(observations[n - 1], poses, points) && !agrees[n - 1] {
            before.push((n - 1) as usize)
        } else {
            before
        }
    }
}

/// The observations that do not agree with a solution. They are reported and not
/// removed: the caller owns the map.
pub fn outliers<P, X, V>(problem: &LocalBaProblem<P, X, V>, agrees: &Vec<bool>) -> (out: Vec<usize>)
    requires
        agrees@.len() == problem.observations@.len(),
    ensures
        out@ == outliers_of(
            problem.observations@,
            problem.poses@.len(),
            problem.points@.len(),
            agrees@,
            problem.observations@.len(),
        ),
{
    let mut out: Vec<usize> = Vec::new();
    let mut i: usize = 0;
    while i < problem.observations.len()
        invariant
            i <= problem.observations@.len(),
            agrees@.len() == problem.observations@.len(),
            out@ == outliers_of(
                problem.observations@,
                problem.poses@.len(),
                problem.points@.len(),
                agrees@,
                i as nat,
            ),
        decreases problem.observations@.len() - i,
    {
        let linked: bool = problem.observations[i].keyframe < problem.poses.len()
            && problem.observations[i].point < problem.points.len();
        if linked && !agrees[i] {
            out.push(i);
        }
        i = i + 1;
    }
    out
}

// ---------------------------------------------------------------------------
// Laws
// ---------------------------------------------------------------------------

/// The anchors never move.
pub proof fn law_fixed_anchors_never_move<P, X, V>(
    problem: LocalBaProblem<P, X, V>,
    layout: Layout,
    min: nat,
    steps: Seq<P>,
    i: int,
)
    requires
        is_layout(layout, problem, min),
        0 <= i < problem.fixed_poses,
        i < problem.poses@.len(),
    ensures
        stepped(problem.poses@, layout.pose_slot@, steps)[i] == problem.poses@[i],
{
    assert(is_slot(layout.pose_slot@[i], pose_slot(problem.fixed_poses as nat, i as nat)));
}

/// A landmark that too few keyframes see is held where it is, however often each of
/// them sees it.
pub proof fn law_rarely_seen_landmark_is_held<P, X, V>(
    problem: LocalBaProblem<P, X, V>,
    layout: Layout,
    min: nat,
    steps: Seq<X>,
    j: int,
)
    requires
        is_layout(layout, problem, min),
        0 <= j < problem.points@.len(),
        sightings(problem.observations@, j) < min,
    ensures
        stepped(problem.points@, layout.point_slot@, steps)[j] == problem.points@[j],
{
    assert(is_slot(layout.point_slot@[j], point_slot(problem.observations@, min, j as nat)));
}

proof fn lemma_seen_by_one<V>(
    observations: Seq<Observation<V>>,
    point: int,
    keyframe: usize,
    n: nat,
)
    requires
        n <= observations.len(),
        forall|i: int|
            0 <= i < n && (#[trigger] observations[i]).point == point ==> observations[i].keyframe
                == keyframe,
    ensures
        seen_by(observations, point, n).subset_of(set![keyframe]),
    decreases n,
{
    if n > 0 {
        lemma_seen_by_one(observations, point, keyframe, (n - 1) as nat);
    }
}

/// A landmark that a single keyframe sees is held where it is, unless one keyframe
/// is all that is asked for.
pub proof fn law_one_keyframe_determines_no_landmark<P, X, V>(
    problem: LocalBaProblem<P, X, V>,
    layout: Layout,
    min: nat,
    steps: Seq<X>,
    j: int,
    keyframe: usize,
)
    requires
        is_layout(layout, problem, min),
        0 <= j < problem.points@.len(),
        min >= 2,
        forall|i: int|
            0 <= i < problem.observations@.len() && (#[trigger] problem.observations@[i]).point == j
                ==> problem.observations@[i].keyframe == keyframe,
    ensures
        stepped(problem.points@, layout.point_slot@, steps)[j] == problem.points@[j],
{
    let n = problem.observations@.len();
    lemma_seen_by_one(problem.observations@, j, keyframe, n);
    vstd::set_lib::lemma_len_subset(seen_by(problem.observations@, j, n), set![keyframe]);
    law_rarely_seen_landmark_is_held(problem, layout, min, steps, j);
}

/// When the anchors do not determine scale, no landmark moves: the solve cannot
/// inflate the map.
pub proof fn law_unobservable_scale_freezes_the_map<P, X, V>(
    problem: LocalBaProblem<P, X, V>,
    layout: Layout,
    min_observations: usize,
    steps: Seq<X>,
)
    requires
        problem.observations@.len() < usize::MAX,
        is_layout(layout, problem, effective_minimum(false, min_observations) as nat),
    ensures
        stepped(problem.points@, layout.point_slot@, steps) =~= problem.points@,
{
    let min = effective_minimum(false, min_observations) as nat;
    assert forall|j: int| 0 <= j < problem.points@.len() implies (
    #[trigger] layout.point_slot@[j]) is None by {
        lemma_seen_by(problem.observations@, j, problem.observations@.len());
        assert(is_slot(layout.point_slot@[j], point_slot(problem.observations@, min, j as nat)));
    }
}

proof fn lemma_free_before_monotone<V>(observations: Seq<Observation<V>>, min: nat, a: nat, b: nat)
    requires
        a <= b,
    ensures
        free_before(observations, min, a) <= free_before(observations, min, b),
    decreases b,
{
    if a < b {
        lemma_free_before_monotone(observations, min, a, (b - 1) as nat);
    }
}

/// Free landmarks have slots of their own, all of them within the stacked vector.
pub proof fn law_slots_are_distinct<P, X, V>(
    problem: LocalBaProblem<P, X, V>,
    layout: Layout,
    min: nat,
    i: int,
    j: int,
)
    requires
        is_layout(layout, problem, min),
        0 <= i < j < problem.points@.len(),
        layout.point_slot@[i] is Some,
        layout.point_slot@[j] is Some,
    ensures
        layout.point_slot@[i]->0 < layout.point_slot@[j]->0 < layout.free_points,
{
    assert(is_slot(layout.point_slot@[i], point_slot(problem.observations@, min, i as nat)));
    assert(is_slot(layout.point_slot@[j], point_slot(problem.observations@, min, j as nat)));
    assert(free_before(problem.observations@, min, (i + 1) as nat) == free_before(
        problem.observations@,
        min,
        i as nat,
    ) + 1);
    assert(free_before(problem.observations@, min, (j + 1) as nat) == free_before(
        problem.observations@,
        min,
        j as nat,
    ) + 1);
    lemma_free_before_monotone(problem.observations@, min, (i + 1) as nat, j as nat);
    lemma_free_before_monotone(
        problem.observations@,
        min,
        (j + 1) as nat,
        problem.points@.len(),
    );
}

/// What is known of a window when its solve is over.
#[derive(Debug, Clone, Copy, PartialEq, Eq, Structural)]
pub struct SolvedWindow {
    /// Observations that the cost rests on.
    pub used: usize,
    /// Whether the path through the poses was long enough before the solve for
    /// its length to mean something.
    pub has_length: bool,
    /// Whether the change of that length is limited at all.
    pub is_limited: bool,
    /// Whether the length changed by a finite factor within the limit, up or
    /// down.
    pub keeps_its_length: bool,
}

/// Whether a solution is worth anything: one that rests on observations and did
/// not rescale the window.
pub open spec fn holds_up(w: SolvedWindow) -> bool {
    w.used > 0 && (w.has_length && w.is_limited ==> w.keeps_its_length)
}

/// Accept or refuse a solution.
pub fn is_accepted(w: SolvedWindow) -> (accepted: bool)
    ensures
        accepted == holds_up(w),
{
    w.used > 0 && (!(w.has_length && w.is_limited) || w.keeps_its_length)
}

/// A solve that rescales the window is refused however low its cost.
pub proof fn law_rescaled_window_is_refused(w: SolvedWindow)
    requires
        w.has_length,
        w.is_limited,
        !w.keeps_its_length,
    ensures
        !holds_up(w),
{
}

proof fn lemma_seen_by_means<V>(
    observations: Seq<Observation<V>>,
    point: int,
    n: nat,
    keyframe: usize,
)
    requires
        n <= observations.len(),
    ensures
        seen_by(observations, point, n).contains(keyframe) <==> exists|i: int|
            0 <= i < n && (#[trigger] observations[i]).point == point && observations[i].keyframe
                == keyframe,
    decreases n,
{
    if n > 0 {
        lemma_seen_by_means(observations, point, (n - 1) as nat, keyframe);
        if seen_by(observations, point, (n - 1) as nat).contains(keyframe) {
            let i = choose|i: int|
                0 <= i < n - 1 && (#[trigger] observations[i]).point == point
                    && observations[i].keyframe == keyframe;
            assert(observations[i].point == point);
        }
        if observations[n - 1].point == point && observations[n - 1].keyframe == keyframe {
            assert(observations[n - 1].point == point);
        }
    }
}

/// A landmark is seen by as many keyframes as have an observation of it, however many
/// observations each of them has.
pub proof fn law_sightings_count_keyframes<V>(observations: Seq<Observation<V>>, point: int)
    ensures
        sightings(observations, point) == Set::new(
            |keyframe: usize|
                exists|i: int|
                    0 <= i < observations.len() && (#[trigger] observations[i]).point == point
                        && observations[i].keyframe == keyframe,
        ).len(),
{
    let s = Set::new(
        |keyframe: usize|
            exists|i: int|
                0 <= i < observations.len() && (#[trigger] observations[i]).point == point
                    && observations[i].keyframe == keyframe,
    );
    assert forall|keyframe: usize| seen_by(observations, point, observations.len()).contains(
        keyframe,
    ) <==> s.contains(keyframe) by {
        lemma_seen_by_means(observations, point, observations.len(), keyframe);
    }
    assert(seen_by(observations, point, observations.len()) =~= s);
}

proof fn lemma_free_counted<V>(observations: Seq<Observation<V>>, min: nat, n: nat)
    ensures
        free_before(observations, min, n) == how_many(
            n,
            |j: int| sightings(observations, j) >= min,
        ),
    decreases n,
{
    let p = |j: int| sightings(observations, j) >= min;
    if n > 0 {
        lemma_free_counted(observations, min, (n - 1) as nat);
        lemma_how_many(n, p);
    } else {
        lemma_how_many(1, p);
    }
}

/// A landmark that enough keyframes see is free, and a step moves it: free landmarks are
/// numbered in their order, and each takes the value of its number.
pub proof fn law_well_seen_landmark_moves<P, X, V>(
    problem: LocalBaProblem<P, X, V>,
    layout: Layout,
    min: nat,
    steps: Seq<X>,
    j: int,
)
    requires
        is_layout(layout, problem, min),
        0 <= j < problem.points@.len(),
        sightings(problem.observations@, j) >= min,
    ensures
        ({
            let free = |k: int| sightings(problem.observations@, k) >= min;
            &&& stepped(problem.points@, layout.point_slot@, steps).len() == problem.points@.len()
            &&& stepped(problem.points@, layout.point_slot@, steps)[j] == steps[how_many(
                j as nat,
                free,
            ) as int]
            &&& layout.free_points == how_many(problem.points@.len(), free)
            &&& how_many(j as nat, free) < layout.free_points
        }),
{
    let obs = problem.observations@;
    lemma_free_counted(obs, min, j as nat);
    lemma_free_counted(obs, min, problem.points@.len());
    assert(is_slot(layout.point_slot@[j], point_slot(obs, min, j as nat)));
    lemma_free_before_monotone(obs, min, (j + 1) as nat, problem.points@.len());
    assert(free_before(obs, min, (j + 1) as nat) == free_before(obs, min, j as nat) + 1);
}

/// A pose that is not held is free, and a step moves it: free poses are numbered from
/// the first that is not held.
pub proof fn law_free_pose_moves<P, X, V>(
    problem: LocalBaProblem<P, X, V>,
    layout: Layout,
    min: nat,
    steps: Seq<P>,
    i: int,
)
    requires
        is_layout(layout, problem, min),
        problem.fixed_poses <= i < problem.poses@.len(),
    ensures
        stepped(problem.poses@, layout.pose_slot@, steps)[i] == steps[i - problem.fixed_poses],
        layout.free_poses == problem.poses@.len() - problem.fixed_poses,
{
    assert(is_slot(layout.pose_slot@[i], pose_slot(problem.fixed_poses as nat, i as nat)));
}

/// Where the anchors determine scale, landmarks are free as configured; where they do
/// not, more keyframes are asked for than there can be.
pub proof fn law_scale_decides_who_is_free(min_observations: usize, seen: nat)
    requires
        seen < usize::MAX,
    ensures
        seen >= effective_minimum(true, min_observations) <==> seen >= min_observations,
        seen < effective_minimum(false, min_observations),
{
}

proof fn lemma_outliers<V>(
    observations: Seq<Observation<V>>,
    poses: nat,
    points: nat,
    agrees: Seq<bool>,
    n: nat,
    i: int,
)
    requires
        n <= observations.len() <= usize::MAX,
        n <= agrees.len(),
    ensures
        ({
            let p = |k: int|
                observations[k].keyframe < poses && observations[k].point < points && !agrees[k];
            &&& outliers_of(observations, poses, points, agrees, n).len() == how_many(n, p)
            &&& 0 <= i < n && p(i) ==> how_many(i as nat, p) < how_many(n, p) && outliers_of(
                observations,
                poses,
                points,
                agrees,
                n,
            )[how_many(i as nat, p) as int] == i
        }),
    decreases n,
{
    let p = |k: int|
        observations[k].keyframe < poses && observations[k].point < points && !agrees[k];
    if n > 0 {
        lemma_outliers(observations, poses, points, agrees, (n - 1) as nat, i);
        lemma_how_many(n, p);
    } else {
        lemma_how_many(1, p);
    }
}

/// Exactly the observations that disagree with the solution are reported, in their
/// order; one of a pose or a point that is not there is not.
pub proof fn law_disagreeing_observations_are_reported<V>(
    observations: Seq<Observation<V>>,
    poses: nat,
    points: nat,
    agrees: Seq<bool>,
    i: int,
)
    requires
        0 <= i < observations.len() <= usize::MAX,
        agrees.len() == observations.len(),
    ensures
        ({
            let p = |k: int|
                observations[k].keyframe < poses && observations[k].point < points && !agrees[k];
            let out = outliers_of(observations, poses, points, agrees, observations.len());
            &&& out.len() == how_many(observations.len(), p)
            &&& p(i) ==> how_many(i as nat, p) < out.len() && out[how_many(i as nat, p) as int] == i
        }),
{
    lemma_outliers(observations, poses, points, agrees, observations.len(), i);
}

/// A solution is taken exactly when it rests on an observation and, where the length of
/// the window means something and its change is limited, keeps that length.
pub proof fn law_good_window_is_taken(w: SolvedWindow)
    ensures
        w.used > 0 && w.keeps_its_length ==> holds_up(w),
        w.used > 0 && !w.has_length ==> holds_up(w),
        w.used > 0 && !w.is_limited ==> holds_up(w),
        w.used == 0 ==> !holds_up(w),
        holds_up(w) && w.has_length && w.is_limited ==> w.keeps_its_length,
{
}

} // verus!
