//! Scale from double-integrated acceleration: which samples an interval is
//! integrated over, how the linear system is laid out, and the gates that keep
//! the solve from answering where it cannot.
//!
//! `R` is the type of a measured number.

use vstd::prelude::*;

use crate::count::{how_many, lemma_how_many};

verus! {

/// Fewest poses for which the system has as many equations as unknowns.
pub const MIN_POSES: usize = 4;

/// Fewest samples inside an interval that leave something to integrate.
pub const MIN_INTERVAL_SAMPLES: usize = 2;

/// The sensor tier this ruler needs.
pub const REQUIRED_TIER: u8 = 3;

/// A session without the needed sensors.
#[derive(Debug, Clone, Copy, PartialEq, Eq, Structural)]
pub struct TierError {
    /// The tier that is needed.
    pub required: u8,
}

/// Whether a session can have this ruler at all: it has to be refused rather than
/// replaced by a worse one.
pub fn require_tight_alignment(available: bool) -> (allowed: Result<(), TierError>)
    ensures
        match allowed {
            Ok(_) => available,
            Err(e) => !available && e.required == REQUIRED_TIER,
        },
        allowed matches Err(e) ==> e.required == 3,
{
    if available {
        Ok(())
    } else {
        Err(TierError { required: REQUIRED_TIER })
    }
}

// ---------------------------------------------------------------------------
// Which samples an interval is integrated over
// ---------------------------------------------------------------------------

/// Where the value at an end of the interval comes from.
#[derive(Debug, Clone, Copy, PartialEq, Eq, Structural)]
pub enum Endpoint {
    /// Interpolated between two samples.
    Between(usize, usize),
    /// The value of the nearest sample.
    Held(usize),
}

/// The samples an interval is integrated over: its two ends and those strictly
/// inside.
#[derive(Debug)]
pub struct Chain {
    pub start: Endpoint,
    pub inside: Vec<usize>,
    pub end: Endpoint,
}

/// Whether a sample is strictly inside the interval.
pub open spec fn is_inside(t: i64, from: i64, to: i64) -> bool {
    from < t < to
}

/// The samples strictly inside the interval, among the first `n`.
pub open spec fn inside_of(times: Seq<i64>, from: i64, to: i64, n: nat) -> Seq<usize>
    decreases n,
{
    if n == 0 {
        seq![]
    } else if is_inside(times[n - 1], from, to) {
        inside_of(times, from, to, (n - 1) as nat).push((n - 1) as usize)
    } else {
        inside_of(times, from, to, (n - 1) as nat)
    }
}

/// `at` is the last sample that is not after `from`.
pub open spec fn is_last_before(times: Seq<i64>, from: i64, at: Option<usize>) -> bool {
    match at {
        None => forall|i: int| 0 <= i < times.len() ==> #[trigger] times[i] > from,
        Some(k) => {
            &&& k < times.len()
            &&& times[k as int] <= from
            &&& forall|i: int| k < i < times.len() ==> #[trigger] times[i] > from
        },
    }
}

/// `at` is the first sample that is not before `to`.
pub open spec fn is_first_after(times: Seq<i64>, to: i64, at: Option<usize>) -> bool {
    match at {
        None => forall|i: int| 0 <= i < times.len() ==> #[trigger] times[i] < to,
        Some(k) => {
            &&& k < times.len()
            &&& times[k as int] >= to
            &&& forall|i: int| 0 <= i < k ==> #[trigger] times[i] < to
        },
    }
}

/// How many samples bracket the interval: those inside and the nearest one on
/// either side.
pub open spec fn bracketing(before: Option<usize>, inside: Seq<usize>, after: Option<usize>) -> nat {
    inside.len() + (if before is Some {
        1nat
    } else {
        0nat
    }) + (if after is Some {
        1nat
    } else {
        0nat
    })
}

/// The value at the start, where two samples bracket the interval: interpolated
/// towards the next sample, or held from it where nothing comes before.
pub open spec fn start_of(
    before: Option<usize>,
    inside: Seq<usize>,
    after: Option<usize>,
) -> Endpoint {
    match before {
        Some(b) => Endpoint::Between(
            b,
            if inside.len() > 0 {
                inside[0]
            } else {
                after->0
            },
        ),
        None => Endpoint::Held(inside[0]),
    }
}

/// The value at the end, likewise.
pub open spec fn end_of(before: Option<usize>, inside: Seq<usize>, after: Option<usize>) -> Endpoint {
    match after {
        Some(a) => Endpoint::Between(
            if inside.len() > 0 {
                inside[inside.len() - 1]
            } else {
                before->0
            },
            a,
        ),
        None => Endpoint::Held(inside[inside.len() - 1]),
    }
}

/// The last sample that is not after `from`.
fn last_before(times: &Vec<i64>, from: i64) -> (at: Option<usize>)
    ensures
        is_last_before(times@, from, at),
{
    let mut at: Option<usize> = None;
    let mut i: usize = 0;
    while i < times.len()
        invariant
            i <= times@.len(),
            match at {
                None => forall|k: int| 0 <= k < i ==> #[trigger] times@[k] > from,
                Some(b) => b < i && times@[b as int] <= from && forall|k: int|
                    b < k < i ==> #[trigger] times@[k] > from,
            },
        decreases times@.len() - i,
    {
        if times[i] <= from {
            at = Some(i);
        }
        i = i + 1;
    }
    at
}

/// The first sample that is not before `to`.
fn first_after(times: &Vec<i64>, to: i64) -> (at: Option<usize>)
    ensures
        is_first_after(times@, to, at),
{
    let mut i: usize = 0;
    while i < times.len()
        invariant
            i <= times@.len(),
            forall|k: int| 0 <= k < i ==> #[trigger] times@[k] < to,
        decreases times@.len() - i,
    {
        if times[i] >= to {
            return Some(i);
        }
        i = i + 1;
    }
    None
}

/// The chain of an interval, given the samples around it.
pub open spec fn chains(times: Seq<i64>, from: i64, to: i64, before: Option<usize>, after: Option<
    usize,
>, chain: Option<Chain>) -> bool {
    let inside = inside_of(times, from, to, times.len());
    match chain {
        None => from >= to || bracketing(before, inside, after) < 2,
        Some(c) => {
            &&& from < to
            &&& bracketing(before, inside, after) >= 2
            &&& c.inside@ == inside
            &&& c.start == start_of(before, inside, after)
            &&& c.end == end_of(before, inside, after)
        },
    }
}

/// The samples to integrate an interval over, given the time of each: `None` for
/// an empty interval, and where fewer than two samples bracket it.
pub fn chain(times: &Vec<i64>, from: i64, to: i64) -> (chain: Option<Chain>)
    ensures
        exists|before: Option<usize>, after: Option<usize>|
            #![trigger is_last_before(times@, from, before), is_first_after(times@, to, after)]
            is_last_before(times@, from, before) && is_first_after(times@, to, after) && chains(
                times@,
                from,
                to,
                before,
                after,
                chain,
            ),
{
    let before: Option<usize> = last_before(times, from);
    let after: Option<usize> = first_after(times, to);
    if from >= to {
        return None;
    }
    let mut inside: Vec<usize> = Vec::new();
    let mut i: usize = 0;
    while i < times.len()
        invariant
            i <= times@.len(),
            inside@ == inside_of(times@, from, to, i as nat),
        decreases times@.len() - i,
    {
        if from < times[i] && times[i] < to {
            inside.push(i);
        }
        i = i + 1;
    }
    let n: usize = inside.len();
    let start: Endpoint = match before {
        Some(b) => {
            if n > 0 {
                Endpoint::Between(b, inside[0])
            } else {
                match after {
                    Some(a) => Endpoint::Between(b, a),
                    None => {
                        return None;
                    },
                }
            }
        },
        None => {
            if n == 0 || (n == 1 && after.is_none()) {
                return None;
            }
            Endpoint::Held(inside[0])
        },
    };
    let end: Endpoint = match after {
        Some(a) => {
            if n > 0 {
                Endpoint::Between(inside[n - 1], a)
            } else {
                match before {
                    Some(b) => Endpoint::Between(b, a),
                    None => {
                        return None;
                    },
                }
            }
        },
        None => Endpoint::Held(inside[n - 1]),
    };
    Some(Chain { start, inside, end })
}

/// How many samples lie inside an interval, given its chain; `None` where it has
/// none.
pub fn samples_inside(chain: &Option<Chain>) -> (n: Option<usize>)
    ensures
        match (*chain, n) {
            (Some(c), Some(k)) => k == c.inside@.len(),
            (None, None) => true,
            _ => false,
        },
{
    match chain {
        Some(c) => Some(c.inside.len()),
        None => None,
    }
}

/// A single sample is held to no interval: there is nothing to integrate.
pub proof fn law_one_sample_makes_no_chain(
    t: i64,
    from: i64,
    to: i64,
    before: Option<usize>,
    after: Option<usize>,
    chain: Option<Chain>,
)
    requires
        is_last_before(seq![t], from, before),
        is_first_after(seq![t], to, after),
        chains(seq![t], from, to, before, after, chain),
    ensures
        chain is None,
{
    let times = seq![t];
    assert(times[0] == t);
    reveal_with_fuel(inside_of, 2);
    if before is Some {
        assert(times[before->0 as int] <= from);
    }
    if after is Some {
        assert(times[after->0 as int] >= to);
    }
}

/// There is only one way to find the samples around an interval.
pub proof fn law_interval_ends_are_unique(
    times: Seq<i64>,
    from: i64,
    to: i64,
    a: Option<usize>,
    b: Option<usize>,
)
    ensures
        is_last_before(times, from, a) && is_last_before(times, from, b) ==> a == b,
        is_first_after(times, to, a) && is_first_after(times, to, b) ==> a == b,
{
    if let (Some(x), Some(y)) = (a, b) {
        if x < y {
            assert(times[y as int] == times[y as int]);
        }
        assert(times[x as int] == times[x as int]);
    } else if let (None, Some(y)) = (a, b) {
        assert(y < times.len() ==> times[y as int] == times[y as int]);
    } else if let (Some(x), None) = (a, b) {
        assert(x < times.len() ==> times[x as int] == times[x as int]);
    }
}

// ---------------------------------------------------------------------------
// The linear system
// ---------------------------------------------------------------------------

/// Shape of the system `A x = b` over scale, gravity and one velocity per pose.
#[derive(Debug, Clone, Copy, PartialEq, Eq, Structural)]
pub struct SystemShape {
    pub rows: usize,
    pub columns: usize,
}

/// The shape of the system: six equations for each interval, and one scale, three
/// components of gravity and three of each velocity to solve for.
pub fn system_shape(poses: usize) -> (shape: SystemShape)
    requires
        1 <= poses,
        6 * poses <= usize::MAX - 4,
    ensures
        shape.rows == 6 * (poses - 1),
        shape.columns == 4 + 3 * poses,
        shape.rows == equations(poses as nat),
        shape.columns == unknowns(poses as nat),
{
    SystemShape { rows: 6 * (poses - 1), columns: 4 + 3 * poses }
}

/// First column of a pose's velocity.
pub fn velocity_column(pose: usize) -> (column: usize)
    requires
        3 * pose <= usize::MAX - 4,
    ensures
        column == 4 + 3 * pose,
        column == velocity_at(pose as nat),
{
    4 + 3 * pose
}

/// The column of the full system that column `j` of the system with known gravity
/// stands for: gravity's three are left out.
pub fn column_without_gravity(j: usize) -> (column: usize)
    requires
        j <= usize::MAX - 3,
    ensures
        column == (if j == 0 {
            0
        } else {
            j + 3
        }),
        column == left_in(j as nat),
{
    if j == 0 {
        0
    } else {
        j + 3
    }
}

/// Equations that the unknowns leave over, and at least one.
pub fn degrees_of_freedom(rows: usize, columns: usize) -> (dof: usize)
    ensures
        dof == (if rows > columns {
            rows - columns
        } else {
            1
        }),
        dof == freedom(rows as nat, columns as nat),
{
    if rows > columns {
        rows - columns
    } else {
        1
    }
}

/// Four poses are the fewest that determine the system.
pub proof fn law_four_poses_balance_the_system(poses: nat)
    requires
        poses >= 1,
    ensures
        6 * (poses - 1) >= 4 + 3 * poses <==> poses >= MIN_POSES,
{
}

/// Leaving gravity out loses no other column.
pub proof fn law_only_gravity_is_left_out(column: nat)
    ensures
        (exists|j: nat|
            #![trigger left_in(j)]
            left_in(j) == column) <==> !(1 <= column <= 3),
{
    if column == 0 {
        assert(left_in(0) == 0);
    } else if column > 3 {
        assert(left_in((column - 3) as nat) == column);
    }
}

/// The column that column `j` of the reduced system stands for.
pub open spec fn left_in(j: nat) -> nat {
    if j == 0 {
        0
    } else {
        j + 3
    }
}

// ---------------------------------------------------------------------------
// Gates
// ---------------------------------------------------------------------------

/// A measured number held against a threshold.
#[derive(Debug, Clone, Copy)]
pub struct Gate<R> {
    pub measured: R,
    pub threshold: R,
    pub passes: bool,
}

/// Why the solve declined to answer.
#[derive(Debug, Clone, Copy)]
pub enum InertialRejection<R> {
    /// Not enough poses in the window yet.
    InsufficientPoses { have: usize, need: usize },
    /// A pose interval had too few samples to integrate.
    InsufficientImu { interval: usize },
    /// Acceleration has essentially vanished.
    LowExcitation { measured: R, threshold: R },
    /// The camera turned but did not move.
    PureRotation { ratio: R, threshold: R },
    /// The linear system is rank-deficient.
    Singular { condition: R },
    /// What was recovered as gravity is not gravity.
    GravityMagnitude { measured: R, expected: R },
    /// A solution exists but is too imprecise to report.
    Imprecise { relative_stddev: R, threshold: R },
    /// The multiplier or its variance is not a usable number.
    Degenerate,
}

/// What is known of a window and its solve. What has not been measured yet, because
/// an earlier gate may still refuse, is `None` and passes.
#[derive(Debug)]
pub struct InertialEvidence<R> {
    /// Mean excitation.
    pub excitation: Gate<R>,
    /// Poses in the window.
    pub poses: usize,
    /// Poses asked for.
    pub min_poses: usize,
    /// Samples inside each interval measured so far; `None` where the interval
    /// could not be integrated.
    pub intervals: Vec<Option<usize>>,
    /// Samples asked for inside each interval.
    pub min_interval_samples: usize,
    /// Share of the scale column.
    pub translation: Option<Gate<R>>,
    /// Conditioning of the system.
    pub condition: Option<Gate<R>>,
    /// Magnitude of the recovered gravity.
    pub gravity: Option<Gate<R>>,
    /// Whether the multiplier and its variance are usable numbers.
    pub is_usable: Option<bool>,
    /// Relative standard deviation.
    pub precision: Option<Gate<R>>,
}

/// The greater of two counts.
pub open spec fn at_least(n: usize, floor: usize) -> usize {
    if n < floor {
        floor
    } else {
        n
    }
}

/// Whether an interval has too few samples inside.
pub open spec fn is_starved(samples: Option<usize>, min: usize) -> bool {
    match samples {
        None => true,
        Some(n) => n < at_least(min, MIN_INTERVAL_SAMPLES),
    }
}

/// The first interval with too few samples, among the first `n`.
pub open spec fn first_starved(intervals: Seq<Option<usize>>, min: usize, n: nat) -> Option<nat>
    decreases n,
{
    if n == 0 {
        None
    } else {
        match first_starved(intervals, min, (n - 1) as nat) {
            Some(k) => Some(k),
            None => if is_starved(intervals[n - 1], min) {
                Some((n - 1) as nat)
            } else {
                None
            },
        }
    }
}

/// Whether a gate has been reached and refuses.
pub open spec fn refuses<R>(gate: Option<Gate<R>>) -> bool {
    gate matches Some(g) && !g.passes
}

/// Why a window is refused, or `None` as far as is known: the gates in the order in
/// which they are applied.
pub open spec fn inertial_rejection<R>(e: InertialEvidence<R>) -> Option<InertialRejection<R>> {
    let starved = first_starved(e.intervals@, e.min_interval_samples, e.intervals@.len());
    if !e.excitation.passes {
        Some(
            InertialRejection::LowExcitation {
                measured: e.excitation.measured,
                threshold: e.excitation.threshold,
            },
        )
    } else if e.poses < at_least(e.min_poses, MIN_POSES) {
        Some(
            InertialRejection::InsufficientPoses {
                have: e.poses,
                need: at_least(e.min_poses, MIN_POSES),
            },
        )
    } else if starved is Some {
        Some(InertialRejection::InsufficientImu { interval: starved->0 as usize })
    } else if refuses(e.translation) {
        Some(
            InertialRejection::PureRotation {
                ratio: e.translation->0.measured,
                threshold: e.translation->0.threshold,
            },
        )
    } else if refuses(e.condition) {
        Some(InertialRejection::Singular { condition: e.condition->0.measured })
    } else if refuses(e.gravity) {
        Some(
            InertialRejection::GravityMagnitude {
                measured: e.gravity->0.measured,
                expected: e.gravity->0.threshold,
            },
        )
    } else if e.is_usable == Some(false) {
        Some(InertialRejection::Degenerate)
    } else if refuses(e.precision) {
        Some(
            InertialRejection::Imprecise {
                relative_stddev: e.precision->0.measured,
                threshold: e.precision->0.threshold,
            },
        )
    } else {
        None
    }
}

fn gate_refuses<R>(gate: &Option<Gate<R>>) -> (no: bool)
    ensures
        no == refuses(*gate),
{
    match gate {
        Some(g) => !g.passes,
        None => false,
    }
}

/// Why a window is refused, as far as is known.
pub fn judge<R: Copy>(e: &InertialEvidence<R>) -> (rejection: Option<InertialRejection<R>>)
    ensures
        rejection == inertial_rejection(*e),
{
    if !e.excitation.passes {
        return Some(
            InertialRejection::LowExcitation {
                measured: e.excitation.measured,
                threshold: e.excitation.threshold,
            },
        );
    }
    let need: usize = if e.min_poses < MIN_POSES {
        MIN_POSES
    } else {
        e.min_poses
    };
    if e.poses < need {
        return Some(InertialRejection::InsufficientPoses { have: e.poses, need });
    }
    let min: usize = if e.min_interval_samples < MIN_INTERVAL_SAMPLES {
        MIN_INTERVAL_SAMPLES
    } else {
        e.min_interval_samples
    };
    let mut starved: Option<usize> = None;
    let mut i: usize = 0;
    while i < e.intervals.len()
        invariant
            i <= e.intervals@.len(),
            min == at_least(e.min_interval_samples, MIN_INTERVAL_SAMPLES),
            match (starved, first_starved(e.intervals@, e.min_interval_samples, i as nat)) {
                (None, None) => true,
                (Some(a), Some(b)) => a == b,
                _ => false,
            },
        decreases e.intervals@.len() - i,
    {
        let too_few: bool = match e.intervals[i] {
            None => true,
            Some(n) => n < min,
        };
        if starved.is_none() && too_few {
            starved = Some(i);
        }
        i = i + 1;
    }
    if let Some(interval) = starved {
        return Some(InertialRejection::InsufficientImu { interval });
    }
    if gate_refuses(&e.translation) {
        if let Some(g) = &e.translation {
            return Some(
                InertialRejection::PureRotation { ratio: g.measured, threshold: g.threshold },
            );
        }
    }
    if gate_refuses(&e.condition) {
        if let Some(g) = &e.condition {
            return Some(InertialRejection::Singular { condition: g.measured });
        }
    }
    if gate_refuses(&e.gravity) {
        if let Some(g) = &e.gravity {
            return Some(
                InertialRejection::GravityMagnitude {
                    measured: g.measured,
                    expected: g.threshold,
                },
            );
        }
    }
    if let Some(usable) = e.is_usable {
        if !usable {
            return Some(InertialRejection::Degenerate);
        }
    }
    if gate_refuses(&e.precision) {
        if let Some(g) = &e.precision {
            return Some(
                InertialRejection::Imprecise {
                    relative_stddev: g.measured,
                    threshold: g.threshold,
                },
            );
        }
    }
    None
}

/// A static hold is refused before anything else is asked, whatever the solve
/// would say: it is detected rather than silently wrong.
pub proof fn law_static_hold_is_refused<R>(e: InertialEvidence<R>)
    requires
        !e.excitation.passes,
    ensures
        inertial_rejection(e) == Some(
            InertialRejection::LowExcitation {
                measured: e.excitation.measured,
                threshold: e.excitation.threshold,
            },
        ),
{
}

proof fn lemma_first_starved(intervals: Seq<Option<usize>>, min: usize, i: nat, n: nat)
    requires
        i < n,
        is_starved(intervals[i as int], min),
        forall|k: int| 0 <= k < i ==> !is_starved(#[trigger] intervals[k], min),
    ensures
        first_starved(intervals, min, i) is None,
        first_starved(intervals, min, n) == Some(i),
    decreases n,
{
    if n == i + 1 {
        lemma_none_starved(intervals, min, i);
    } else {
        lemma_first_starved(intervals, min, i, (n - 1) as nat);
    }
}

proof fn lemma_none_starved(intervals: Seq<Option<usize>>, min: usize, n: nat)
    requires
        forall|k: int| 0 <= k < n ==> !is_starved(#[trigger] intervals[k], min),
    ensures
        first_starved(intervals, min, n) is None,
    decreases n,
{
    if n > 0 {
        lemma_none_starved(intervals, min, (n - 1) as nat);
    }
}

/// Where there are enough poses, the first interval with fewer samples inside than
/// asked for is the reason given, whatever the solve would say.
pub proof fn law_starved_interval_is_named<R>(e: InertialEvidence<R>, i: usize)
    requires
        e.excitation.passes,
        e.poses >= e.min_poses,
        e.poses >= MIN_POSES,
        i < e.intervals@.len(),
        e.intervals@[i as int] is None || e.intervals@[i as int]->0 < e.min_interval_samples,
        forall|k: int|
            0 <= k < i ==> (#[trigger] e.intervals@[k]) is Some && e.intervals@[k]->0
                >= e.min_interval_samples && e.intervals@[k]->0 >= MIN_INTERVAL_SAMPLES,
    ensures
        inertial_rejection(e) == Some(InertialRejection::<R>::InsufficientImu { interval: i }),
{
    lemma_first_starved(e.intervals@, e.min_interval_samples, i as nat, e.intervals@.len());
}

/// A camera that only turns gets no scale.
pub proof fn law_pure_rotation_gets_no_scale<R>(e: InertialEvidence<R>)
    requires
        refuses(e.translation),
    ensures
        inertial_rejection(e) is Some,
{
}

/// An answer is given only when every gate has been passed that was reached.
pub proof fn law_answer_passed_every_gate<R>(e: InertialEvidence<R>)
    requires
        inertial_rejection(e) is None,
    ensures
        e.excitation.passes,
        e.poses >= MIN_POSES,
        e.poses >= e.min_poses,
        forall|k: int|
            0 <= k < e.intervals@.len() ==> !is_starved(
                #[trigger] e.intervals@[k],
                e.min_interval_samples,
            ),
        !refuses(e.translation),
        !refuses(e.condition),
        !refuses(e.gravity),
        e.is_usable != Some(false),
        !refuses(e.precision),
{
    assert forall|k: int| 0 <= k < e.intervals@.len() implies !is_starved(
        #[trigger] e.intervals@[k],
        e.min_interval_samples,
    ) by {
        if is_starved(e.intervals@[k], e.min_interval_samples) {
            lemma_starved_is_found(e.intervals@, e.min_interval_samples, k, e.intervals@.len());
        }
    }
}

proof fn lemma_starved_is_found(intervals: Seq<Option<usize>>, min: usize, k: int, n: nat)
    requires
        0 <= k < n,
        is_starved(intervals[k], min),
    ensures
        first_starved(intervals, min, n) is Some,
    decreases n,
{
    if k < n - 1 {
        lemma_starved_is_found(intervals, min, k, (n - 1) as nat);
    }
}

/// The gates of the solve, each with what it says. A still hold comes first; then there
/// have to be as many poses as asked for, and four; no interval may be starved; the
/// camera has to have moved; and the system, gravity, the multiplier and the precision
/// have to be good, in this order.
pub proof fn law_inertial_gates_come_in_order<R>(e: InertialEvidence<R>)
    ensures
        ({
            let why = inertial_rejection(e);
            let moving = e.excitation.passes;
            let enough = e.poses >= e.min_poses && e.poses >= 4;
            let fed = forall|k: int|
                0 <= k < e.intervals@.len() ==> (#[trigger] e.intervals@[k]) is Some
                    && e.intervals@[k]->0 >= e.min_interval_samples && e.intervals@[k]->0 >= 2;
            let shifted = e.translation is None || e.translation->0.passes;
            let sound = e.condition is None || e.condition->0.passes;
            let heavy = e.gravity is None || e.gravity->0.passes;
            let usable = e.is_usable != Some(false);
            let precise = e.precision is None || e.precision->0.passes;
            &&& !moving ==> why is Some && why->0 is LowExcitation
            &&& moving && !enough ==> why is Some && why->0 is InsufficientPoses && why->0->have
                == e.poses && why->0->need == (if e.min_poses > 4 {
                e.min_poses
            } else {
                4
            })
            &&& moving && enough && !fed ==> why is Some && why->0 is InsufficientImu
            &&& moving && enough && fed && !shifted ==> why is Some && why->0 is PureRotation
                && why->0->ratio == e.translation->0.measured
            &&& moving && enough && fed && shifted && !sound ==> why is Some && why->0 is Singular
                && why->0->condition == e.condition->0.measured
            &&& moving && enough && fed && shifted && sound && !heavy ==> why is Some
                && why->0 is GravityMagnitude
            &&& moving && enough && fed && shifted && sound && heavy && !usable ==> why is Some
                && why->0 is Degenerate
            &&& moving && enough && fed && shifted && sound && heavy && usable && !precise
                ==> why is Some && why->0 is Imprecise && why->0->relative_stddev
                == e.precision->0.measured
            &&& why is None <==> moving && enough && fed && shifted && sound && heavy && usable
                && precise
        }),
{
    let n = e.intervals@.len();
    let min = e.min_interval_samples;
    if first_starved(e.intervals@, min, n) is None {
        assert forall|k: int| 0 <= k < n implies (#[trigger] e.intervals@[k]) is Some
            && e.intervals@[k]->0 >= min && e.intervals@[k]->0 >= 2 by {
            if is_starved(e.intervals@[k], min) {
                lemma_starved_is_found(e.intervals@, min, k, n);
            }
        }
    } else {
        lemma_first_starved_is_starved(e.intervals@, min, n);
        let k = first_starved(e.intervals@, min, n)->0 as int;
        assert(is_starved(e.intervals@[k], min));
    }
}

proof fn lemma_first_starved_is_starved(intervals: Seq<Option<usize>>, min: usize, n: nat)
    requires
        first_starved(intervals, min, n) is Some,
    ensures
        first_starved(intervals, min, n)->0 < n,
        is_starved(intervals[first_starved(intervals, min, n)->0 as int], min),
    decreases n,
{
    if n > 0 && first_starved(intervals, min, (n - 1) as nat) is Some {
        lemma_first_starved_is_starved(intervals, min, (n - 1) as nat);
    }
}

proof fn lemma_inside(times: Seq<i64>, from: i64, to: i64, n: nat, i: int)
    requires
        n <= times.len() <= usize::MAX,
    ensures
        inside_of(times, from, to, n).len() == how_many(n, |k: int| from < times[k] < to),
        0 <= i < n && from < times[i] < to ==> how_many(i as nat, |k: int| from < times[k] < to)
            < inside_of(times, from, to, n).len() && inside_of(times, from, to, n)[how_many(
            i as nat,
            |k: int| from < times[k] < to,
        ) as int] == i,
    decreases n,
{
    let p = |k: int| from < times[k] < to;
    if n > 0 {
        lemma_inside(times, from, to, (n - 1) as nat, i);
        lemma_how_many(n, p);
    } else {
        lemma_how_many(1, p);
    }
}

/// The samples inside an interval are exactly those after its start and before its end,
/// in their order.
pub proof fn law_samples_inside_are_between_the_ends(times: Seq<i64>, from: i64, to: i64, i: int)
    requires
        0 <= i < times.len() <= usize::MAX,
        from < times[i] < to,
    ensures
        ({
            let inside = inside_of(times, from, to, times.len());
            let rank = how_many(i as nat, |k: int| from < times[k] < to);
            &&& inside.len() == how_many(times.len(), |k: int| from < times[k] < to)
            &&& rank < inside.len()
            &&& inside[rank as int] == i
        }),
{
    lemma_inside(times, from, to, times.len(), i);
}

/// An interval is integrated exactly when it is not empty and at least two samples
/// bracket it, those inside and the nearest one on either side counted. Its ends are
/// interpolated between the samples on either side of them; where nothing comes before
/// the start, or after the end, the sample inside that is nearest to it is held.
pub proof fn law_interval_is_integrated_from_end_to_end(
    times: Seq<i64>,
    from: i64,
    to: i64,
    before: Option<usize>,
    after: Option<usize>,
    chain: Option<Chain>,
)
    requires
        chains(times, from, to, before, after, chain),
    ensures
        ({
            let inside = inside_of(times, from, to, times.len());
            let n = inside.len();
            let around = (before is Some && after is Some) || (before is Some && n >= 1) || (
            after is Some && n >= 1) || n >= 2;
            &&& chain is Some <==> from < to && around
            &&& chain matches Some(c) ==> {
                &&& c.inside@ == inside
                &&& before matches Some(b) ==> n > 0 ==> c.start == Endpoint::Between(b, inside[0])
                &&& before matches Some(b) ==> n == 0 ==> c.start == Endpoint::Between(b, after->0)
                &&& before is None ==> c.start == Endpoint::Held(inside[0])
                &&& after matches Some(a) ==> n > 0 ==> c.end == Endpoint::Between(
                    inside[n - 1],
                    a,
                )
                &&& after matches Some(a) ==> n == 0 ==> c.end == Endpoint::Between(before->0, a)
                &&& after is None ==> c.end == Endpoint::Held(inside[n - 1])
            }
        }),
{
}

/// The sample before an interval is the last one that is not after its start, and the
/// one after it the first that is not before its end.
pub proof fn law_samples_around_are_the_nearest(
    times: Seq<i64>,
    from: i64,
    to: i64,
    before: Option<usize>,
    after: Option<usize>,
    i: int,
)
    requires
        is_last_before(times, from, before),
        is_first_after(times, to, after),
        0 <= i < times.len(),
    ensures
        times[i] <= from ==> before is Some && before->0 >= i,
        before matches Some(b) ==> b < times.len() && times[b as int] <= from,
        times[i] >= to ==> after is Some && after->0 <= i,
        after matches Some(a) ==> a < times.len() && times[a as int] >= to,
{
}

/// Equations of the system: position and velocity over each interval.
pub open spec fn equations(poses: nat) -> int {
    6 * (poses - 1)
}

/// Unknowns of the system: the scale, gravity, and a velocity for each pose.
pub open spec fn unknowns(poses: nat) -> nat {
    4 + 3 * poses
}

/// Equations that the unknowns leave over.
pub open spec fn freedom(rows: nat, columns: nat) -> int {
    if rows > columns {
        rows - columns
    } else {
        1
    }
}

/// Each pose adds six equations and three unknowns; a single pose has no equation, and
/// four unknowns of its own beside its velocity. Four poses are the fewest that have as
/// many equations as unknowns.
pub proof fn law_every_pose_adds_three_equations(poses: nat)
    requires
        poses >= 1,
    ensures
        equations(1) == 0 && unknowns(1) == 1 + 3 + 3,
        equations(poses + 1) == equations(poses) + 6,
        unknowns(poses + 1) == unknowns(poses) + 3,
        equations(poses) >= unknowns(poses) <==> poses >= 4,
{
}

/// What the unknowns leave over is never less than one, so a variance can be divided
/// by it, and is exact where there is more.
pub proof fn law_freedom_is_what_is_left_over(rows: nat, columns: nat)
    ensures
        freedom(rows, columns) >= 1,
        rows > columns ==> freedom(rows, columns) + columns == rows,
        rows <= columns ==> freedom(rows, columns) == 1,
{
}

/// Leaving gravity out keeps the scale first and the velocities in their order.
pub proof fn law_columns_keep_their_order(i: nat, j: nat)
    requires
        i < j,
    ensures
        left_in(i) < left_in(j),
        left_in(0) == 0,
        left_in(1) == 4,
        i > 0 ==> left_in(j) - left_in(i) == j - i,
{
}

/// Where the velocity of a pose begins among the unknowns.
pub open spec fn velocity_at(pose: nat) -> nat {
    4 + 3 * pose
}

/// The velocities stand behind the scale and gravity, one behind the other, three
/// unknowns each, and fill all that is left.
pub proof fn law_velocities_fill_the_unknowns(poses: nat, i: nat)
    requires
        i < poses,
    ensures
        velocity_at(0) == 1 + 3,
        velocity_at(i + 1) == velocity_at(i) + 3,
        velocity_at(i) + 3 <= unknowns(poses),
        velocity_at(poses) == unknowns(poses),
{
}

} // verus!
