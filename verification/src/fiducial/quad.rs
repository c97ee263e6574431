//! Quad fitting: which boundary points are corners, which belong to which side,
//! and which quads are accepted. Distances and angles are given as sort keys.

use vstd::prelude::*;

use crate::order::{is_last_greatest, last_greatest};

verus! {

/// Fewest boundary points a quad is fitted to.
pub const MIN_BOUNDARY_POINTS: usize = 8;

/// Fewest points between two corners.
pub const MIN_RUN: usize = 3;

/// Whether a contour has enough points to fit a quad to.
pub fn enough_boundary_points(points: usize) -> (enough: bool)
    ensures
        enough == (points >= MIN_BOUNDARY_POINTS),
        enough == (points >= 2 * 4),
{
    points >= MIN_BOUNDARY_POINTS
}

/// Four corners, consecutive ones joined by a side. `V` is the type of a point.
#[derive(Debug, Clone, Copy)]
pub struct Quad<V> {
    pub corners: [V; 4],
}

impl<V: Copy> Quad<V> {
    /// The same quad wound the other way if its area is negative.
    pub fn wound_positive(self, area_is_negative: bool) -> (quad: Quad<V>)
        ensures
            !area_is_negative ==> quad.corners@ == self.corners@,
            area_is_negative ==> quad.corners@ == seq![
                self.corners@[0],
                self.corners@[3],
                self.corners@[2],
                self.corners@[1],
            ],
            quad.corners@ == wound(self.corners@, area_is_negative),
    {
        if !area_is_negative {
            assert(wound(self.corners@, false) =~= self.corners@);
            return self;
        }
        let c: [V; 4] = self.corners;
        let quad = Quad { corners: [c[0], c[3], c[2], c[1]] };
        assert(quad.corners@ =~= seq![
            self.corners@[0],
            self.corners@[3],
            self.corners@[2],
            self.corners@[1],
        ]);
        assert(quad.corners@ =~= wound(self.corners@, true));
        quad
    }
}

/// Which way the outline turns at a corner.
#[derive(Debug, Clone, Copy, PartialEq, Eq, Structural)]
pub enum Turn {
    Left,
    Right,
    Straight,
}

/// Every turn is the same way, and none is straight.
pub open spec fn turns_one_way(turns: Seq<Turn>) -> bool {
    forall|i: int| 0 <= i < turns.len() ==> #[trigger] turns[i] == turns[0] && turns[i]
        != Turn::Straight
}

/// Whether a quad with these turns is convex.
pub fn is_convex(turns: &[Turn; 4]) -> (convex: bool)
    ensures
        convex == turns_one_way(turns@),
{
    let convex: bool = turns[0] != Turn::Straight && turns[1] == turns[0] && turns[2] == turns[0]
        && turns[3] == turns[0];
    if !convex {
        assert(!turns_one_way(turns@)) by {
            if turns_one_way(turns@) {
                assert(turns@[0] != Turn::Straight);
                assert(turns@[1] == turns@[0]);
                assert(turns@[2] == turns@[0]);
                assert(turns@[3] == turns@[0]);
            }
        }
    }
    convex
}

/// Whether a fitted quad is accepted: its corners are numbers, it is convex, no
/// side is too short, and no side is too long for the shortest.
pub fn is_acceptable(
    is_finite: bool,
    turns: &[Turn; 4],
    sides_are_long_enough: bool,
    sides_are_alike: bool,
) -> (accepted: bool)
    ensures
        accepted == (is_finite && turns_one_way(turns@) && sides_are_long_enough
            && sides_are_alike),
{
    is_finite && is_convex(turns) && sides_are_long_enough && sides_are_alike
}

/// On which side of the diagonal a point lies, and how far off.
#[derive(Debug, Clone, Copy, PartialEq, Eq, Structural)]
pub struct Offset {
    pub is_positive: bool,
    pub magnitude: u64,
}

/// `at` is the point farthest off on one side, the first of equals, and it is
/// farther off than `least`.
pub open spec fn is_farthest(offsets: Seq<Offset>, positive: bool, least: u64, at: int) -> bool {
    &&& 0 <= at < offsets.len()
    &&& offsets[at].is_positive == positive
    &&& offsets[at].magnitude > least
    &&& forall|i: int|
        0 <= i < offsets.len() && (#[trigger] offsets[i]).is_positive == positive
            ==> offsets[i].magnitude <= offsets[at].magnitude && (i < at ==> offsets[i].magnitude
            < offsets[at].magnitude)
}

/// No point on one side is farther off than `least`.
pub open spec fn is_flat(offsets: Seq<Offset>, positive: bool, least: u64) -> bool {
    forall|i: int|
        0 <= i < offsets.len() && (#[trigger] offsets[i]).is_positive == positive
            ==> offsets[i].magnitude <= least
}

fn farthest(offsets: &Vec<Offset>, positive: bool, least: u64) -> (at: Option<usize>)
    ensures
        match at {
            None => is_flat(offsets@, positive, least),
            Some(k) => is_farthest(offsets@, positive, least, k as int),
        },
{
    let mut best: Option<usize> = None;
    let mut i: usize = 0;
    while i < offsets.len()
        invariant
            i <= offsets@.len(),
            match best {
                None => forall|k: int|
                    0 <= k < i && (#[trigger] offsets@[k]).is_positive == positive
                        ==> offsets@[k].magnitude <= least,
                Some(b) => {
                    &&& b < i
                    &&& offsets@[b as int].is_positive == positive
                    &&& offsets@[b as int].magnitude > least
                    &&& forall|k: int|
                        0 <= k < i && (#[trigger] offsets@[k]).is_positive == positive
                            ==> offsets@[k].magnitude <= offsets@[b as int].magnitude && (k < b
                            ==> offsets@[k].magnitude < offsets@[b as int].magnitude)
                },
            },
        decreases offsets@.len() - i,
    {
        if offsets[i].is_positive == positive {
            let farther: bool = match best {
                None => offsets[i].magnitude > least,
                Some(b) => offsets[i].magnitude > offsets[b].magnitude,
            };
            if farther {
                best = Some(i);
            }
        }
        i = i + 1;
    }
    best
}

/// The two corners off the diagonal: the farthest point on either side of it.
/// `None` where the contour is a line segment.
pub fn side_corners(offsets: &Vec<Offset>, least: u64) -> (corners: Option<(usize, usize)>)
    ensures
        match corners {
            None => is_flat(offsets@, true, least) || is_flat(offsets@, false, least),
            Some((p, n)) => is_farthest(offsets@, true, least, p as int) && is_farthest(
                offsets@,
                false,
                least,
                n as int,
            ),
        },
{
    match (farthest(offsets, true, least), farthest(offsets, false, least)) {
        (Some(p), Some(n)) => Some((p, n)),
        _ => None,
    }
}

/// The first corner, or the one opposite it: the point farthest away, the last of
/// equals.
pub fn far_corner(distances: &Vec<u64>) -> (at: Option<usize>)
    ensures
        at is None <==> distances@.len() == 0,
        at matches Some(i) ==> is_last_greatest(distances@, i as int),
{
    last_greatest(distances)
}

/// Four positions in ascending order, if they are four.
pub fn four_distinct(at: [usize; 4]) -> (sorted: Option<[usize; 4]>)
    ensures
        match sorted {
            None => exists|i: int, j: int| 0 <= i < j < 4 && at@[i] == at@[j],
            Some(s) => {
                &&& s@[0] < s@[1] < s@[2] < s@[3]
                &&& s@.to_multiset() == at@.to_multiset()
            },
        },
{
    let mut s: [usize; 4] = at;
    let ghost m = at@.to_multiset();
    if s[1] < s[0] {
        swap_positions(&mut s, 0, 1);
    }
    if s[3] < s[2] {
        swap_positions(&mut s, 2, 3);
    }
    if s[2] < s[0] {
        swap_positions(&mut s, 0, 2);
    }
    if s[3] < s[1] {
        swap_positions(&mut s, 1, 3);
    }
    if s[2] < s[1] {
        swap_positions(&mut s, 1, 2);
    }
    if s[0] < s[1] && s[1] < s[2] && s[2] < s[3] {
        Some(s)
    } else {
        proof {
            lemma_repeat_is_kept(s@, at@);
        }
        None
    }
}

fn swap_positions(s: &mut [usize; 4], i: usize, j: usize)
    requires
        i < j < 4,
    ensures
        final(s)@[i as int] == old(s)@[j as int],
        final(s)@[j as int] == old(s)@[i as int],
        forall|k: int|
            0 <= k < 4 && k != i && k != j ==> #[trigger] final(s)@[k] == old(s)@[k],
        final(s)@.to_multiset() == old(s)@.to_multiset(),
{
    let a: usize = s[i];
    let b: usize = s[j];
    s[i] = b;
    s[j] = a;
    proof {
        assert(s@ =~= old(s)@.update(i as int, b).update(j as int, a));
        old(s)@.to_multiset_ensures();
        vstd::seq_lib::to_multiset_update(old(s)@, i as int, b);
        vstd::seq_lib::to_multiset_update(old(s)@.update(i as int, b), j as int, a);
        assert(s@.to_multiset() =~= old(s)@.to_multiset());
    }
}

proof fn lemma_repeat_is_kept(s: Seq<usize>, at: Seq<usize>)
    requires
        s.len() == 4,
        at.len() == 4,
        s.to_multiset() == at.to_multiset(),
        s[0] <= s[1] <= s[2] <= s[3],
        !(s[0] < s[1] && s[1] < s[2] && s[2] < s[3]),
    ensures
        exists|i: int, j: int| 0 <= i < j < 4 && at[i] == at[j],
{
    if at.no_duplicates() {
        at.lemma_multiset_has_no_duplicates();
        s.lemma_multiset_has_no_duplicates_conv();
        assert(s[0] != s[1]);
        assert(s[1] != s[2]);
        assert(s[2] != s[3]);
    }
}

/// How many points lie between the corner at `start` and the one at `end`, going
/// around.
pub open spec fn run_length(start: int, end: int, n: int) -> int {
    if end > start {
        end - start
    } else {
        n - start + end
    }
}

/// The run of points of one side: from one corner to the next, around the
/// contour of `n` points.
pub fn run(corners: &[usize; 4], side: usize, n: usize) -> (length: Option<usize>)
    requires
        side < 4,
        forall|i: int| 0 <= i < 4 ==> #[trigger] corners@[i] < n,
    ensures
        ({
            let length_of = run_length(
                corners@[side as int] as int,
                corners@[(side + 1) % 4] as int,
                n as int,
            );
            match length {
                Some(c) => c == length_of && length_of >= MIN_RUN,
                None => length_of < MIN_RUN,
            }
        }),
        is_run_between(length, corners@[side as int] as int, corners@[(side + 1) % 4] as int, n as int),
{
    let start: usize = corners[side];
    let end: usize = corners[(side + 1) % 4];
    assert(corners@[side as int] < n);
    assert(corners@[(side + 1) % 4] < n);
    let count: usize = if end > start {
        end - start
    } else {
        n - start + end
    };
    if count < MIN_RUN {
        None
    } else {
        Some(count)
    }
}

/// How many points a run keeps once `trim` have been left off at each end.
pub open spec fn kept_of(count: nat, trim: nat) -> nat {
    if count >= 2 * trim {
        (count - 2 * trim) as nat
    } else {
        0
    }
}

/// The points a side is fitted to: the run from `start`, without `trim` points at
/// each end. `None` where too few are left.
pub fn side_points(start: usize, count: usize, trim: usize, n: usize, min_points: usize) -> (
points: Option<Vec<usize>>)
    requires
        start < n,
        count <= n,
    ensures
        match points {
            None => kept_of(count as nat, trim as nat) < min_points,
            Some(p) => {
                &&& p@.len() == kept_of(count as nat, trim as nat)
                &&& p@.len() >= min_points
                &&& forall|k: int|
                    0 <= k < p@.len() ==> #[trigger] p@[k] == (start + trim + k) % (n as int)
            },
        },
{
    let keep: usize = if trim <= count / 2 {
        count - 2 * trim
    } else {
        0
    };
    if keep < min_points {
        return None;
    }
    let mut points: Vec<usize> = Vec::new();
    let mut k: usize = 0;
    while k < keep
        invariant
            k <= keep,
            keep == kept_of(count as nat, trim as nat),
            count <= n,
            start < n,
            points@.len() == k,
            forall|j: int|
                0 <= j < k ==> #[trigger] points@[j] == (start + trim + j) % (n as int),
        decreases keep - k,
    {
        let ahead: usize = trim + k;
        let at: usize = if ahead < n - start {
            start + ahead
        } else {
            ahead - (n - start)
        };
        proof {
            lemma_wrap(start as int, ahead as int, n as int);
        }
        points.push(at);
        k = k + 1;
    }
    Some(points)
}

proof fn lemma_wrap(start: int, ahead: int, n: int)
    requires
        0 <= start < n,
        0 <= ahead < n,
    ensures
        (start + ahead) % n == (if ahead < n - start {
            start + ahead
        } else {
            ahead - (n - start)
        }),
{
    if ahead < n - start {
        vstd::arithmetic::div_mod::lemma_small_mod((start + ahead) as nat, n as nat);
    } else {
        vstd::arithmetic::div_mod::lemma_mod_multiples_vanish(-1, start + ahead, n);
        vstd::arithmetic::div_mod::lemma_small_mod((start + ahead - n) as nat, n as nat);
        assert(n * -1 + (start + ahead) == start + ahead - n) by (nonlinear_arith);
    }
}

/// The two sides that meet at a corner: the one arriving and the one leaving.
pub fn sides_at(corner: usize) -> (sides: (usize, usize))
    requires
        corner < 4,
    ensures
        sides == (((corner + 3) % 4) as usize, corner),
        sides.0 == side_before(corner as int),
        sides.1 == corner,
{
    ((corner + 3) % 4, corner)
}

/// The four runs go once around the contour.
pub proof fn law_runs_go_once_around(c: Seq<usize>, n: int)
    requires
        c.len() == 4,
        c[0] < c[1] < c[2] < c[3] < n,
    ensures
        run_length(c[0] as int, c[1] as int, n) + run_length(c[1] as int, c[2] as int, n)
            + run_length(c[2] as int, c[3] as int, n) + run_length(c[3] as int, c[0] as int, n)
            == n,
{
}

/// A quad is convex exactly when it turns the same way at all four corners, left or
/// right.
pub proof fn law_convex_quad_turns_one_way(turns: Seq<Turn>)
    requires
        turns.len() == 4,
    ensures
        turns_one_way(turns) <==> (turns[0] == Turn::Left && turns[1] == Turn::Left && turns[2]
            == Turn::Left && turns[3] == Turn::Left) || (turns[0] == Turn::Right && turns[1]
            == Turn::Right && turns[2] == Turn::Right && turns[3] == Turn::Right),
{
    if turns_one_way(turns) {
        assert(turns[0] != Turn::Straight);
        assert(turns[1] == turns[0]);
        assert(turns[2] == turns[0]);
        assert(turns[3] == turns[0]);
    }
}

/// The corner on one side of the diagonal is the point of that side that is farthest off
/// it, the first of equals; there is none exactly when no point of that side is farther
/// off than `least`.
pub proof fn law_side_corner_is_farthest_off(
    offsets: Seq<Offset>,
    positive: bool,
    least: u64,
    at: int,
    i: int,
)
    requires
        0 <= i < offsets.len(),
        offsets[i].is_positive == positive,
    ensures
        is_farthest(offsets, positive, least, at) ==> {
            &&& 0 <= at < offsets.len()
            &&& offsets[at].is_positive == positive
            &&& offsets[at].magnitude > least
            &&& offsets[i].magnitude <= offsets[at].magnitude
            &&& offsets[i].magnitude == offsets[at].magnitude ==> at <= i
        },
        is_flat(offsets, positive, least) ==> offsets[i].magnitude <= least,
        offsets[i].magnitude > least ==> !is_flat(offsets, positive, least),
{
}

/// A run of boundary points leads from one corner to the next, going around the end of
/// the list where it has to.
pub proof fn law_run_leads_to_the_next_corner(start: int, end: int, n: int)
    requires
        0 <= start < n,
        0 <= end < n,
    ensures
        1 <= run_length(start, end, n) <= n,
        (start + run_length(start, end, n)) % n == end,
{
    let r = run_length(start, end, n);
    if end > start {
        vstd::arithmetic::div_mod::lemma_small_mod(end as nat, n as nat);
    } else {
        assert(start + r == end + n);
        vstd::arithmetic::div_mod::lemma_mod_add_multiples_vanish(end, n);
        vstd::arithmetic::div_mod::lemma_small_mod(end as nat, n as nat);
    }
}

/// A side is fitted to what is left of its run once both ends have been trimmed by as
/// much, and to nothing where they meet.
pub proof fn law_side_is_trimmed_at_both_ends(count: nat, trim: nat)
    ensures
        2 * trim <= count ==> trim + kept_of(count, trim) + trim == count,
        2 * trim > count ==> kept_of(count, trim) == 0,
{
}

/// Corners wound so that the area is positive.
pub open spec fn wound<V>(corners: Seq<V>, area_is_negative: bool) -> Seq<V> {
    if area_is_negative {
        Seq::new(4, |i: int| corners[(4 - i) % 4])
    } else {
        corners
    }
}

/// Winding a quad the other way keeps its first corner and goes through the others
/// backwards; doing so twice gives it back. A quad whose area is positive stays.
pub proof fn law_winding_goes_backwards<V>(corners: Seq<V>)
    requires
        corners.len() == 4,
    ensures
        wound(corners, false) == corners,
        wound(corners, true) =~= seq![corners[0], corners[3], corners[2], corners[1]],
        wound(wound(corners, true), true) =~= corners,
{
}

/// The side that leads to a corner.
pub open spec fn side_before(corner: int) -> int {
    (corner + 3) % 4
}

/// The side before a corner leads to it: the next side is the corner's own.
pub proof fn law_sides_meet_at_their_corner(corner: int)
    requires
        0 <= corner < 4,
    ensures
        0 <= side_before(corner) < 4,
        (side_before(corner) + 1) % 4 == corner,
{
}

/// Whether `length` is the run from one point of a contour to another, where that is
/// long enough.
pub open spec fn is_run_between(length: Option<usize>, start: int, end: int, n: int) -> bool {
    match length {
        Some(c) => c == run_length(start, end, n) && c >= MIN_RUN,
        None => run_length(start, end, n) < MIN_RUN,
    }
}

/// A side is refused exactly when fewer than three steps lead from its one end to the
/// other, and otherwise has as many points as there are steps.
pub proof fn law_side_has_three_points(length: Option<usize>, start: int, end: int, n: int, steps: int)
    requires
        0 <= start < n,
        0 <= end < n,
        0 < steps <= n,
        (start + steps) % n == end,
        is_run_between(length, start, end, n),
    ensures
        steps < 3 ==> length is None,
        steps >= 3 ==> length is Some && length->0 == steps,
{
    if start + steps < n {
        vstd::arithmetic::div_mod::lemma_small_mod((start + steps) as nat, n as nat);
    } else {
        vstd::arithmetic::div_mod::lemma_mod_sub_multiples_vanish(start + steps, n);
        if start + steps - n < n {
            vstd::arithmetic::div_mod::lemma_small_mod((start + steps - n) as nat, n as nat);
        }
    }
}

} // verus!
