//! Bookkeeping of motion-only bundle adjustment: which correspondences take part
//! and which are inliers of the refined pose.

use vstd::prelude::*;

use crate::count::{how_many, lemma_how_many};

verus! {

/// Trials in a row that raise the damping before a solve is taken to be at its
/// minimum.
pub const MAX_ESCALATIONS: usize = 12;

/// Fewest visible landmarks a pose can be refined against.
pub const MIN_VISIBLE: usize = 3;

/// Whether so many visible landmarks constrain a pose.
pub fn constrains_a_pose(used: usize) -> (enough: bool)
    ensures
        enough == (used >= MIN_VISIBLE),
        enough <==> 2 * used >= 6,
{
    used >= MIN_VISIBLE
}

/// Whether a mask lets correspondence `i` through: no mask lets all through, and
/// a mask that is too short lets nothing through beyond its end.
pub open spec fn lets_through(mask: Option<Seq<bool>>, i: int) -> bool {
    match mask {
        None => true,
        Some(m) => 0 <= i < m.len() && m[i],
    }
}

/// The view of an optional mask.
pub open spec fn mask_view(mask: Option<&Vec<bool>>) -> Option<Seq<bool>> {
    match mask {
        None => None,
        Some(m) => Some(m@),
    }
}

/// Whether a mask lets correspondence `i` through.
pub fn is_selected(mask: Option<&Vec<bool>>, i: usize) -> (selected: bool)
    ensures
        selected == lets_through(mask_view(mask), i as int),
{
    match mask {
        None => true,
        Some(m) => i < m.len() && m[i],
    }
}

/// How many of the first `n` flags are set.
pub open spec fn count_set(flags: Seq<bool>, n: nat) -> nat
    decreases n,
{
    if n == 0 {
        0
    } else {
        count_set(flags, (n - 1) as nat) + if flags[n - 1] {
            1nat
        } else {
            0nat
        }
    }
}

/// No more flags are set than there are.
proof fn lemma_count_bound(flags: Seq<bool>, n: nat)
    ensures
        count_set(flags, n) <= n,
    decreases n,
{
    if n > 0 {
        lemma_count_bound(flags, (n - 1) as nat);
    }
}

/// A flag that is set later does not change the count before it.
proof fn lemma_count_prefix(a: Seq<bool>, b: Seq<bool>, n: nat)
    requires
        n <= a.len(),
        n <= b.len(),
        forall|i: int| 0 <= i < n ==> #[trigger] a[i] == b[i],
    ensures
        count_set(a, n) == count_set(b, n),
    decreases n,
{
    if n > 0 {
        lemma_count_prefix(a, b, (n - 1) as nat);
    }
}

/// How many flags are set.
pub fn count_flags(flags: &Vec<bool>) -> (n: usize)
    ensures
        n == count_set(flags@, flags@.len()),
        n <= flags@.len(),
{
    let mut n: usize = 0;
    let mut i: usize = 0;
    while i < flags.len()
        invariant
            i <= flags@.len(),
            n == count_set(flags@, i as nat),
            n <= i,
        decreases flags@.len() - i,
    {
        if flags[i] {
            n = n + 1;
        }
        i = i + 1;
    }
    n
}

/// Inlier flags and their number.
#[derive(Debug)]
pub struct Inliers {
    pub flags: Vec<bool>,
    pub count: usize,
}

/// Classify correspondences: one is an inlier when the mask lets it through and
/// it hits, that is, its landmark is in front of the camera and its error within
/// the threshold. There is a flag for each of the `landmarks`; correspondences
/// beyond the shorter of the two lists are never inliers.
pub fn classify(landmarks: usize, mask: Option<&Vec<bool>>, hits: &Vec<bool>) -> (inliers: Inliers)
    ensures
        inliers.flags@.len() == landmarks,
        forall|i: int|
            0 <= i < landmarks ==> #[trigger] inliers.flags@[i] == (i < hits@.len() && lets_through(
                mask_view(mask),
                i,
            ) && hits@[i]),
        inliers.count == count_set(inliers.flags@, landmarks as nat),
{
    let mut flags: Vec<bool> = Vec::new();
    let mut count: usize = 0;
    let mut i: usize = 0;
    while i < landmarks
        invariant
            i <= landmarks,
            flags@.len() == i,
            forall|k: int|
                0 <= k < i ==> #[trigger] flags@[k] == (k < hits@.len() && lets_through(
                    mask_view(mask),
                    k,
                ) && hits@[k]),
            count == count_set(flags@, i as nat),
            count <= i,
        decreases landmarks - i,
    {
        let hit: bool = i < hits.len() && is_selected(mask, i) && hits[i];
        let ghost before = flags@;
        flags.push(hit);
        proof {
            lemma_count_prefix(before, flags@, i as nat);
        }
        if hit {
            count = count + 1;
        }
        i = i + 1;
    }
    Inliers { flags, count }
}

/// The items whose flag is set, among the first `n`, in order.
pub open spec fn picked<T>(items: Seq<T>, flags: Seq<bool>, n: nat) -> Seq<T>
    decreases n,
{
    if n == 0 {
        seq![]
    } else if flags[n - 1] {
        picked(items, flags, (n - 1) as nat).push(items[n - 1])
    } else {
        picked(items, flags, (n - 1) as nat)
    }
}

/// The items whose flag is set, in order; items beyond the shorter list are left
/// out.
pub fn pick<T: Copy>(items: &Vec<T>, flags: &Vec<bool>) -> (out: Vec<T>)
    ensures
        ({
            let n = if items@.len() <= flags@.len() {
                items@.len()
            } else {
                flags@.len()
            };
            &&& out@ == picked(items@, flags@, n)
            &&& out@.len() == count_set(flags@, n)
        }),
{
    let n: usize = if items.len() <= flags.len() {
        items.len()
    } else {
        flags.len()
    };
    let mut out: Vec<T> = Vec::new();
    let mut i: usize = 0;
    while i < n
        invariant
            i <= n,
            n <= items@.len(),
            n <= flags@.len(),
            out@ == picked(items@, flags@, i as nat),
            out@.len() == count_set(flags@, i as nat),
        decreases n - i,
    {
        if flags[i] {
            out.push(items[i]);
        }
        i = i + 1;
    }
    out
}

/// Correspondences that are masked out are never inliers.
pub proof fn law_masked_out_is_never_inlier(landmarks: nat, mask: Seq<bool>, hits: Seq<bool>, flags: Seq<bool>, i: int)
    requires
        flags.len() == landmarks,
        forall|k: int|
            0 <= k < landmarks ==> #[trigger] flags[k] == (k < hits.len() && lets_through(
                Some(mask),
                k,
            ) && hits[k]),
        0 <= i < landmarks,
        i >= mask.len() || !mask[i],
    ensures
        !flags[i],
{
}

proof fn lemma_flags_counted(flags: Seq<bool>, n: nat)
    requires
        n <= flags.len(),
    ensures
        count_set(flags, n) == how_many(n, |i: int| flags[i]),
    decreases n,
{
    let p = |i: int| flags[i];
    if n > 0 {
        lemma_flags_counted(flags, (n - 1) as nat);
        lemma_how_many(n, p);
    } else {
        lemma_how_many(1, p);
    }
}

/// The count of flags is how many are set.
pub proof fn law_count_is_how_many_are_set(flags: Seq<bool>)
    ensures
        count_set(flags, flags.len()) == how_many(flags.len(), |i: int| flags[i]),
{
    lemma_flags_counted(flags, flags.len());
}

/// Without a mask everything takes part; with one, exactly what it marks does, and what
/// it does not reach does not.
pub proof fn law_mask_selects_what_it_marks(mask: Seq<bool>, i: int)
    requires
        0 <= i,
    ensures
        lets_through(None, i),
        i < mask.len() ==> lets_through(Some(mask), i) == mask[i],
        i >= mask.len() ==> !lets_through(Some(mask), i),
{
}

proof fn lemma_picked_at<T>(items: Seq<T>, flags: Seq<bool>, n: nat, i: int)
    requires
        n <= items.len(),
        n <= flags.len(),
    ensures
        picked(items, flags, n).len() == how_many(n, |k: int| flags[k]),
        0 <= i < n && flags[i] ==> how_many(i as nat, |k: int| flags[k]) < picked(
            items,
            flags,
            n,
        ).len() && picked(items, flags, n)[how_many(i as nat, |k: int| flags[k]) as int]
            == items[i],
    decreases n,
{
    let p = |k: int| flags[k];
    if n > 0 {
        lemma_picked_at(items, flags, (n - 1) as nat, i);
        lemma_how_many(n, p);
    } else {
        lemma_how_many(1, p);
    }
}

/// What is picked is every item whose flag is set, in order, and nothing else.
pub proof fn law_picking_keeps_what_is_flagged<T>(items: Seq<T>, flags: Seq<bool>, n: nat, i: int)
    requires
        n <= items.len(),
        n <= flags.len(),
        0 <= i < n,
        flags[i],
    ensures
        ({
            let rank = how_many(i as nat, |k: int| flags[k]);
            &&& picked(items, flags, n).len() == how_many(n, |k: int| flags[k])
            &&& rank < picked(items, flags, n).len()
            &&& picked(items, flags, n)[rank as int] == items[i]
        }),
{
    lemma_picked_at(items, flags, n, i);
}

/// A pose has six unknowns, and a landmark gives two equations.
pub proof fn law_three_landmarks_constrain_a_pose(n: nat)
    ensures
        n >= MIN_VISIBLE <==> 2 * n >= 6,
{
}

} // verus!
