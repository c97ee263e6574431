//! Scale from a tag of known size: which tag to go by, and which pose goes with
//! a sighting.

use vstd::prelude::*;

use crate::count::{how_many, lemma_how_many, lemma_same_count};

verus! {

/// Fewest sightings that make a baseline.
pub const MIN_SIGHTINGS: usize = 2;

/// How often an id occurs among the first `n`.
pub open spec fn occurrences(ids: Seq<u32>, id: u32, n: nat) -> nat
    decreases n,
{
    if n == 0 {
        0
    } else {
        occurrences(ids, id, (n - 1) as nat) + if ids[n - 1] == id {
            1nat
        } else {
            0nat
        }
    }
}

/// Whether an id is preferred to another: it occurs more often, or as often and
/// is greater.
pub open spec fn dominates(ids: Seq<u32>, a: u32, b: u32) -> bool {
    let ca = occurrences(ids, a, ids.len());
    let cb = occurrences(ids, b, ids.len());
    ca > cb || (ca == cb && a >= b)
}

/// `id` is the tag seen most often, the greatest of equals.
pub open spec fn is_dominant(ids: Seq<u32>, id: Option<u32>) -> bool {
    match id {
        None => ids.len() == 0,
        Some(d) => ids.contains(d) && forall|i: int|
            0 <= i < ids.len() ==> dominates(ids, d, #[trigger] ids[i]),
    }
}

fn count(ids: &Vec<u32>, id: u32) -> (n: usize)
    ensures
        n == occurrences(ids@, id, ids@.len()),
{
    let mut n: usize = 0;
    let mut i: usize = 0;
    while i < ids.len()
        invariant
            i <= ids@.len(),
            n <= i,
            n == occurrences(ids@, id, i as nat),
        decreases ids@.len() - i,
    {
        if ids[i] == id {
            n = n + 1;
        }
        i = i + 1;
    }
    n
}

/// The tag seen most often, the greatest of equals.
pub fn dominant_id(ids: &Vec<u32>) -> (id: Option<u32>)
    ensures
        is_dominant(ids@, id),
{
    if ids.len() == 0 {
        return None;
    }
    let mut best: u32 = ids[0];
    let mut best_count: usize = count(ids, best);
    let mut i: usize = 1;
    while i < ids.len()
        invariant
            0 < i <= ids@.len(),
            best_count == occurrences(ids@, best, ids@.len()),
            ids@.contains(best),
            forall|k: int| 0 <= k < i ==> dominates(ids@, best, #[trigger] ids@[k]),
        decreases ids@.len() - i,
    {
        let id: u32 = ids[i];
        let n: usize = count(ids, id);
        if n > best_count || (n == best_count && id > best) {
            best = id;
            best_count = n;
            assert(ids@[i as int] == id);
        }
        i = i + 1;
    }
    Some(best)
}

/// There is only one tag to go by.
pub proof fn law_dominant_tag_is_unique(ids: Seq<u32>, a: u32, b: u32)
    requires
        is_dominant(ids, Some(a)),
        is_dominant(ids, Some(b)),
    ensures
        a == b,
{
    let i = choose|i: int| 0 <= i < ids.len() && ids[i] == a;
    let j = choose|j: int| 0 <= j < ids.len() && ids[j] == b;
    assert(dominates(ids, b, ids[i]));
    assert(dominates(ids, a, ids[j]));
}

/// `at` is the nearest candidate within the tolerance, the first of equals.
pub open spec fn is_nearest(distances: Seq<u64>, tolerance: u64, at: Option<usize>) -> bool {
    match at {
        None => forall|i: int| 0 <= i < distances.len() ==> #[trigger] distances[i] > tolerance,
        Some(k) => {
            &&& k < distances.len()
            &&& distances[k as int] <= tolerance
            &&& forall|i: int|
                0 <= i < distances.len() ==> #[trigger] distances[i] >= distances[k as int] && (i
                    < k ==> distances[i] > distances[k as int])
        },
    }
}

/// The nearest candidate within the tolerance, given how far away each is.
pub fn nearest_within(distances: &Vec<u64>, tolerance: u64) -> (at: Option<usize>)
    ensures
        is_nearest(distances@, tolerance, at),
{
    let mut best: Option<usize> = None;
    let mut i: usize = 0;
    while i < distances.len()
        invariant
            i <= distances@.len(),
            match best {
                None => forall|k: int| 0 <= k < i ==> #[trigger] distances@[k] > tolerance,
                Some(b) => {
                    &&& b < i
                    &&& distances@[b as int] <= tolerance
                    &&& forall|k: int|
                        0 <= k < i ==> #[trigger] distances@[k] >= distances@[b as int] && (k < b
                            ==> distances@[k] > distances@[b as int])
                },
            },
        decreases distances@.len() - i,
    {
        if distances[i] <= tolerance {
            let nearer: bool = match best {
                None => true,
                Some(b) => distances[i] < distances[b],
            };
            if nearer {
                best = Some(i);
            }
        }
        i = i + 1;
    }
    best
}

/// Whether so many sightings make a baseline.
pub fn enough_sightings(n: usize, min_observations: usize) -> (enough: bool)
    ensures
        enough == (n >= min_observations && n >= MIN_SIGHTINGS),
        enough <==> n > 1 && n >= min_observations,
{
    n >= min_observations && n >= MIN_SIGHTINGS
}

/// What the ruler answers. A measured tag size needs no camera motion and goes
/// before the trajectory; `is_precise` says whether the estimate that is used is
/// certain enough to be reported at all.
pub fn decide<E: Copy>(from_size: Option<E>, from_track: Option<E>, is_precise: bool) -> (answer:
    Option<E>)
    ensures
        answer == (if !is_precise {
            None
        } else if from_size is Some {
            from_size
        } else {
            from_track
        }),
        answer == ruling(from_size, from_track, is_precise),
{
    if !is_precise {
        return None;
    }
    match from_size {
        Some(e) => Some(e),
        None => from_track,
    }
}

proof fn lemma_occurrences(ids: Seq<u32>, id: u32, n: nat)
    requires
        n <= ids.len(),
    ensures
        occurrences(ids, id, n) == how_many(n, |i: int| ids[i] == id),
    decreases n,
{
    let p = |i: int| ids[i] == id;
    if n > 0 {
        lemma_occurrences(ids, id, (n - 1) as nat);
        lemma_how_many(n, p);
    } else {
        lemma_how_many(1, p);
    }
}

/// The dominant tag is the one that was seen most often, and of several that were seen
/// as often the one with the greatest id; there is none exactly where none was seen.
pub proof fn law_dominant_tag_is_seen_most(ids: Seq<u32>, found: Option<u32>, other: u32)
    requires
        is_dominant(ids, found),
        ids.contains(other),
    ensures
        found is Some,
        ids.contains(found->0),
        ({
            let mine = how_many(ids.len(), |i: int| ids[i] == found->0);
            let theirs = how_many(ids.len(), |i: int| ids[i] == other);
            mine >= theirs && (mine == theirs ==> found->0 >= other)
        }),
{
    let i = choose|i: int| 0 <= i < ids.len() && ids[i] == other;
    let d = found->0;
    assert(dominates(ids, d, ids[i]));
    lemma_occurrences(ids, d, ids.len());
    lemma_occurrences(ids, other, ids.len());
    lemma_same_count(ids.len(), |k: int| ids[k] == d, |k: int| ids[k] == found->0);
}

/// A sighting goes with the pose nearest to it in time, the first of equals, as long as
/// that is within the tolerance, and with none where no pose is.
pub proof fn law_nearest_pose_is_within_tolerance(
    distances: Seq<u64>,
    tolerance: u64,
    at: Option<usize>,
    i: int,
)
    requires
        is_nearest(distances, tolerance, at),
        0 <= i < distances.len(),
    ensures
        distances[i] <= tolerance ==> at is Some,
        at matches Some(k) ==> {
            &&& k < distances.len()
            &&& distances[k as int] <= tolerance
            &&& distances[k as int] <= distances[i]
            &&& distances[k as int] == distances[i] ==> k <= i
        },
{
}

/// Two sightings are the fewest with a distance between them.
pub proof fn law_two_sightings_make_a_baseline(n: nat)
    ensures
        n >= MIN_SIGHTINGS <==> n * (n - 1) > 0,
{
    if n >= 2 {
        assert(n * (n - 1) > 0) by (nonlinear_arith)
            requires
                n >= 2,
        ;
    } else if n == 1 {
        assert(n * (n - 1) == 0) by (nonlinear_arith)
            requires
                n == 1,
        ;
    }
}

/// What the ruler answers.
pub open spec fn ruling<E>(from_size: Option<E>, from_track: Option<E>, is_precise: bool) -> Option<
    E,
> {
    match (is_precise, from_size) {
        (false, _) => None,
        (true, Some(e)) => Some(e),
        (true, None) => from_track,
    }
}

/// A measured size goes before the trajectory, whatever that says; the trajectory answers
/// where no size was measured; and nothing is answered that is not precise.
pub proof fn law_measured_size_goes_first<E>(size: E, track: E, other: Option<E>)
    ensures
        ruling(Some(size), other, true) == Some(size),
        ruling(None, Some(track), true) == Some(track),
        ruling::<E>(None, None, true) is None,
        ruling(Some(size), other, false) is None,
        ruling(None, other, false) is None,
{
}

} // verus!
