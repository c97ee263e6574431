//! Two-view bootstrap: the choices that turn fitted models into a first map.
//!
//! Models are fitted and points triangulated outside. `M` is the type of a
//! model; scores and angles are given as sort keys.

use vstd::prelude::*;
use crate::order::{is_stable_order, is_upper_median, stable_order, SortKey};
use crate::track::motion_ba::{count_flags, count_set};

verus! {

/// Which model won the ratio test.
#[derive(Debug, Clone, Copy, PartialEq, Eq, Structural)]
pub enum InitModel {
    /// Planar scene: the homography branch.
    Homography,
    /// General scene: the essential branch.
    Essential,
}

/// Fewest correspondences a bootstrap can be tried on.
pub const MIN_MATCHES: usize = 8;

/// Rounds of refitting a model on its consensus set.
pub const LOCAL_OPTIMIZATION_ROUNDS: usize = 8;

/// Whether there are correspondences enough to try.
pub fn enough_matches(matches: usize, min_inliers: usize) -> (enough: bool)
    ensures
        enough == (matches >= MIN_MATCHES && matches >= min_inliers),
        enough == can_be_tried(matches, min_inliers),
{
    matches >= MIN_MATCHES && matches >= min_inliers
}

/// The model to go on with, or `None` when neither will do.
///
/// `homography` and `essential` are the inlier counts of the fits that
/// succeeded; `scored` says whether the two scores sum to more than nothing, and
/// `ratio_is_high` whether the homography's share of the sum is above the
/// configured ratio. The share alone decides: a losing model is no substitute
/// for a winner that did not fit.
pub fn choose_model(
    homography: Option<usize>,
    essential: Option<usize>,
    scored: bool,
    ratio_is_high: bool,
    min_inliers: usize,
) -> (model: Option<InitModel>)
    ensures
        model == (if !scored {
            None
        } else if ratio_is_high {
            if homography matches Some(n) && n >= min_inliers {
                Some(InitModel::Homography)
            } else {
                None
            }
        } else {
            if essential matches Some(n) && n >= min_inliers {
                Some(InitModel::Essential)
            } else {
                None
            }
        }),
        model == chosen_model(homography, essential, scored, ratio_is_high, min_inliers),
{
    if !scored {
        return None;
    }
    if ratio_is_high {
        match homography {
            Some(n) if n >= min_inliers => Some(InitModel::Homography),
            _ => None,
        }
    } else {
        match essential {
            Some(n) if n >= min_inliers => Some(InitModel::Essential),
            _ => None,
        }
    }
}

/// A robustly fitted two-view model.
#[derive(Debug)]
pub struct ModelFit<M> {
    /// The model.
    pub model: M,
    /// Which correspondences agree with it.
    pub inliers: Vec<bool>,
    /// Its score.
    pub score: u64,
    /// How many agree.
    pub inlier_count: usize,
}

impl<M> ModelFit<M> {
    /// The count is that of the flags.
    pub open spec fn wf(self) -> bool {
        self.inlier_count == count_set(self.inliers@, self.inliers@.len())
    }

    /// A model with the correspondences that agree with it counted.
    pub fn new(model: M, inliers: Vec<bool>, score: u64) -> (fit: ModelFit<M>)
        ensures
            fit.wf(),
            fit.model == model,
            fit.inliers == inliers,
            fit.score == score,
    {
        let inlier_count: usize = count_flags(&inliers);
        ModelFit { model, inliers, score, inlier_count }
    }
}

/// The search for a model: samples drawn, samples needed, the best fit.
#[derive(Debug)]
pub struct ModelSearch<M> {
    drawn: usize,
    needed: usize,
    cap: usize,
    best: Option<ModelFit<M>>,
}

/// The state of a model search.
pub struct SearchState<M> {
    pub drawn: nat,
    pub needed: nat,
    pub cap: nat,
    pub best: Option<ModelFit<M>>,
}

impl<M> View for ModelSearch<M> {
    type V = SearchState<M>;

    closed spec fn view(&self) -> SearchState<M> {
        SearchState {
            drawn: self.drawn as nat,
            needed: self.needed as nat,
            cap: self.cap as nat,
            best: self.best,
        }
    }
}

impl<M> SearchState<M> {
    /// The search never asks for more samples than the cap, and what it keeps is
    /// counted.
    pub open spec fn wf(self) -> bool {
        &&& self.drawn <= self.cap
        &&& self.needed <= self.cap
        &&& self.best matches Some(fit) ==> fit.wf()
    }

    /// Whether another sample is to be drawn.
    pub open spec fn wants_sample(self) -> bool {
        self.drawn < self.needed
    }

    /// Whether a score is better than the best.
    pub open spec fn improves(self, score: u64) -> bool {
        match self.best {
            None => true,
            Some(fit) => score > fit.score,
        }
    }
}

impl<M> ModelSearch<M> {
    /// A search of at most `iterations` samples.
    pub fn start(iterations: usize) -> (search: ModelSearch<M>)
        ensures
            search@.wf(),
            search@.drawn == 0,
            search@.cap == iterations,
            search@.needed == iterations,
            search@.best is None,
    {
        ModelSearch { drawn: 0, needed: iterations, cap: iterations, best: None }
    }

    /// Whether another sample is to be drawn.
    pub fn wants_sample(&self) -> (more: bool)
        ensures
            more == self@.wants_sample(),
    {
        self.drawn < self.needed
    }

    /// Take note of the model a sample gave. It is kept only when its score is
    /// strictly better.
    pub fn consider(&mut self, fit: ModelFit<M>)
        requires
            old(self)@.wf(),
            fit.wf(),
        ensures
            final(self)@.wf(),
            final(self)@ == (SearchState {
                best: if old(self)@.improves(fit.score) {
                    Some(fit)
                } else {
                    old(self)@.best
                },
                ..old(self)@
            }),
            final(self)@ == with_fit(old(self)@, fit),
    {
        let improves: bool = match &self.best {
            None => true,
            Some(b) => fit.score > b.score,
        };
        if improves {
            self.best = Some(fit);
        }
    }

    /// Take note that a sample has been dealt with, whether or not it gave a
    /// model; `estimate` is how many samples the best fit calls for.
    pub fn sample_done(&mut self, estimate: usize)
        requires
            old(self)@.wf(),
            old(self)@.wants_sample(),
        ensures
            final(self)@.wf(),
            final(self)@ == (SearchState {
                drawn: old(self)@.drawn + 1,
                needed: if old(self)@.best is None {
                    old(self)@.needed
                } else if estimate <= old(self)@.cap {
                    estimate as nat
                } else {
                    old(self)@.cap
                },
                ..old(self)@
            }),
            final(self)@ == with_sample(old(self)@, estimate as nat),
    {
        self.drawn = self.drawn + 1;
        if self.best.is_some() {
            self.needed = if estimate <= self.cap {
                estimate
            } else {
                self.cap
            };
        }
    }

    /// How many agree with the best fit.
    pub fn best_count(&self) -> (n: Option<usize>)
        ensures
            n == (match self@.best {
                None => None,
                Some(fit) => Some(fit.inlier_count),
            }),
    {
        match &self.best {
            None => None,
            Some(fit) => Some(fit.inlier_count),
        }
    }

    /// What the search found.
    pub fn finish(self) -> (best: Option<ModelFit<M>>)
        requires
            self@.wf(),
        ensures
            best == self@.best,
            best matches Some(fit) ==> fit.wf(),
    {
        self.best
    }
}

/// Whether a fit is refitted once more: rounds are left, and the consensus set is
/// larger than a minimal sample.
pub fn wants_polish<M>(fit: &ModelFit<M>, sample_size: usize, rounds_done: usize) -> (more: bool)
    ensures
        more == (rounds_done < LOCAL_OPTIMIZATION_ROUNDS && fit.inlier_count > sample_size),
        more == is_worth_refitting(*fit, sample_size, rounds_done),
{
    rounds_done < LOCAL_OPTIMIZATION_ROUNDS && fit.inlier_count > sample_size
}

/// The fit after a round of refitting, and whether the round helped. A refitted
/// model is adopted only when its score is strictly better.
pub fn polished<M>(fit: ModelFit<M>, refitted: Option<ModelFit<M>>) -> (after: (ModelFit<M>, bool))
    requires
        fit.wf(),
        refitted matches Some(r) ==> r.wf(),
    ensures
        after.0.wf(),
        after.1 == (refitted matches Some(r) && r.score > fit.score),
        after.0 == (if after.1 {
            refitted->0
        } else {
            fit
        }),
        after.0.score >= fit.score,
        after == refitted_to(fit, refitted),
{
    match refitted {
        Some(r) => {
            if r.score > fit.score {
                (r, true)
            } else {
                (fit, false)
            }
        },
        None => (fit, false),
    }
}

// ---------------------------------------------------------------------------
// Telling the decompositions apart
// ---------------------------------------------------------------------------

/// How many of the first `n` keys reach `floor`.
pub open spec fn count_reaching(keys: Seq<u64>, floor: u64, n: nat) -> nat
    decreases n,
{
    if n == 0 {
        0
    } else {
        count_reaching(keys, floor, (n - 1) as nat) + if keys[n - 1] >= floor {
            1nat
        } else {
            0nat
        }
    }
}

/// How many keys reach `floor`.
pub fn count_at_least(keys: &Vec<u64>, floor: u64) -> (n: usize)
    ensures
        n == count_reaching(keys@, floor, keys@.len()),
        n <= keys@.len(),
{
    let mut n: usize = 0;
    let mut i: usize = 0;
    while i < keys.len()
        invariant
            i <= keys@.len(),
            n <= i,
            n == count_reaching(keys@, floor, i as nat),
        decreases keys@.len() - i,
    {
        if keys[i] >= floor {
            n = n + 1;
        }
        i = i + 1;
    }
    n
}

/// How many points a decomposition puts in front of both cameras, and at how many
/// of those the parallax reaches the floor.
#[derive(Debug, Clone, Copy, PartialEq, Eq, Structural)]
pub struct Evidence {
    pub cheiral: usize,
    pub strict: usize,
}

/// What a decomposition has to show for itself, given the parallax at each of its
/// points.
pub open spec fn evidence_of(parallax: Seq<u64>, floor: u64) -> Evidence {
    Evidence {
        cheiral: parallax.len() as usize,
        strict: count_reaching(parallax, floor, parallax.len()) as usize,
    }
}

/// What a decomposition has to show for itself.
pub fn evidence(parallax: &Vec<u64>, floor: u64) -> (e: Evidence)
    ensures
        e == evidence_of(parallax@, floor),
        e.cheiral == parallax@.len(),
        e.strict == count_reaching(parallax@, floor, parallax@.len()),
{
    Evidence { cheiral: parallax.len(), strict: count_at_least(parallax, floor) }
}

/// Cheirality first; the parallax count only separates equals.
pub open spec fn stronger(a: Evidence, b: Evidence) -> bool {
    a.cheiral > b.cheiral || (a.cheiral == b.cheiral && a.strict > b.strict)
}

/// `at` is the strongest decomposition, the first of equals.
pub open spec fn is_leader(all: Seq<Evidence>, at: int) -> bool {
    &&& 0 <= at < all.len()
    &&& forall|i: int|
        0 <= i < all.len() ==> !stronger(#[trigger] all[i], all[at]) && (i < at ==> stronger(
            all[at],
            all[i],
        ))
}

/// The strongest decomposition, the first of equals.
pub fn leader(all: &Vec<Evidence>) -> (at: Option<usize>)
    ensures
        match at {
            None => all@.len() == 0,
            Some(k) => is_leader(all@, k as int),
        },
{
    if all.len() == 0 {
        return None;
    }
    let mut best: usize = 0;
    let mut i: usize = 1;
    while i < all.len()
        invariant
            0 < i <= all@.len(),
            best < i,
            forall|k: int|
                0 <= k < i ==> !stronger(#[trigger] all@[k], all@[best as int]) && (k < best
                    ==> stronger(all@[best as int], all@[k])),
        decreases all@.len() - i,
    {
        if all[i].cheiral > all[best].cheiral || (all[i].cheiral == all[best].cheiral
            && all[i].strict > all[best].strict) {
            best = i;
        }
        i = i + 1;
    }
    Some(best)
}

/// What the leader is measured against, as whole numbers: a count beats a bar
/// when it is greater, and misses the floor when it is less.
#[derive(Debug, Clone, Copy)]
pub struct Bars {
    /// The share of the leader's cheiral count that a rival may reach.
    pub rival_cheiral: i64,
    /// The share of the leader's strict count that a rival may reach.
    pub rival_strict: i64,
    /// The cheiral count the leader must reach.
    pub leader_cheiral: i64,
}

/// Another decomposition is as good as the leader: both its counts beat the bars.
pub open spec fn has_rival(all: Seq<Evidence>, at: int, bars: Bars) -> bool {
    exists|i: int|
        0 <= i < all.len() && i != at && (#[trigger] all[i]).cheiral > bars.rival_cheiral
            && all[i].strict > bars.rival_strict
}

/// Whether a count beats a bar.
fn beats(count: usize, bar: i64) -> (b: bool)
    ensures
        b == (count > bar),
{
    count as i128 > bar as i128
}

/// Whether another decomposition is as good as the leader.
pub fn is_ambiguous(all: &Vec<Evidence>, at: usize, bars: Bars) -> (ambiguous: bool)
    ensures
        ambiguous == has_rival(all@, at as int, bars),
{
    let mut i: usize = 0;
    while i < all.len()
        invariant
            i <= all@.len(),
            forall|k: int|
                0 <= k < i ==> !(k != at && (#[trigger] all@[k]).cheiral > bars.rival_cheiral
                    && all@[k].strict > bars.rival_strict),
        decreases all@.len() - i,
    {
        if i != at && beats(all[i].cheiral, bars.rival_cheiral) && beats(
            all[i].strict,
            bars.rival_strict,
        ) {
            assert(all@[i as int].cheiral > bars.rival_cheiral);
            return true;
        }
        i = i + 1;
    }
    false
}

/// The keys of a list of plain angles.
pub open spec fn angle_keys(parallax: Seq<u64>) -> Seq<SortKey> {
    Seq::new(parallax.len(), |i: int| SortKey { major: parallax[i], minor: 0, last: 0 })
}

/// The indices that reach the floor, among the first `n` of an order.
pub open spec fn reaching(order: Seq<usize>, parallax: Seq<u64>, floor: u64, n: nat) -> Seq<usize>
    decreases n,
{
    if n == 0 {
        seq![]
    } else if parallax[order[n - 1] as int] >= floor {
        reaching(order, parallax, floor, (n - 1) as nat).push(order[n - 1])
    } else {
        reaching(order, parallax, floor, (n - 1) as nat)
    }
}

/// The map a decomposition gives: its points in order of parallax, without those
/// below the floor, and the median parallax over all of them.
#[derive(Debug)]
pub struct Reconstruction {
    /// Indices into the decomposition's points.
    pub landmarks: Vec<usize>,
    /// Median parallax of the view pair.
    pub median: u64,
}

/// The points of a decomposition in order of parallax.
pub fn by_parallax(parallax: &Vec<u64>) -> (order: Vec<usize>)
    ensures
        is_stable_order(angle_keys(parallax@), order@),
{
    let mut keys: Vec<SortKey> = Vec::new();
    let mut i: usize = 0;
    while i < parallax.len()
        invariant
            i <= parallax@.len(),
            keys@.len() == i,
            forall|k: int|
                0 <= k < i ==> #[trigger] keys@[k] == (SortKey {
                    major: parallax@[k],
                    minor: 0,
                    last: 0,
                }),
        decreases parallax@.len() - i,
    {
        keys.push(SortKey { major: parallax[i], minor: 0, last: 0 });
        i = i + 1;
    }
    assert(keys@ =~= angle_keys(parallax@));
    stable_order(&keys)
}

/// What a pair of views gives: the first map, or nothing.
///
/// The gates in order: there is a decomposition; no other is as good as the
/// leader; the leader explains enough of the model's inliers, and something at
/// all; the median parallax over everything it explains reaches the floor; and
/// enough of its points reach it.
pub open spec fn reconstructs(
    all: Seq<Evidence>,
    at: int,
    bars: Bars,
    parallax: Seq<u64>,
    order: Seq<usize>,
    floor: u64,
    min_triangulated: nat,
) -> bool {
    &&& !has_rival(all, at, bars)
    &&& all[at].cheiral >= bars.leader_cheiral
    &&& parallax.len() > 0
    &&& parallax[order[parallax.len() as int / 2] as int] >= floor
    &&& reaching(order, parallax, floor, parallax.len()).len() >= min_triangulated
}

/// Turn the leading decomposition into a map, if it holds up.
///
/// `parallax` holds the angle at each of its points. The median is taken over all
/// of them, before those below the floor are dropped: what is left after
/// dropping them could not have a low median.
pub fn reconstruct(
    all: &Vec<Evidence>,
    at: usize,
    bars: Bars,
    parallax: &Vec<u64>,
    floor: u64,
    min_triangulated: usize,
) -> (map: Option<Reconstruction>)
    requires
        at < all@.len(),
        all@[at as int].cheiral == parallax@.len(),
    ensures
        exists|order: Seq<usize>|
            #![trigger is_stable_order(angle_keys(parallax@), order)]
            is_stable_order(angle_keys(parallax@), order) && match map {
                None => !reconstructs(
                    all@,
                    at as int,
                    bars,
                    parallax@,
                    order,
                    floor,
                    min_triangulated as nat,
                ),
                Some(m) => {
                    &&& reconstructs(
                        all@,
                        at as int,
                        bars,
                        parallax@,
                        order,
                        floor,
                        min_triangulated as nat,
                    )
                    &&& m.landmarks@ == reaching(order, parallax@, floor, parallax@.len())
                    &&& m.median == parallax@[order[parallax@.len() as int / 2] as int]
                },
            },
        map matches Some(m) ==> is_upper_median(parallax@, m.median),
{
    let order: Vec<usize> = by_parallax(parallax);
    if is_ambiguous(all, at, bars) {
        return None;
    }
    if (all[at].cheiral as i128) < bars.leader_cheiral as i128 {
        return None;
    }
    if parallax.len() == 0 {
        return None;
    }
    let median: u64 = parallax[order[parallax.len() / 2]];
    if median < floor {
        return None;
    }
    let mut landmarks: Vec<usize> = Vec::new();
    let mut i: usize = 0;
    while i < order.len()
        invariant
            i <= order@.len(),
            order@.len() == parallax@.len(),
            is_stable_order(angle_keys(parallax@), order@),
            landmarks@ == reaching(order@, parallax@, floor, i as nat),
        decreases order@.len() - i,
    {
        if parallax[order[i]] >= floor {
            landmarks.push(order[i]);
        }
        i = i + 1;
    }
    if landmarks.len() < min_triangulated {
        return None;
    }
    proof {
        crate::order::lemma_middle_is_median(
            parallax@,
            angle_keys(parallax@),
            order@,
            parallax@.len() as int / 2,
        );
    }
    Some(Reconstruction { landmarks, median })
}

/// The points at which the parallax is below the floor.
pub open spec fn below(parallax: Seq<u64>, floor: u64) -> Set<int> {
    vstd::set_lib::set_int_range(0, parallax.len() as int).filter(|i: int| parallax[i] < floor)
}

/// A pair of views in which most of the parallax is below the floor gives no
/// map, however many points are above it: a camera that only turned is refused.
pub proof fn law_low_parallax_gives_no_map(
    all: Seq<Evidence>,
    at: int,
    bars: Bars,
    parallax: Seq<u64>,
    order: Seq<usize>,
    floor: u64,
    min_triangulated: nat,
)
    requires
        is_stable_order(angle_keys(parallax), order),
        below(parallax, floor).len() > parallax.len() / 2,
    ensures
        !reconstructs(all, at, bars, parallax, order, floor, min_triangulated),
{
    if reconstructs(all, at, bars, parallax, order, floor, min_triangulated) {
        let keys = angle_keys(parallax);
        let m = parallax.len() as int / 2;
        let front = vstd::set_lib::set_int_range(0, m);
        let f = |a: int| order[a] as int;
        let image = front.map(f);
        vstd::set_lib::lemma_int_range(0, m);
        vstd::set_lib::lemma_map_size_bound(front, image, f);
        assert forall|i: int| below(parallax, floor).contains(i) implies image.contains(i) by {
            assert(crate::order::lists(order, i));
            let a = choose|a: int| 0 <= a < order.len() && #[trigger] order[a] == i;
            if a >= m {
                if a > m {
                    assert(order[m] < keys.len() && order[a] < keys.len());
                    assert(crate::order::comes_before(keys, order[m] as int, order[a] as int));
                }
                assert(parallax[i] >= floor);
            }
            assert(front.contains(a) && f(a) == i);
        }
        vstd::set_lib::lemma_len_subset(below(parallax, floor), image);
    }
}

proof fn lemma_reaching(order: Seq<usize>, parallax: Seq<u64>, floor: u64, n: nat, k: int)
    requires
        n <= order.len(),
        0 <= k < reaching(order, parallax, floor, n).len(),
    ensures
        exists|a: int| 0 <= a < n && #[trigger] order[a] == reaching(order, parallax, floor, n)[k],
        parallax[reaching(order, parallax, floor, n)[k] as int] >= floor,
    decreases n,
{
    let before = reaching(order, parallax, floor, (n - 1) as nat);
    if k < before.len() {
        lemma_reaching(order, parallax, floor, (n - 1) as nat, k);
        let a = choose|a: int| 0 <= a < n - 1 && #[trigger] order[a] == before[k];
        assert(order[a] == reaching(order, parallax, floor, n)[k]);
    } else {
        assert(order[n - 1] == reaching(order, parallax, floor, n)[k]);
    }
}

proof fn lemma_reaching_complete(
    order: Seq<usize>,
    parallax: Seq<u64>,
    floor: u64,
    n: nat,
    a: int,
)
    requires
        n <= order.len(),
        0 <= a < n,
        parallax[order[a] as int] >= floor,
    ensures
        reaching(order, parallax, floor, n).contains(order[a]),
    decreases n,
{
    let now = reaching(order, parallax, floor, n);
    let before = reaching(order, parallax, floor, (n - 1) as nat);
    if a == n - 1 {
        assert(now[before.len() as int] == order[a]);
    } else {
        lemma_reaching_complete(order, parallax, floor, (n - 1) as nat, a);
        let k = choose|k: int| 0 <= k < before.len() && before[k] == order[a];
        assert(now[k] == order[a]);
    }
}

/// The landmarks of a map are exactly the points whose parallax reaches the
/// floor.
pub proof fn law_landmarks_are_the_observable_points(
    parallax: Seq<u64>,
    order: Seq<usize>,
    floor: u64,
    i: usize,
)
    requires
        is_stable_order(angle_keys(parallax), order),
    ensures
        reaching(order, parallax, floor, parallax.len()).contains(i) <==> (i < parallax.len()
            && parallax[i as int] >= floor),
{
    let landmarks = reaching(order, parallax, floor, parallax.len());
    if landmarks.contains(i) {
        let k = choose|k: int| 0 <= k < landmarks.len() && landmarks[k] == i;
        lemma_reaching(order, parallax, floor, parallax.len(), k);
        let a = choose|a: int|
            0 <= a < parallax.len() && #[trigger] order[a] == landmarks[k];
        assert(order[a] < angle_keys(parallax).len());
    }
    if i < parallax.len() && parallax[i as int] >= floor {
        assert(crate::order::lists(order, i as int));
        let a = choose|a: int| 0 <= a < order.len() && #[trigger] order[a] == i as int;
        lemma_reaching_complete(order, parallax, floor, parallax.len(), a);
    }
}

/// Two decompositions that explain the same points equally well give no map:
/// committing to either would be a coin flip.
pub proof fn law_equal_decompositions_are_refused(
    all: Seq<Evidence>,
    at: int,
    other: int,
    bars: Bars,
    parallax: Seq<u64>,
    order: Seq<usize>,
    floor: u64,
    min_triangulated: nat,
)
    requires
        0 <= at < all.len(),
        0 <= other < all.len(),
        other != at,
        all[other] == all[at],
        bars.rival_cheiral < all[at].cheiral,
        bars.rival_strict < all[at].strict,
    ensures
        !reconstructs(all, at, bars, parallax, order, floor, min_triangulated),
{
    assert(all[other].cheiral > bars.rival_cheiral);
}

proof fn lemma_count_reaching(keys: Seq<u64>, floor: u64, n: nat)
    requires
        n <= keys.len(),
    ensures
        count_reaching(keys, floor, n) == vstd::set_lib::set_int_range(0, n as int).filter(
            |i: int| keys[i] >= floor,
        ).len(),
        count_reaching(keys, floor, n) <= n,
    decreases n,
{
    let p = |i: int| keys[i] >= floor;
    let now = vstd::set_lib::set_int_range(0, n as int);
    vstd::set_lib::lemma_int_range(0, n as int);
    if n == 0 {
        assert(now.filter(p) =~= Set::<int>::empty());
    } else {
        lemma_count_reaching(keys, floor, (n - 1) as nat);
        let before = vstd::set_lib::set_int_range(0, n - 1);
        vstd::set_lib::lemma_int_range(0, n - 1);
        if keys[n - 1] >= floor {
            assert(now.filter(p) =~= before.filter(p).insert(n - 1));
        } else {
            assert(now.filter(p) =~= before.filter(p));
        }
        vstd::set_lib::lemma_len_subset(before.filter(p), before);
    }
}

/// What a decomposition shows for itself is how many points it has, and at how many
/// of them the parallax is at least the floor.
pub proof fn law_evidence_counts_the_points(parallax: Seq<u64>, floor: u64)
    requires
        parallax.len() <= usize::MAX,
    ensures
        evidence_of(parallax, floor).cheiral == parallax.len(),
        evidence_of(parallax, floor).strict == vstd::set_lib::set_int_range(
            0,
            parallax.len() as int,
        ).filter(|i: int| parallax[i] >= floor).len(),
{
    lemma_count_reaching(parallax, floor, parallax.len());
}

/// The leader puts at least as many points in front of both cameras as any other
/// decomposition. Among those that put as many it has the most parallax, and among
/// those that have as much of that too it comes first.
pub proof fn law_leader_puts_most_in_front(all: Seq<Evidence>, at: int, i: int)
    requires
        is_leader(all, at),
        0 <= i < all.len(),
    ensures
        0 <= at < all.len(),
        all[at].cheiral >= all[i].cheiral,
        all[at].cheiral == all[i].cheiral ==> all[at].strict >= all[i].strict,
        all[at].cheiral == all[i].cheiral && all[at].strict == all[i].strict ==> at <= i,
{
    assert(!stronger(all[i], all[at]));
}

proof fn lemma_reaching_is_distinct(order: Seq<usize>, parallax: Seq<u64>, floor: u64, n: nat)
    requires
        n <= order.len(),
        order.no_duplicates(),
    ensures
        reaching(order, parallax, floor, n).no_duplicates(),
    decreases n,
{
    if n > 0 {
        lemma_reaching_is_distinct(order, parallax, floor, (n - 1) as nat);
        let before = reaching(order, parallax, floor, (n - 1) as nat);
        let now = reaching(order, parallax, floor, n);
        if parallax[order[n - 1] as int] >= floor {
            assert forall|k: int| 0 <= k < before.len() implies before[k] != order[n - 1] by {
                lemma_reaching(order, parallax, floor, (n - 1) as nat, k);
                let a = choose|a: int| 0 <= a < n - 1 && #[trigger] order[a] == before[k];
                assert(order[a] != order[n - 1]);
            }
        }
    }
}

proof fn lemma_reaching_counts(parallax: Seq<u64>, order: Seq<usize>, floor: u64)
    requires
        is_stable_order(angle_keys(parallax), order),
    ensures
        reaching(order, parallax, floor, parallax.len()).len() == vstd::set_lib::set_int_range(
            0,
            parallax.len() as int,
        ).filter(|i: int| parallax[i] >= floor).len(),
{
    let landmarks = reaching(order, parallax, floor, parallax.len());
    let all = vstd::set_lib::set_int_range(0, parallax.len() as int);
    let p = |i: int| parallax[i] >= floor;
    let f = |k: usize| k as int;
    crate::order::law_order_is_ascending(angle_keys(parallax), order);
    lemma_reaching_is_distinct(order, parallax, floor, parallax.len());
    landmarks.unique_seq_to_set();
    vstd::set_lib::lemma_int_range(0, parallax.len() as int);
    let s = landmarks.to_set();
    assert(s.map(f) =~= all.filter(p)) by {
        assert forall|i: int| s.map(f).contains(i) implies all.filter(p).contains(i) by {
            let k = choose|k: usize| s.contains(k) && f(k) == i;
            law_landmarks_are_the_observable_points(parallax, order, floor, k);
        }
        assert forall|i: int| all.filter(p).contains(i) implies s.map(f).contains(i) by {
            assert(crate::order::lists(order, i));
            let a = choose|a: int| 0 <= a < order.len() && #[trigger] order[a] == i;
            law_landmarks_are_the_observable_points(parallax, order, floor, order[a]);
            assert(s.contains(order[a]) && f(order[a]) == i);
        }
    }
    assert(vstd::relations::injective_on(f, s));
    vstd::set_lib::lemma_map_size(s, s.map(f), f);
}

proof fn lemma_median_reaches(parallax: Seq<u64>, order: Seq<usize>, floor: u64)
    requires
        is_stable_order(angle_keys(parallax), order),
        parallax.len() > 0,
    ensures
        parallax[order[parallax.len() as int / 2] as int] >= floor
            <==> vstd::set_lib::set_int_range(0, parallax.len() as int).filter(
            |i: int| parallax[i] < floor,
        ).len() <= parallax.len() / 2,
{
    let m = parallax.len() as int / 2;
    crate::order::lemma_middle_is_median(parallax, angle_keys(parallax), order, m);
    let v = parallax[order[m] as int];
    let all = vstd::set_lib::set_int_range(0, parallax.len() as int);
    let low = all.filter(|i: int| parallax[i] < floor);
    vstd::set_lib::lemma_int_range(0, parallax.len() as int);
    vstd::set_lib::lemma_len_subset(low, all);
    vstd::set_lib::lemma_len_subset(crate::order::keys_below(parallax, v), all);
    if v >= floor {
        vstd::set_lib::lemma_len_subset(low, crate::order::keys_below(parallax, v));
    } else {
        vstd::set_lib::lemma_len_subset(crate::order::keys_up_to(parallax, v), low);
    }
}

/// A pair of views gives a map exactly when every other decomposition falls short of
/// one of the bars, the leader's points reach their bar, there is a point, at most
/// half of the points have their parallax below the floor, and as many as are asked
/// for have it at the floor or above.
pub proof fn law_good_pair_gives_a_map(
    all: Seq<Evidence>,
    at: int,
    bars: Bars,
    parallax: Seq<u64>,
    order: Seq<usize>,
    floor: u64,
    min_triangulated: nat,
)
    requires
        is_stable_order(angle_keys(parallax), order),
        0 <= at < all.len(),
        all[at].cheiral == parallax.len(),
    ensures
        reconstructs(all, at, bars, parallax, order, floor, min_triangulated) <==> {
            &&& forall|i: int|
                0 <= i < all.len() && i != at ==> (#[trigger] all[i]).cheiral <= bars.rival_cheiral
                    || all[i].strict <= bars.rival_strict
            &&& parallax.len() >= bars.leader_cheiral
            &&& parallax.len() > 0
            &&& vstd::set_lib::set_int_range(0, parallax.len() as int).filter(
                |i: int| parallax[i] < floor,
            ).len() <= parallax.len() / 2
            &&& vstd::set_lib::set_int_range(0, parallax.len() as int).filter(
                |i: int| parallax[i] >= floor,
            ).len() >= min_triangulated
        },
{
    lemma_reaching_counts(parallax, order, floor);
    if parallax.len() > 0 {
        lemma_median_reaches(parallax, order, floor);
    }
    if has_rival(all, at, bars) {
        let i = choose|i: int|
            0 <= i < all.len() && i != at && (#[trigger] all[i]).cheiral > bars.rival_cheiral
                && all[i].strict > bars.rival_strict;
        assert(!(all[i].cheiral <= bars.rival_cheiral || all[i].strict <= bars.rival_strict));
    }
}

/// The landmarks of a map come in order of their parallax, the least first, and each
/// point comes once.
pub proof fn law_landmarks_come_by_parallax(
    parallax: Seq<u64>,
    order: Seq<usize>,
    floor: u64,
    i: int,
    j: int,
)
    requires
        is_stable_order(angle_keys(parallax), order),
        0 <= i < j < reaching(order, parallax, floor, parallax.len()).len(),
    ensures
        ({
            let landmarks = reaching(order, parallax, floor, parallax.len());
            &&& landmarks[i] != landmarks[j]
            &&& parallax[landmarks[i] as int] <= parallax[landmarks[j] as int]
        }),
{
    crate::order::law_order_is_ascending(angle_keys(parallax), order);
    lemma_reaching_is_distinct(order, parallax, floor, parallax.len());
    lemma_reaching_ascends(order, parallax, floor, parallax.len(), i, j);
}

proof fn lemma_reaching_ascends(
    order: Seq<usize>,
    parallax: Seq<u64>,
    floor: u64,
    n: nat,
    i: int,
    j: int,
)
    requires
        order.len() == parallax.len(),
        n <= order.len(),
        is_stable_order(angle_keys(parallax), order),
        0 <= i < j < reaching(order, parallax, floor, n).len(),
    ensures
        parallax[reaching(order, parallax, floor, n)[i] as int] <= parallax[reaching(
            order,
            parallax,
            floor,
            n,
        )[j] as int],
    decreases n,
{
    let before = reaching(order, parallax, floor, (n - 1) as nat);
    if j < before.len() {
        lemma_reaching_ascends(order, parallax, floor, (n - 1) as nat, i, j);
    } else {
        lemma_reaching(order, parallax, floor, (n - 1) as nat, i);
        let a = choose|a: int| 0 <= a < n - 1 && #[trigger] order[a] == before[i];
        let keys = angle_keys(parallax);
        assert(order[a] < keys.len() && order[n - 1] < keys.len());
        assert(crate::order::comes_before(keys, order[a] as int, order[n - 1] as int));
        assert(reaching(order, parallax, floor, n)[j] == order[n - 1]);
    }
}

/// The parallax that is reported is the median over every point, those below the
/// floor counted: at most half of them have less, and more than half have no more.
pub proof fn law_reported_parallax_is_the_median(
    parallax: Seq<u64>,
    order: Seq<usize>,
    median: u64,
)
    requires
        is_stable_order(angle_keys(parallax), order),
        parallax.len() > 0,
        median == parallax[order[parallax.len() as int / 2] as int],
    ensures
        parallax.contains(median),
        vstd::set_lib::set_int_range(0, parallax.len() as int).filter(
            |i: int| parallax[i] < median,
        ).len() <= parallax.len() / 2,
        vstd::set_lib::set_int_range(0, parallax.len() as int).filter(
            |i: int| parallax[i] <= median,
        ).len() > parallax.len() / 2,
{
    let m = parallax.len() as int / 2;
    crate::order::lemma_middle_is_median(parallax, angle_keys(parallax), order, m);
    let all = vstd::set_lib::set_int_range(0, parallax.len() as int);
    assert(crate::order::keys_below(parallax, median) =~= all.filter(
        |i: int| parallax[i] < median,
    ));
    assert(crate::order::keys_up_to(parallax, median) =~= all.filter(
        |i: int| parallax[i] <= median,
    ));
}

// ---------------------------------------------------------------------------
// Choosing and searching
// ---------------------------------------------------------------------------

/// Whether a bootstrap can be tried.
pub open spec fn can_be_tried(matches: usize, min_inliers: usize) -> bool {
    matches >= MIN_MATCHES && matches >= min_inliers
}

/// The model to go on with.
pub open spec fn chosen_model(
    homography: Option<usize>,
    essential: Option<usize>,
    scored: bool,
    ratio_is_high: bool,
    min_inliers: usize,
) -> Option<InitModel> {
    let inliers = if ratio_is_high {
        homography
    } else {
        essential
    };
    if !scored || inliers is None || inliers->0 < min_inliers {
        None
    } else if ratio_is_high {
        Some(InitModel::Homography)
    } else {
        Some(InitModel::Essential)
    }
}

/// Eight correspondences fix a matrix of nine numbers up to its scale.
pub proof fn law_eight_matches_fix_a_model(matches: usize, min_inliers: usize)
    ensures
        can_be_tried(matches, min_inliers) <==> matches + 1 >= 9 && matches >= min_inliers,
{
}

/// The homography is chosen exactly when its share of the score is high, the essential
/// matrix exactly when it is not; either has to be fitted and supported, and one that
/// is not is never replaced by the other.
pub proof fn law_share_of_the_score_chooses(
    homography: Option<usize>,
    essential: Option<usize>,
    ratio_is_high: bool,
    min_inliers: usize,
)
    ensures
        chosen_model(homography, essential, false, ratio_is_high, min_inliers) is None,
        chosen_model(homography, essential, true, ratio_is_high, min_inliers) == Some(
            InitModel::Homography,
        ) <==> ratio_is_high && homography is Some && homography->0 >= min_inliers,
        chosen_model(homography, essential, true, ratio_is_high, min_inliers) == Some(
            InitModel::Essential,
        ) <==> !ratio_is_high && essential is Some && essential->0 >= min_inliers,
{
}

/// A search with one more fit.
pub open spec fn with_fit<M>(s: SearchState<M>, fit: ModelFit<M>) -> SearchState<M> {
    if s.best is None || fit.score > s.best->0.score {
        SearchState { best: Some(fit), ..s }
    } else {
        s
    }
}

/// A search with one more sample dealt with.
pub open spec fn with_sample<M>(s: SearchState<M>, estimate: nat) -> SearchState<M> {
    SearchState {
        drawn: s.drawn + 1,
        needed: if s.best is None {
            s.needed
        } else if estimate < s.cap {
            estimate
        } else {
            s.cap
        },
        ..s
    }
}

/// A search with a run of fits.
pub open spec fn with_fits<M>(s: SearchState<M>, fits: Seq<ModelFit<M>>) -> SearchState<M>
    decreases fits.len(),
{
    if fits.len() == 0 {
        s
    } else {
        with_fit(with_fits(s, fits.drop_last()), fits.last())
    }
}

/// A search keeps the fit with the highest score, the first of equals: no fit scores
/// more, and none before it as much.
pub proof fn law_search_keeps_the_highest_score<M>(
    s: SearchState<M>,
    fits: Seq<ModelFit<M>>,
) -> (at: int)
    requires
        s.best is None,
        fits.len() > 0,
    ensures
        0 <= at < fits.len(),
        with_fits(s, fits).best == Some(fits[at]),
        forall|k: int| 0 <= k < fits.len() ==> (#[trigger] fits[k]).score <= fits[at].score,
        forall|k: int| 0 <= k < at ==> (#[trigger] fits[k]).score < fits[at].score,
    decreases fits.len(),
{
    let before = fits.drop_last();
    let n = fits.len() - 1;
    if before.len() == 0 {
        assert(with_fits(s, before) == s);
        0
    } else {
        let at = law_search_keeps_the_highest_score(s, before);
        assert forall|k: int| 0 <= k < n implies (#[trigger] fits[k]).score <= fits[at].score by {
            assert(before[k] == fits[k]);
        }
        assert forall|k: int| 0 <= k < at implies (#[trigger] fits[k]).score < fits[at].score by {
            assert(before[k] == fits[k]);
        }
        if fits.last().score > before[at].score {
            n
        } else {
            at
        }
    }
}

/// Every sample counts, whether or not it gave a model. Once there is a model as many
/// are needed as it calls for, but never more than the cap.
pub proof fn law_fit_sets_the_samples<M>(s: SearchState<M>, estimate: nat)
    ensures
        with_sample(s, estimate).drawn == s.drawn + 1,
        with_sample(s, estimate).best == s.best,
        with_sample(s, estimate).cap == s.cap,
        s.best is None ==> with_sample(s, estimate).needed == s.needed,
        s.best is Some && estimate <= s.cap ==> with_sample(s, estimate).needed == estimate,
        s.best is Some && estimate >= s.cap ==> with_sample(s, estimate).needed == s.cap,
        s.wants_sample() <==> s.drawn < s.needed,
{
}

/// Whether a fit is refitted once more.
pub open spec fn is_worth_refitting<M>(
    fit: ModelFit<M>,
    sample_size: usize,
    rounds_done: usize,
) -> bool {
    rounds_done < LOCAL_OPTIMIZATION_ROUNDS && fit.inlier_count > sample_size
}

/// The fit after a round of refitting, and whether it helped.
pub open spec fn refitted_to<M>(fit: ModelFit<M>, refitted: Option<ModelFit<M>>) -> (
    ModelFit<M>,
    bool,
) {
    match refitted {
        Some(r) => if r.score > fit.score {
            (r, true)
        } else {
            (fit, false)
        },
        None => (fit, false),
    }
}

/// Refitting never lowers the score: a refit is taken exactly when it scores strictly
/// more, and otherwise the fit stays and the refitting is over. It is tried for eight
/// rounds at most, and only on more than a minimal sample.
pub proof fn law_refitting_only_improves<M>(
    fit: ModelFit<M>,
    refit: ModelFit<M>,
    sample_size: usize,
    rounds_done: usize,
)
    ensures
        refit.score > fit.score ==> refitted_to(fit, Some(refit)) == (refit, true),
        refit.score <= fit.score ==> refitted_to(fit, Some(refit)) == (fit, false),
        refitted_to(fit, None) == (fit, false),
        is_worth_refitting(fit, sample_size, rounds_done) <==> rounds_done < 8 && sample_size
            < fit.inlier_count,
{
}

} // verus!
