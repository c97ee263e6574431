//! Robust pose from 3D-2D correspondences: the bookkeeping of the consensus
//! search.
//!
//! `P` is the type of a pose hypothesis. Hypotheses are made and measured
//! outside; an error is given as a sort key.

use vstd::prelude::*;

verus! {

/// Fewest correspondences for a consensus search: three for the minimal set and
/// one to tell its solutions apart.
pub const MIN_RANSAC_POINTS: usize = 4;

/// Fewest correspondences for the linear solve.
pub const MIN_DLT_POINTS: usize = 6;

/// Size of the minimal set.
pub const SAMPLE_SIZE: usize = 3;

/// Rounds of refitting on the consensus set.
pub const REFIT_ROUNDS: usize = 3;

/// Whether a search can be made of the input at all.
pub fn is_solvable(points_3d: usize, points_2d: usize, iterations: usize, threshold_is_positive:
    bool) -> (solvable: bool)
    ensures
        solvable == (points_3d >= MIN_RANSAC_POINTS && points_2d >= points_3d && iterations > 0
            && threshold_is_positive),
        solvable == can_be_searched(points_3d, points_2d, iterations, threshold_is_positive),
{
    points_3d >= MIN_RANSAC_POINTS && points_2d >= points_3d && iterations != 0
        && threshold_is_positive
}

/// A pose hypothesis and how well it is supported.
#[derive(Debug, Clone, Copy)]
pub struct Hypothesis<P> {
    pub pose: P,
    /// Correspondences that agree with it.
    pub count: usize,
    /// Their total error.
    pub error: u64,
}

/// Whether support `(count, error)` is better: more agree, or as many with less
/// error.
pub open spec fn better_support(count: nat, error: u64, than_count: nat, than_error: u64) -> bool {
    count > than_count || (count == than_count && error < than_error)
}

/// The consensus search: how many samples have been drawn, how many are needed,
/// and the best hypothesis.
#[derive(Debug)]
pub struct Consensus<P> {
    drawn: usize,
    needed: usize,
    cap: usize,
    worst: u64,
    best: Option<Hypothesis<P>>,
}

/// The state of a consensus search.
pub struct ConsensusState<P> {
    pub drawn: nat,
    pub needed: nat,
    pub cap: nat,
    /// The error of no hypothesis at all.
    pub worst: u64,
    pub best: Option<Hypothesis<P>>,
}

impl<P> View for Consensus<P> {
    type V = ConsensusState<P>;

    closed spec fn view(&self) -> ConsensusState<P> {
        ConsensusState {
            drawn: self.drawn as nat,
            needed: self.needed as nat,
            cap: self.cap as nat,
            worst: self.worst,
            best: self.best,
        }
    }
}

impl<P> ConsensusState<P> {
    /// The search never asks for more samples than the cap.
    pub open spec fn wf(self) -> bool {
        self.needed <= self.cap && self.drawn <= self.cap
    }

    /// How many agree with the best hypothesis.
    pub open spec fn best_count(self) -> nat {
        match self.best {
            None => 0,
            Some(h) => h.count as nat,
        }
    }

    /// The error of the best hypothesis.
    pub open spec fn best_error(self) -> u64 {
        match self.best {
            None => self.worst,
            Some(h) => h.error,
        }
    }

    /// Whether another sample is to be drawn.
    pub open spec fn wants_sample(self) -> bool {
        self.drawn < self.needed
    }
}

/// The state once a hypothesis has been measured.
pub open spec fn with_hypothesis<P>(s: ConsensusState<P>, h: Hypothesis<P>) -> ConsensusState<P> {
    if better_support(h.count as nat, h.error, s.best_count(), s.best_error()) {
        ConsensusState { best: Some(h), ..s }
    } else {
        s
    }
}

/// The state once all hypotheses of one sample have been measured; `estimate` is
/// how many samples the best support so far calls for.
pub open spec fn after_sample<P>(s: ConsensusState<P>, estimate: nat) -> ConsensusState<P> {
    ConsensusState {
        drawn: s.drawn + 1,
        needed: if s.best_count() > 0 {
            if estimate <= s.cap {
                estimate
            } else {
                s.cap
            }
        } else {
            s.needed
        },
        ..s
    }
}

impl<P: Copy> Consensus<P> {
    /// A search of at most `cap` samples; `worst` is an error that any measured
    /// one is below.
    pub fn start(cap: usize, worst: u64) -> (search: Consensus<P>)
        ensures
            search@ == (ConsensusState::<P> {
                drawn: 0,
                needed: cap as nat,
                cap: cap as nat,
                worst,
                best: None,
            }),
            search@.wf(),
    {
        Consensus { drawn: 0, needed: cap, cap, worst, best: None }
    }

    /// Whether another sample is to be drawn.
    pub fn wants_sample(&self) -> (more: bool)
        ensures
            more == self@.wants_sample(),
    {
        self.drawn < self.needed
    }

    /// Take note of a measured hypothesis.
    pub fn consider(&mut self, h: Hypothesis<P>)
        ensures
            final(self)@ == with_hypothesis(old(self)@, h),
    {
        let count: usize = match self.best {
            None => 0,
            Some(b) => b.count,
        };
        let error: u64 = match self.best {
            None => self.worst,
            Some(b) => b.error,
        };
        if h.count > count || (h.count == count && h.error < error) {
            self.best = Some(h);
        }
    }

    /// How many agree with the best hypothesis.
    pub fn best_count(&self) -> (n: usize)
        ensures
            n == self@.best_count(),
    {
        match self.best {
            None => 0,
            Some(b) => b.count,
        }
    }

    /// Take note that a sample has been dealt with.
    pub fn sample_done(&mut self, estimate: usize)
        requires
            old(self)@.wf(),
            old(self)@.wants_sample(),
        ensures
            final(self)@ == after_sample(old(self)@, estimate as nat),
            final(self)@.wf(),
    {
        let count: usize = self.best_count();
        self.drawn = self.drawn + 1;
        if count > 0 {
            self.needed = if estimate <= self.cap {
                estimate
            } else {
                self.cap
            };
        }
    }

    /// The hypothesis the search settles on: the best one, if enough agree.
    pub fn winner(&self) -> (best: Option<Hypothesis<P>>)
        ensures
            best == (match self@.best {
                Some(h) => if h.count >= MIN_RANSAC_POINTS {
                    Some(h)
                } else {
                    None
                },
                None => None,
            }),
            best == winner_of(self@),
    {
        match self.best {
            Some(h) => {
                if h.count >= MIN_RANSAC_POINTS {
                    Some(h)
                } else {
                    None
                }
            },
            None => None,
        }
    }
}

/// The state once a list of hypotheses has been measured.
pub open spec fn with_hypotheses<P>(
    s: ConsensusState<P>,
    hs: Seq<Hypothesis<P>>,
) -> ConsensusState<P>
    decreases hs.len(),
{
    if hs.len() == 0 {
        s
    } else {
        with_hypothesis(with_hypotheses(s, hs.drop_last()), hs.last())
    }
}

/// The search keeps the best: no hypothesis it was shown is better supported
/// than the one it keeps.
pub proof fn law_search_keeps_the_best<P>(
    s: ConsensusState<P>,
    hs: Seq<Hypothesis<P>>,
    k: int,
)
    requires
        0 <= k < hs.len(),
    ensures
        ({
            let t = with_hypotheses(s, hs);
            !better_support(hs[k].count as nat, hs[k].error, t.best_count(), t.best_error())
        }),
    decreases hs.len(),
{
    if k < hs.len() - 1 {
        law_search_keeps_the_best(s, hs.drop_last(), k);
    }
}

/// Equal support does not replace what is kept, so the outcome does not depend
/// on anything but the hypotheses and their order.
pub proof fn law_first_of_equals_is_kept<P>(s: ConsensusState<P>, h: Hypothesis<P>)
    requires
        s.best matches Some(b) && b.count == h.count && b.error == h.error,
    ensures
        with_hypothesis(s, h) == s,
{
}

/// The search ends: every sample brings it nearer to its cap.
pub proof fn law_search_is_capped<P>(s: ConsensusState<P>, estimate: nat)
    requires
        s.wf(),
        s.wants_sample(),
    ensures
        after_sample(s, estimate).wf(),
        s.cap - after_sample(s, estimate).drawn < s.cap - s.drawn,
{
}

/// What one round of refitting on the consensus set gave.
#[derive(Debug, Clone, Copy)]
pub enum RefitOutcome<P> {
    /// The refinement failed.
    Failed,
    /// A refined pose, how many of the masked correspondences agree with it, and
    /// how many agree when all are classified anew.
    Refined { pose: P, kept: usize, classified: usize },
}

/// Where refitting stands.
#[derive(Debug, Clone, Copy)]
pub enum Refit<P> {
    /// The pose is to be refitted, in at most `rounds` more rounds.
    Running { pose: P, rounds: usize },
    /// The pose is final.
    Settled { pose: P },
    /// The pose lost its support.
    Refused,
}

/// Start refitting a pose.
pub fn start_refit<P>(pose: P) -> (r: Refit<P>)
    ensures
        r == (Refit::Running { pose, rounds: REFIT_ROUNDS }),
        r == (Refit::Running { pose, rounds: 3 }),
{
    Refit::Running { pose, rounds: REFIT_ROUNDS }
}

/// Where refitting stands after one more round.
pub open spec fn refit_after<P>(r: Refit<P>, outcome: RefitOutcome<P>) -> Refit<P> {
    match r {
        Refit::Running { pose: current, rounds } => match outcome {
            RefitOutcome::Failed => Refit::Settled { pose: current },
            RefitOutcome::Refined { pose, kept, classified } => if kept < MIN_RANSAC_POINTS {
                Refit::Settled { pose: current }
            } else if classified < MIN_RANSAC_POINTS {
                Refit::Refused
            } else if rounds <= 1 {
                Refit::Settled { pose }
            } else {
                Refit::Running { pose, rounds: (rounds - 1) as usize }
            },
        },
        _ => r,
    }
}

/// Take note of one round of refitting.
pub fn refit_round<P>(r: Refit<P>, outcome: RefitOutcome<P>) -> (after: Refit<P>)
    ensures
        after == refit_after(r, outcome),
{
    match r {
        Refit::Running { pose: current, rounds } => match outcome {
            RefitOutcome::Failed => Refit::Settled { pose: current },
            RefitOutcome::Refined { pose, kept, classified } => {
                if kept < MIN_RANSAC_POINTS {
                    Refit::Settled { pose: current }
                } else if classified < MIN_RANSAC_POINTS {
                    Refit::Refused
                } else if rounds <= 1 {
                    Refit::Settled { pose }
                } else {
                    Refit::Running { pose, rounds: rounds - 1 }
                }
            },
        },
        Refit::Settled { pose } => Refit::Settled { pose },
        Refit::Refused => Refit::Refused,
    }
}

/// How many rounds may still come.
pub open spec fn rounds_left<P>(r: Refit<P>) -> nat {
    match r {
        Refit::Running { pose: _, rounds } => rounds as nat,
        _ => 0,
    }
}

/// Refitting ends: each round uses one up.
pub proof fn law_refitting_ends<P>(r: Refit<P>, outcome: RefitOutcome<P>)
    requires
        r is Running,
        rounds_left(r) > 0,
    ensures
        rounds_left(refit_after(r, outcome)) < rounds_left(r),
{
}

/// A pose is given up for a refitted one only when the refitted one is
/// supported.
pub proof fn law_refit_adopts_supported_poses<P>(pose: P, rounds: usize, outcome: RefitOutcome<P>)
    ensures
        ({
            let kept_current = match refit_after(Refit::Running { pose, rounds }, outcome) {
                Refit::Settled { pose: q } => q == pose,
                Refit::Running { pose: q, rounds: _ } => q == pose,
                Refit::Refused => false,
            };
            kept_current || (outcome matches RefitOutcome::Refined { pose: _, kept, classified }
                && kept >= MIN_RANSAC_POINTS)
        }),
{
}

/// Whether so many agreeing correspondences make a pose.
pub fn is_supported(count: usize) -> (supported: bool)
    ensures
        supported == (count >= MIN_RANSAC_POINTS),
        supported <==> count > 3,
{
    count >= MIN_RANSAC_POINTS
}

/// Whether a linear solve over the consensus set replaces the current pose as the
/// seed: it takes enough of them, and a lower cost. `costs` are those of the
/// linear solution, where there is one, and of the current pose.
pub fn prefers_linear_seed(consensus: usize, linear: Option<u64>, current: u64) -> (prefer: bool)
    ensures
        prefer == (consensus >= MIN_DLT_POINTS && linear is Some && linear->0 < current),
        prefer == is_better_seed(consensus, linear, current),
{
    match linear {
        Some(cost) => consensus >= MIN_DLT_POINTS && cost < current,
        None => false,
    }
}

/// `at` is the candidate with the least total, the first one of equal totals;
/// candidates without a total are not physical and never chosen.
pub open spec fn is_least_total(totals: Seq<Option<u64>>, at: Option<usize>) -> bool {
    match at {
        None => forall|i: int| 0 <= i < totals.len() ==> (#[trigger] totals[i]) is None,
        Some(k) => {
            &&& k < totals.len()
            &&& totals[k as int] is Some
            &&& forall|i: int|
                #![trigger totals[i]]
                0 <= i < totals.len() && totals[i] is Some ==> totals[k as int]->0 <= totals[i]->0
                    && (i < k ==> totals[k as int]->0 < totals[i]->0)
        },
    }
}

/// The candidate with the least total error.
pub fn least_total(totals: &Vec<Option<u64>>) -> (at: Option<usize>)
    ensures
        is_least_total(totals@, at),
{
    let mut best: Option<(usize, u64)> = None;
    let mut i: usize = 0;
    while i < totals.len()
        invariant
            i <= totals@.len(),
            match best {
                None => forall|k: int| 0 <= k < i ==> (#[trigger] totals@[k]) is None,
                Some(b) => {
                    &&& b.0 < i
                    &&& totals@[b.0 as int] == Some(b.1)
                    &&& forall|k: int|
                        #![trigger totals@[k]]
                        0 <= k < i && totals@[k] is Some ==> b.1 <= totals@[k]->0 && (k < b.0
                            ==> b.1 < totals@[k]->0)
                },
            },
        decreases totals@.len() - i,
    {
        if let Some(t) = totals[i] {
            let replace: bool = match best {
                None => true,
                Some(b) => t < b.1,
            };
            if replace {
                best = Some((i, t));
            }
        }
        i = i + 1;
    }
    match best {
        None => None,
        Some(b) => Some(b.0),
    }
}

proof fn lemma_best_is_a_hypothesis<P>(s: ConsensusState<P>, hs: Seq<Hypothesis<P>>)
    requires
        s.best is None,
    ensures
        ({
            let t = with_hypotheses(s, hs);
            &&& t.worst == s.worst && t.drawn == s.drawn && t.needed == s.needed && t.cap == s.cap
            &&& t.best matches Some(h) ==> exists|k: int|
                #![trigger hs[k]]
                0 <= k < hs.len() && hs[k] == h && forall|j: int|
                    0 <= j < k ==> better_support(
                        h.count as nat,
                        h.error,
                        (#[trigger] hs[j]).count as nat,
                        hs[j].error,
                    )
            &&& t.best is None ==> forall|j: int|
                0 <= j < hs.len() ==> (#[trigger] hs[j]).count == 0 && hs[j].error >= s.worst
        }),
    decreases hs.len(),
{
    if hs.len() > 0 {
        let before = hs.drop_last();
        let n = hs.len() - 1;
        lemma_best_is_a_hypothesis(s, before);
        let b = with_hypotheses(s, before);
        let t = with_hypotheses(s, hs);
        let h = hs.last();
        if better_support(h.count as nat, h.error, b.best_count(), b.best_error()) {
            assert forall|j: int| 0 <= j < n implies better_support(
                h.count as nat,
                h.error,
                (#[trigger] hs[j]).count as nat,
                hs[j].error,
            ) by {
                assert(before[j] == hs[j]);
                law_search_keeps_the_best(s, before, j);
            }
            assert(hs[n] == h);
        } else {
            match b.best {
                Some(c) => {
                    let k = choose|k: int|
                        #![trigger before[k]]
                        0 <= k < before.len() && before[k] == c && forall|j: int|
                            0 <= j < k ==> better_support(
                                c.count as nat,
                                c.error,
                                (#[trigger] before[j]).count as nat,
                                before[j].error,
                            );
                    assert(hs[k] == c);
                    assert forall|j: int| 0 <= j < k implies better_support(
                        c.count as nat,
                        c.error,
                        (#[trigger] hs[j]).count as nat,
                        hs[j].error,
                    ) by {
                        assert(before[j] == hs[j]);
                    }
                },
                None => {
                    assert forall|j: int| 0 <= j < hs.len() implies (#[trigger] hs[j]).count == 0
                        && hs[j].error >= s.worst by {
                        if j < n {
                            assert(before[j] == hs[j]);
                        }
                    }
                },
            }
        }
    }
}

/// A search ends with the best of its hypotheses: the one that most correspondences
/// support, with the least error among those that as many support, and the first of
/// equals. As soon as a hypothesis has any support, there is a best one.
pub proof fn law_search_ends_with_the_best_supported<P>(
    s: ConsensusState<P>,
    hs: Seq<Hypothesis<P>>,
    k: int,
)
    requires
        s.best is None,
        0 <= k < hs.len(),
    ensures
        ({
            let best = with_hypotheses(s, hs).best;
            &&& hs[k].count > 0 ==> best is Some
            &&& best matches Some(h) ==> {
                &&& hs.contains(h)
                &&& h.count >= hs[k].count
                &&& h.count == hs[k].count ==> h.error <= hs[k].error
                &&& exists|j: int|
                    #![trigger hs[j]]
                    0 <= j < hs.len() && hs[j] == h && (k < j ==> h.count > hs[k].count || h.error
                        < hs[k].error)
            }
        }),
{
    law_search_keeps_the_best(s, hs, k);
    lemma_best_is_a_hypothesis(s, hs);
    let best = with_hypotheses(s, hs).best;
    if let Some(h) = best {
        let j = choose|j: int|
            #![trigger hs[j]]
            0 <= j < hs.len() && hs[j] == h && forall|i: int|
                0 <= i < j ==> better_support(
                    h.count as nat,
                    h.error,
                    (#[trigger] hs[i]).count as nat,
                    hs[i].error,
                );
        assert(hs.contains(h));
        assert(hs[j] == h && (k < j ==> h.count > hs[k].count || h.error < hs[k].error));
    }
}

/// A sample counts whether or not it gave a pose. As soon as a pose has support, as many
/// samples are needed as its support calls for, but never more than the cap.
pub proof fn law_support_sets_the_samples<P>(s: ConsensusState<P>, estimate: nat)
    ensures
        ({
            let t = after_sample(s, estimate);
            &&& t.drawn == s.drawn + 1
            &&& t.cap == s.cap && t.best == s.best && t.worst == s.worst
            &&& s.best is None ==> t.needed == s.needed
            &&& s.best matches Some(h) ==> h.count > 0 ==> t.needed == (if estimate < s.cap {
                estimate
            } else {
                s.cap
            })
            &&& t.wants_sample() <==> t.drawn < t.needed
        }),
{
}

/// A pose that was refitted with the support of four correspondences or more is taken,
/// and refused when fewer than four agree with it afterwards. A refit that fails or has
/// less support ends the refitting with the pose as it was.
pub proof fn law_refit_needs_four<P>(
    current: P,
    rounds: usize,
    pose: P,
    kept: usize,
    classified: usize,
)
    ensures
        ({
            let r = Refit::Running { pose: current, rounds };
            let after = refit_after(r, RefitOutcome::Refined { pose, kept, classified });
            &&& refit_after(r, RefitOutcome::Failed) == (Refit::Settled { pose: current })
            &&& kept < 4 ==> after == (Refit::Settled { pose: current })
            &&& kept >= 4 && classified < 4 ==> after == Refit::<P>::Refused
            &&& kept >= 4 && classified >= 4 ==> (after == (Refit::Settled { pose })) || (after
                == (Refit::Running { pose, rounds: (rounds - 1) as usize }))
        }),
{
}

/// Refitting takes three rounds: three that succeed end with the last pose, and two do
/// not end it.
pub proof fn law_refitting_takes_three_rounds<P>(
    start: P,
    a: P,
    b: P,
    c: P,
    kept: usize,
    classified: usize,
)
    requires
        kept >= 4,
        classified >= 4,
    ensures
        ({
            let fit = |p: P| RefitOutcome::Refined { pose: p, kept, classified };
            let one = refit_after(Refit::Running { pose: start, rounds: REFIT_ROUNDS }, fit(a));
            let two = refit_after(one, fit(b));
            &&& one is Running && two is Running
            &&& refit_after(two, fit(c)) == (Refit::Settled { pose: c })
        }),
{
}

/// The least total is that of no other candidate undercut, the first of equals; there is
/// none exactly where no candidate has a total.
pub proof fn law_least_total_is_not_undercut(totals: Seq<Option<u64>>, at: Option<usize>, i: int)
    requires
        is_least_total(totals, at),
        0 <= i < totals.len(),
        totals[i] is Some,
    ensures
        at is Some,
        at->0 < totals.len(),
        totals[at->0 as int] is Some,
        totals[at->0 as int]->0 <= totals[i]->0,
        totals[at->0 as int]->0 == totals[i]->0 ==> at->0 <= i,
{
}

/// The linear solve has eleven unknowns and two equations for each point; a minimal
/// sample of three leaves one point to tell its solutions apart.
pub proof fn law_points_needed(n: nat)
    ensures
        n >= MIN_DLT_POINTS <==> 2 * n >= 11,
        n >= MIN_RANSAC_POINTS <==> n >= 3 + 1,
{
}

/// Whether a consensus search can be made at all.
pub open spec fn can_be_searched(
    points_3d: usize,
    points_2d: usize,
    iterations: usize,
    threshold_is_positive: bool,
) -> bool {
    points_3d >= MIN_RANSAC_POINTS && points_2d >= points_3d && iterations > 0
        && threshold_is_positive
}

/// What a search is won by.
pub open spec fn winner_of<P>(s: ConsensusState<P>) -> Option<Hypothesis<P>> {
    if s.best_count() >= MIN_RANSAC_POINTS {
        s.best
    } else {
        None
    }
}

/// Whether the linear solve is refitted from in place of the pose that there is.
pub open spec fn is_better_seed(consensus: usize, linear: Option<u64>, current: u64) -> bool {
    consensus >= MIN_DLT_POINTS && linear is Some && linear->0 < current
}

/// A search needs four points, a pixel for each, a sample to draw and a distance to
/// judge by. It is won by its best pose, as long as four points agree with it.
pub proof fn law_search_is_won_by_four<P>(
    s: ConsensusState<P>,
    points_3d: usize,
    points_2d: usize,
    iterations: usize,
)
    ensures
        can_be_searched(points_3d, points_2d, iterations, true) <==> 4 <= points_3d <= points_2d
            && iterations != 0,
        !can_be_searched(points_3d, points_2d, iterations, false),
        s.best is None ==> winner_of(s) is None,
        s.best matches Some(h) ==> (h.count >= 4 ==> winner_of(s) == Some(h)) && (h.count < 4
            ==> winner_of(s) is None),
{
}

/// The linear solve is used only where it lowers the cost, and only where the points
/// determine it: it has eleven unknowns, and a point gives two equations.
pub proof fn law_linear_seed_has_to_be_better(consensus: usize, linear: u64, current: u64)
    ensures
        !is_better_seed(consensus, None, current),
        is_better_seed(consensus, Some(linear), current) <==> 2 * consensus >= 11 && linear
            < current,
{
}

} // verus!
