//! The gates a triangulated landmark has to pass, in the order in which they are
//! applied.

use vstd::prelude::*;

verus! {

/// Why a candidate landmark was not accepted.
#[derive(Debug, Clone, Copy, PartialEq, Eq, Structural)]
pub enum TriangulationRejection {
    /// Fewer than two views were supplied.
    TooFewViews,
    /// The linear system was rank deficient, or the solution is at infinity.
    Degenerate,
    /// The point falls behind at least one camera.
    Cheirality,
    /// The viewing rays are too close to parallel for the depth to be observable.
    LowParallax,
    /// The point is further away than the configured horizon.
    TooFar,
    /// The point does not reproject onto its own observations.
    HighReprojection,
}

impl TriangulationRejection {
    /// What is wrong, in words.
    pub fn message(self) -> (text: &'static str)
        ensures
            text@ == (match self {
                TriangulationRejection::TooFewViews => "fewer than two views"@,
                TriangulationRejection::Degenerate => "rank-deficient linear system"@,
                TriangulationRejection::Cheirality => "point behind a camera"@,
                TriangulationRejection::LowParallax => "insufficient parallax"@,
                TriangulationRejection::TooFar => "beyond the depth horizon"@,
                TriangulationRejection::HighReprojection => "reprojection error too large"@,
            }),
    {
        match self {
            TriangulationRejection::TooFewViews => "fewer than two views",
            TriangulationRejection::Degenerate => "rank-deficient linear system",
            TriangulationRejection::Cheirality => "point behind a camera",
            TriangulationRejection::LowParallax => "insufficient parallax",
            TriangulationRejection::TooFar => "beyond the depth horizon",
            TriangulationRejection::HighReprojection => "reprojection error too large",
        }
    }
}

/// How a triangulated point lies with respect to one view.
#[derive(Debug, Clone, Copy, PartialEq, Eq, Structural)]
pub enum ViewCheck {
    /// In front of the camera and within the horizon.
    Visible,
    /// In front of the camera and beyond the horizon.
    Beyond,
    /// Behind the camera.
    Behind,
}

/// What is known of a candidate landmark.
#[derive(Debug)]
pub struct Candidate {
    /// How the point lies with respect to each view; what the later gates say is
    /// read only if there is a point.
    pub views: Vec<ViewCheck>,
    /// Whether the linear system gave a finite point.
    pub has_point: bool,
    /// Whether the widest angle between two rays is large enough.
    pub parallax_is_enough: bool,
    /// Whether the worst reprojection error is small enough.
    pub reprojects: bool,
    /// Whether the point has a covariance.
    pub has_covariance: bool,
}

/// Whether one of the first `n` views sees the point in a given way.
pub open spec fn some_view(views: Seq<ViewCheck>, check: ViewCheck, n: nat) -> bool {
    exists|k: int| 0 <= k < n && #[trigger] views[k] == check
}

/// Why a candidate is rejected, or `None` when it is accepted.
///
/// Cheirality comes first, because a point behind a camera makes every later
/// number meaningless; then parallax, then the depth horizon, then reprojection.
pub open spec fn rejection(c: Candidate) -> Option<TriangulationRejection> {
    if c.views@.len() < 2 {
        Some(TriangulationRejection::TooFewViews)
    } else if !c.has_point {
        Some(TriangulationRejection::Degenerate)
    } else if some_view(c.views@, ViewCheck::Behind, c.views@.len()) {
        Some(TriangulationRejection::Cheirality)
    } else if !c.parallax_is_enough {
        Some(TriangulationRejection::LowParallax)
    } else if some_view(c.views@, ViewCheck::Beyond, c.views@.len()) {
        Some(TriangulationRejection::TooFar)
    } else if !c.reprojects {
        Some(TriangulationRejection::HighReprojection)
    } else if !c.has_covariance {
        Some(TriangulationRejection::Degenerate)
    } else {
        None
    }
}

/// Accept or reject a candidate landmark.
pub fn judge(c: &Candidate) -> (verdict: Result<(), TriangulationRejection>)
    ensures
        match rejection(*c) {
            Some(why) => verdict == Result::<(), TriangulationRejection>::Err(why),
            None => verdict is Ok,
        },
{
    if c.views.len() < 2 {
        return Err(TriangulationRejection::TooFewViews);
    }
    if !c.has_point {
        return Err(TriangulationRejection::Degenerate);
    }
    let mut behind: bool = false;
    let mut beyond: bool = false;
    let mut i: usize = 0;
    while i < c.views.len()
        invariant
            i <= c.views@.len(),
            behind == some_view(c.views@, ViewCheck::Behind, i as nat),
            beyond == some_view(c.views@, ViewCheck::Beyond, i as nat),
        decreases c.views@.len() - i,
    {
        let check: ViewCheck = c.views[i];
        proof {
            lemma_some_view(c.views@, ViewCheck::Behind, i as nat);
            lemma_some_view(c.views@, ViewCheck::Beyond, i as nat);
        }
        behind = behind || check == ViewCheck::Behind;
        beyond = beyond || check == ViewCheck::Beyond;
        i = i + 1;
    }
    if behind {
        Err(TriangulationRejection::Cheirality)
    } else if !c.parallax_is_enough {
        Err(TriangulationRejection::LowParallax)
    } else if beyond {
        Err(TriangulationRejection::TooFar)
    } else if !c.reprojects {
        Err(TriangulationRejection::HighReprojection)
    } else if !c.has_covariance {
        Err(TriangulationRejection::Degenerate)
    } else {
        Ok(())
    }
}

proof fn lemma_some_view(views: Seq<ViewCheck>, check: ViewCheck, n: nat)
    requires
        n < views.len(),
    ensures
        some_view(views, check, n + 1) == (some_view(views, check, n) || views[n as int] == check),
{
    if some_view(views, check, n + 1) && views[n as int] != check {
        let k = choose|k: int| 0 <= k < n + 1 && #[trigger] views[k] == check;
        assert(0 <= k < n && views[k] == check);
    }
    if some_view(views, check, n) {
        let k = choose|k: int| 0 <= k < n && #[trigger] views[k] == check;
        assert(0 <= k < n + 1 && views[k] == check);
    }
}

/// An accepted landmark has passed every gate: it is in front of all its cameras
/// and within the horizon, its depth is observable and it reprojects.
pub proof fn law_accepted_landmark_passed_every_gate(c: Candidate, k: int)
    requires
        rejection(c) is None,
        0 <= k < c.views@.len(),
    ensures
        c.views@.len() >= 2,
        c.has_point,
        c.views@[k] == ViewCheck::Visible,
        c.parallax_is_enough,
        c.reprojects,
        c.has_covariance,
{
    assert(c.views@[k] != ViewCheck::Behind);
    assert(c.views@[k] != ViewCheck::Beyond);
}

/// A point behind any of its cameras is refused for that, whatever else is known
/// of it.
pub proof fn law_cheirality_comes_first(c: Candidate, k: int)
    requires
        c.views@.len() >= 2,
        c.has_point,
        0 <= k < c.views@.len(),
        c.views@[k] == ViewCheck::Behind,
    ensures
        rejection(c) == Some(TriangulationRejection::Cheirality),
{
}

/// Low parallax is refused whatever else is right with the point, and is the
/// reason given for a point in front of its cameras, however far away it is.
pub proof fn law_low_parallax_is_refused(c: Candidate)
    requires
        !c.parallax_is_enough,
    ensures
        rejection(c) is Some,
        c.views@.len() >= 2 && c.has_point && (forall|k: int|
            0 <= k < c.views@.len() ==> #[trigger] c.views@[k] != ViewCheck::Behind)
            ==> rejection(c) == Some(TriangulationRejection::LowParallax),
{
}

} // verus!
