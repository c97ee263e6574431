//! Metric scale: which ruler an estimate comes from, and what may be claimed of
//! it. `S` is the type of a number.

use vstd::prelude::*;

pub mod fiducial;
pub mod inertial;
pub mod learned;
pub mod recent;

verus! {

/// Which ruler gave the scale.
#[derive(Debug, Clone, Copy, PartialEq, Eq, Structural)]
pub enum ScaleKind {
    /// No ruler: the units are arbitrary.
    Arbitrary,
    /// A distance the user declared.
    Declared,
    /// A printed tag of known size.
    Fiducial,
    /// A map that was anchored before.
    AnchoredMap,
    /// A learned depth prior.
    Learned,
    /// Double-integrated acceleration.
    Inertial,
}

impl ScaleKind {
    /// Whether the ruler measures metres.
    pub fn is_metric(self) -> (metric: bool)
        ensures
            metric == (self != ScaleKind::Arbitrary),
    {
        match self {
            ScaleKind::Arbitrary => false,
            _ => true,
        }
    }
}

/// A scale, or the statement that there is none. An estimate without a ruler
/// carries no number, so none can be mistaken for a guess.
#[derive(Debug, Clone, Copy)]
pub enum ScaleEstimate<S> {
    /// The units are arbitrary; the variance is infinite.
    Unscaled,
    /// A multiplier that takes units to metres, and its variance.
    Metric { source: ScaleKind, value: S, variance: S },
}

impl<S> ScaleEstimate<S> {
    /// The ruler of an estimate.
    pub open spec fn ruler(self) -> ScaleKind {
        match self {
            ScaleEstimate::Unscaled => ScaleKind::Arbitrary,
            ScaleEstimate::Metric { source, .. } => source,
        }
    }

    /// A metric estimate names a metric ruler.
    pub open spec fn wf(self) -> bool {
        self matches ScaleEstimate::Metric { source, .. } ==> source != ScaleKind::Arbitrary
    }

    /// A metric estimate.
    pub fn metric(source: ScaleKind, value: S, variance: S) -> (estimate: ScaleEstimate<S>)
        requires
            source != ScaleKind::Arbitrary,
        ensures
            estimate.wf(),
            estimate == (ScaleEstimate::Metric { source, value, variance }),
    {
        ScaleEstimate::Metric { source, value, variance }
    }

    /// The ruler of the estimate.
    pub fn source(&self) -> (kind: ScaleKind)
        ensures
            kind == self.ruler(),
    {
        match self {
            ScaleEstimate::Unscaled => ScaleKind::Arbitrary,
            ScaleEstimate::Metric { source, .. } => *source,
        }
    }
}

/// Up to scale: positions are in arbitrary units.
#[derive(Debug, Clone, Copy, PartialEq, Eq, Structural)]
pub struct NoneScale;

impl NoneScale {
    /// There is nothing to configure.
    pub fn new() -> (scale: NoneScale)
        ensures
            scale == NoneScale,
    {
        NoneScale
    }

    /// Which ruler this is.
    pub fn kind(&self) -> (kind: ScaleKind)
        ensures
            kind == ScaleKind::Arbitrary,
    {
        ScaleKind::Arbitrary
    }

    /// There is always an answer, and it never holds a number.
    pub fn estimate<S>(&self) -> (estimate: Option<ScaleEstimate<S>>)
        ensures
            estimate == Some(ScaleEstimate::<S>::Unscaled),
    {
        Some(ScaleEstimate::Unscaled)
    }
}

impl Default for NoneScale {
    fn default() -> (scale: NoneScale)
        ensures
            scale == NoneScale,
    {
        NoneScale
    }
}

/// What is wrong with a declared distance.
#[derive(Debug, Clone, Copy, PartialEq, Eq, Structural)]
pub enum DeclarationError {
    /// The declared distance is not a positive number of metres.
    Metres,
    /// The observed distance is not positive.
    ObservedUnits,
}

/// Scale from a distance the user declares between two observed points.
#[derive(Debug, Clone, Copy)]
pub struct DeclaredScale<S> {
    metres: S,
    observed_units: S,
    tap_stddev_units: S,
}

impl<S: Copy> DeclaredScale<S> {
    /// The declared distance.
    pub closed spec fn declared(&self) -> S {
        self.metres
    }

    /// The observed distance.
    pub closed spec fn observed(&self) -> S {
        self.observed_units
    }

    /// The uncertainty of one tap.
    pub closed spec fn tap(&self) -> S {
        self.tap_stddev_units
    }

    /// A declaration. Both distances have to be finite and positive, which
    /// `metres_is_positive` and `units_is_positive` say of them;
    /// `tap_stddev_units` is the uncertainty of one tap.
    pub fn new(
        metres: S,
        metres_is_positive: bool,
        observed_units: S,
        units_is_positive: bool,
        tap_stddev_units: S,
    ) -> (scale: Result<DeclaredScale<S>, DeclarationError>)
        ensures
            match scale {
                Ok(d) => metres_is_positive && units_is_positive && d.declared() == metres
                    && d.observed() == observed_units && d.tap() == tap_stddev_units,
                Err(e) => e == (if !metres_is_positive {
                    DeclarationError::Metres
                } else {
                    DeclarationError::ObservedUnits
                }) && !(metres_is_positive && units_is_positive),
            },
            match declaration_error(metres_is_positive, units_is_positive) {
                Some(e) => scale is Err && scale->Err_0 == e,
                None => scale is Ok,
            },
    {
        if !metres_is_positive {
            return Err(DeclarationError::Metres);
        }
        if !units_is_positive {
            return Err(DeclarationError::ObservedUnits);
        }
        Ok(DeclaredScale { metres, observed_units, tap_stddev_units })
    }

    /// The same declaration with another uncertainty per tap.
    pub fn with_tap_stddev_units(self, tap_stddev_units: S) -> (scale: DeclaredScale<S>)
        ensures
            scale.declared() == self.declared(),
            scale.observed() == self.observed(),
            scale.tap() == tap_stddev_units,
    {
        DeclaredScale {
            metres: self.metres,
            observed_units: self.observed_units,
            tap_stddev_units,
        }
    }

    /// The declared distance.
    pub fn metres(&self) -> (metres: S)
        ensures
            metres == self.declared(),
    {
        self.metres
    }

    /// The observed distance.
    pub fn observed_units(&self) -> (units: S)
        ensures
            units == self.observed(),
    {
        self.observed_units
    }

    /// The uncertainty of one tap.
    pub fn tap_stddev_units(&self) -> (stddev: S)
        ensures
            stddev == self.tap(),
    {
        self.tap_stddev_units
    }

    /// Which ruler this is.
    pub fn kind(&self) -> (kind: ScaleKind)
        ensures
            kind == ScaleKind::Declared,
    {
        ScaleKind::Declared
    }
}

/// How certain a relocalization is.
#[derive(Debug, Clone, Copy)]
pub enum RelocalizationVariance<S> {
    /// Nothing is known of it: its variance is infinite.
    Unbounded,
    /// Nothing is added.
    Zero,
    /// A finite positive variance.
    Finite(S),
}

/// Scale carried forward from a map's anchor, inflated by relocalization error.
#[derive(Debug, Clone, Copy)]
pub struct MapScale<S> {
    anchor: ScaleEstimate<S>,
    relocalization: RelocalizationVariance<S>,
}

/// What a given variance stands for: a number that is not finite is infinite
/// uncertainty, and a negative one counts as none.
pub open spec fn relocalization_of<S>(
    variance: S,
    is_finite: bool,
    is_positive: bool,
) -> RelocalizationVariance<S> {
    if !is_finite {
        RelocalizationVariance::Unbounded
    } else if !is_positive {
        RelocalizationVariance::Zero
    } else {
        RelocalizationVariance::Finite(variance)
    }
}

/// A variance and what relocalizing adds to it.
#[derive(Debug, Clone, Copy)]
pub struct InflatedVariance<S> {
    /// The variance of the anchor.
    pub origin: S,
    /// What is added to it.
    pub added: RelocalizationVariance<S>,
}

/// The scale of a map: that of its anchor, with a variance of its own.
#[derive(Debug, Clone, Copy)]
pub enum InheritedScale<S> {
    /// The map was never anchored.
    Unscaled,
    /// A multiplier that takes units to metres, and its variance.
    Metric { source: ScaleKind, value: S, variance: InflatedVariance<S> },
}

/// The scale of an anchor once relocalizing has added to its variance.
pub open spec fn inherited_from<S>(
    anchor: ScaleEstimate<S>,
    added: RelocalizationVariance<S>,
) -> InheritedScale<S> {
    match anchor {
        ScaleEstimate::Unscaled => InheritedScale::Unscaled,
        ScaleEstimate::Metric { source, value, variance } => InheritedScale::Metric {
            source,
            value,
            variance: InflatedVariance { origin: variance, added },
        },
    }
}

/// The same scale with the map as its ruler, where its own ruler measures metres.
pub open spec fn under_map<S>(scale: InheritedScale<S>) -> InheritedScale<S> {
    match scale {
        InheritedScale::Metric { source, value, variance } if source != ScaleKind::Arbitrary => {
            InheritedScale::Metric { source: ScaleKind::AnchoredMap, value, variance }
        },
        _ => InheritedScale::Unscaled,
    }
}

impl<S: Copy> MapScale<S> {
    /// The anchor.
    pub closed spec fn origin(&self) -> ScaleEstimate<S> {
        self.anchor
    }

    /// The relocalization error.
    pub closed spec fn added(&self) -> RelocalizationVariance<S> {
        self.relocalization
    }

    /// Wrap a map's anchor together with the variance that relocalizing adds.
    pub fn new(anchor: ScaleEstimate<S>, variance: S, is_finite: bool, is_positive: bool) -> (scale:
        MapScale<S>)
        ensures
            scale.origin() == anchor,
            scale.added() == relocalization_of(variance, is_finite, is_positive),
    {
        let relocalization = if !is_finite {
            RelocalizationVariance::Unbounded
        } else if !is_positive {
            RelocalizationVariance::Zero
        } else {
            RelocalizationVariance::Finite(variance)
        };
        MapScale { anchor, relocalization }
    }

    /// Replace the relocalization variance.
    pub fn set_relocalization_variance(&mut self, variance: S, is_finite: bool, is_positive: bool)
        ensures
            final(self).origin() == old(self).origin(),
            final(self).added() == relocalization_of(variance, is_finite, is_positive),
    {
        *self = MapScale::new(self.anchor, variance, is_finite, is_positive);
    }

    /// The anchor this map was built with.
    pub fn anchor(&self) -> (anchor: ScaleEstimate<S>)
        ensures
            anchor == self.origin(),
    {
        self.anchor
    }

    /// The variance contributed by relocalizing.
    pub fn relocalization_variance(&self) -> (variance: RelocalizationVariance<S>)
        ensures
            variance == self.added(),
    {
        self.relocalization
    }

    /// Which ruler this is.
    pub fn kind(&self) -> (kind: ScaleKind)
        ensures
            kind == ScaleKind::AnchoredMap,
    {
        ScaleKind::AnchoredMap
    }

    /// The anchor with the relocalization error added, under the anchor's own
    /// ruler.
    pub fn inherited(&self) -> (scale: InheritedScale<S>)
        ensures
            scale == inherited_from(self.origin(), self.added()),
    {
        match self.anchor {
            ScaleEstimate::Unscaled => InheritedScale::Unscaled,
            ScaleEstimate::Metric { source, value, variance } => InheritedScale::Metric {
                source,
                value,
                variance: InflatedVariance { origin: variance, added: self.relocalization },
            },
        }
    }

    /// The estimate. A map that no metric ruler ever anchored is no ruler; one that
    /// was is its own.
    pub fn estimate(&self) -> (estimate: Option<InheritedScale<S>>)
        ensures
            estimate == Some(under_map(inherited_from(self.origin(), self.added()))),
    {
        match self.inherited() {
            InheritedScale::Unscaled => Some(InheritedScale::Unscaled),
            InheritedScale::Metric { source, value, variance } => {
                if source.is_metric() {
                    Some(InheritedScale::Metric { source: ScaleKind::AnchoredMap, value, variance })
                } else {
                    Some(InheritedScale::Unscaled)
                }
            },
        }
    }
}

/// A map is never more certain than its origin, and keeps its multiplier: however
/// variances are ordered and added, as long as adding an error never lowers a
/// variance, what a map reports is no lower than its anchor's.
pub proof fn law_map_is_no_more_certain_than_its_origin<S>(
    anchor: ScaleEstimate<S>,
    added: RelocalizationVariance<S>,
    no_lower: spec_fn(S, S) -> bool,
    sum: spec_fn(S, RelocalizationVariance<S>) -> S,
)
    requires
        forall|v: S, r: RelocalizationVariance<S>| no_lower(#[trigger] sum(v, r), v),
    ensures
        under_map(inherited_from(anchor, added)) is Metric <==> anchor.ruler()
            != ScaleKind::Arbitrary,
        under_map(inherited_from(anchor, added)) matches InheritedScale::Metric {
            source,
            value,
            variance,
        } ==> {
            &&& source == ScaleKind::AnchoredMap
            &&& value == anchor->value
            &&& no_lower(sum(variance.origin, variance.added), anchor->variance)
        },
{
}

/// What relocalizing adds is never a negative number.
pub proof fn law_relocalization_never_helps<S>(variance: S, is_finite: bool, is_positive: bool)
    ensures
        relocalization_of(variance, is_finite, is_positive) matches RelocalizationVariance::Finite(v)
            ==> v == variance && is_finite && is_positive,
{
}

/// What relocalizing adds is what it says as long as that is a finite positive number;
/// one that is not finite says that nothing is known, and any other that nothing is
/// added.
pub proof fn law_relocalization_adds_what_it_says<S>(
    variance: S,
    is_finite: bool,
    is_positive: bool,
)
    ensures
        !is_finite ==> relocalization_of(variance, is_finite, is_positive) is Unbounded,
        is_finite && !is_positive ==> relocalization_of(variance, is_finite, is_positive) is Zero,
        is_finite && is_positive ==> relocalization_of(variance, is_finite, is_positive)
            == RelocalizationVariance::Finite(variance),
{
}

/// A map has the multiplier and the variance of its anchor, and what relocalizing adds
/// beside it; it answers under its own name exactly when its anchor measured metres, and
/// without a number otherwise. What it inherited still names the anchor's ruler.
pub proof fn law_map_answers_with_its_anchor<S>(
    source: ScaleKind,
    value: S,
    variance: S,
    added: RelocalizationVariance<S>,
)
    ensures
        ({
            let anchor = ScaleEstimate::Metric { source, value, variance };
            let own = inherited_from(anchor, added);
            let answer = under_map(own);
            &&& own == (InheritedScale::Metric {
                source,
                value,
                variance: InflatedVariance { origin: variance, added },
            })
            &&& source == ScaleKind::Arbitrary ==> answer is Unscaled
            &&& source != ScaleKind::Arbitrary ==> answer == (InheritedScale::Metric {
                source: ScaleKind::AnchoredMap,
                value,
                variance: InflatedVariance { origin: variance, added },
            })
            &&& inherited_from(ScaleEstimate::<S>::Unscaled, added) is Unscaled
            &&& under_map(InheritedScale::<S>::Unscaled) is Unscaled
            &&& anchor.ruler() == source
            &&& ScaleEstimate::<S>::Unscaled.ruler() == ScaleKind::Arbitrary
        }),
{
}

/// What is wrong with a declaration, if anything is.
pub open spec fn declaration_error(metres_is_positive: bool, units_is_positive: bool) -> Option<
    DeclarationError,
> {
    if !metres_is_positive {
        Some(DeclarationError::Metres)
    } else if !units_is_positive {
        Some(DeclarationError::ObservedUnits)
    } else {
        None
    }
}

/// A declaration is taken exactly when both distances are positive; the declared one is
/// blamed first.
pub proof fn law_declaration_needs_two_lengths(metres: bool, units: bool)
    ensures
        declaration_error(metres, units) is None <==> metres && units,
        declaration_error(false, units) == Some(DeclarationError::Metres),
        declaration_error(true, false) == Some(DeclarationError::ObservedUnits),
{
}

/// Every ruler but none measures metres, and an estimate without a ruler has no number.
pub proof fn law_only_rulers_measure_metres<S>(estimate: ScaleEstimate<S>)
    ensures
        estimate.wf() && estimate is Metric ==> estimate.ruler() != ScaleKind::Arbitrary,
        estimate is Unscaled ==> estimate.ruler() == ScaleKind::Arbitrary,
        estimate.wf() && estimate.ruler() == ScaleKind::Arbitrary ==> estimate is Unscaled,
{
}

} // verus!
