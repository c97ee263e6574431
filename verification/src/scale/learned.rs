//! Scale from a learned depth prior: the prediction grid, which samples count,
//! and the gates of the fit.
//!
//! `R` is the type of a measured number.

use vstd::prelude::*;

use crate::scale::inertial::{at_least, refuses, Gate};

verus! {

/// Fewest samples the fit can be held to account with: a fit through two is exact
/// by construction.
pub const MIN_SAMPLES: usize = 4;

/// A prediction of inverse depth on a regular grid, row by row.
#[derive(Debug)]
pub struct InverseDepth<R> {
    width: u32,
    height: u32,
    data: Vec<R>,
}

/// What is wrong with a grid.
#[derive(Debug, Clone, Copy, PartialEq, Eq, Structural)]
pub enum GridError {
    /// It has no cells.
    Empty,
    /// It does not carry one value for each cell.
    Mismatch { width: u32, height: u32, values: usize },
}

/// The columns and rows between which a value is interpolated.
#[derive(Debug, Clone, Copy, PartialEq, Eq, Structural)]
pub struct Neighbours {
    pub x0: u32,
    pub y0: u32,
    pub x1: u32,
    pub y1: u32,
}

impl<R> InverseDepth<R> {
    /// Columns.
    pub closed spec fn columns(&self) -> nat {
        self.width as nat
    }

    /// Rows.
    pub closed spec fn rows(&self) -> nat {
        self.height as nat
    }

    /// The values, row by row.
    pub closed spec fn values(&self) -> Seq<R> {
        self.data@
    }

    /// One value for each cell, and at least one cell.
    pub open spec fn wf(&self) -> bool {
        &&& self.columns() > 0
        &&& self.rows() > 0
        &&& self.values().len() == self.columns() * self.rows()
    }
}

impl<R: Copy> InverseDepth<R> {
    /// Wrap a prediction.
    pub fn new(width: u32, height: u32, data: Vec<R>) -> (grid: Result<InverseDepth<R>, GridError>)
        ensures
            match grid {
                Ok(g) => g.wf() && g.columns() == width && g.rows() == height && g.values() == data@,
                Err(GridError::Empty) => width == 0 || height == 0,
                Err(GridError::Mismatch { width: w, height: h, values }) => {
                    &&& width > 0 && height > 0
                    &&& data@.len() != width * height
                    &&& w == width && h == height && values == data@.len()
                },
            },
            grid is Ok <==> width > 0 && height > 0 && data@.len() == width * height,
    {
        proof {
            assert(0 <= width * height <= 0xffff_ffff * 0xffff_ffff) by (nonlinear_arith)
                requires
                    0 <= width <= 0xffff_ffff,
                    0 <= height <= 0xffff_ffff,
            ;
            assert(width > 0 && height > 0 ==> width * height > 0) by (nonlinear_arith);
            assert(width == 0 || height == 0 ==> width * height == 0) by (nonlinear_arith);
        }
        let want: u64 = (width as u64) * (height as u64);
        if want == 0 {
            return Err(GridError::Empty);
        }
        if data.len() as u64 != want {
            return Err(GridError::Mismatch { width, height, values: data.len() });
        }
        Ok(InverseDepth { width, height, data })
    }

    /// Columns.
    pub fn width(&self) -> (width: u32)
        ensures
            width == self.columns(),
    {
        self.width
    }

    /// Rows.
    pub fn height(&self) -> (height: u32)
        ensures
            height == self.rows(),
    {
        self.height
    }

    /// The values, row by row.
    pub fn data(&self) -> (data: &[R])
        ensures
            data@ == self.values(),
    {
        self.data.as_slice()
    }

    /// The value of a cell.
    pub fn cell(&self, x: u32, y: u32) -> (value: R)
        requires
            self.wf(),
            x < self.columns(),
            y < self.rows(),
        ensures
            value == self.values()[y * self.columns() + x],
    {
        let cells: usize = self.data.len();
        proof {
            assert(cells == self.width * self.height);
            assert(y * self.width + x < self.width * self.height) by (nonlinear_arith)
                requires
                    x < self.width,
                    y < self.height,
            ;
            assert(0 <= y * self.width <= y * self.width + x) by (nonlinear_arith)
                requires
                    0 <= x,
                    0 <= y,
                    0 <= self.width,
            ;
        }
        self.data[(y as usize) * (self.width as usize) + (x as usize)]
    }

    /// The cells around one: the next column and row, held back at the edge.
    pub fn neighbours(&self, x0: u32, y0: u32) -> (n: Neighbours)
        requires
            self.wf(),
            x0 < self.columns(),
            y0 < self.rows(),
        ensures
            n.x0 == x0,
            n.y0 == y0,
            n.x1 == (if x0 + 1 < self.columns() {
                x0 + 1
            } else {
                self.columns() - 1
            }),
            n.y1 == (if y0 + 1 < self.rows() {
                y0 + 1
            } else {
                self.rows() - 1
            }),
    {
        Neighbours {
            x0,
            y0,
            x1: if x0 < self.width - 1 {
                x0 + 1
            } else {
                self.width - 1
            },
            y1: if y0 < self.height - 1 {
                y0 + 1
            } else {
                self.height - 1
            },
        }
    }
}

/// Why the fit declined to answer.
#[derive(Debug, Clone, Copy)]
pub enum LearnedRejection<R> {
    /// Not enough usable samples.
    InsufficientSamples { have: usize, need: usize },
    /// The structure is all at one depth: scale and shift are the same parameter.
    NoDepthSpread { relative_spread: R, threshold: R },
    /// The model predicted a constant.
    NoPredictedSpread,
    /// The prediction disagrees with the structure.
    Inconsistent { residual_ratio: R, threshold: R },
    /// A number that is none, or a scale that is not positive.
    Degenerate,
    /// A solution exists but is too imprecise to report.
    Imprecise { relative_stddev: R, threshold: R },
}

/// What is known of the samples and their fit. What has not been measured yet is
/// `None` and passes.
#[derive(Debug)]
pub struct LearnedEvidence<R> {
    /// Usable samples.
    pub samples: usize,
    /// Samples asked for.
    pub min_samples: usize,
    /// Whether the gain, and every sample, is a usable number.
    pub is_finite: bool,
    /// Spread of the inverse depths.
    pub spread: Option<Gate<R>>,
    /// Whether the prediction varies.
    pub prediction_varies: Option<bool>,
    /// Residual of the fit.
    pub residual: Option<Gate<R>>,
    /// Whether the slope and the variance are usable numbers.
    pub is_usable: Option<bool>,
    /// Relative standard deviation.
    pub precision: Option<Gate<R>>,
}

/// Why a fit is refused, or `None` as far as is known: the gates in the order in
/// which they are applied.
pub open spec fn learned_rejection<R>(e: LearnedEvidence<R>) -> Option<LearnedRejection<R>> {
    let need = at_least(e.min_samples, MIN_SAMPLES);
    if e.samples < need {
        Some(LearnedRejection::InsufficientSamples { have: e.samples, need })
    } else if !e.is_finite {
        Some(LearnedRejection::Degenerate)
    } else if refuses(e.spread) {
        Some(
            LearnedRejection::NoDepthSpread {
                relative_spread: e.spread->0.measured,
                threshold: e.spread->0.threshold,
            },
        )
    } else if e.prediction_varies == Some(false) {
        Some(LearnedRejection::NoPredictedSpread)
    } else if refuses(e.residual) {
        Some(
            LearnedRejection::Inconsistent {
                residual_ratio: e.residual->0.measured,
                threshold: e.residual->0.threshold,
            },
        )
    } else if e.is_usable == Some(false) {
        Some(LearnedRejection::Degenerate)
    } else if refuses(e.precision) {
        Some(
            LearnedRejection::Imprecise {
                relative_stddev: e.precision->0.measured,
                threshold: e.precision->0.threshold,
            },
        )
    } else {
        None
    }
}

/// Why a fit is refused, as far as is known.
pub fn judge<R: Copy>(e: &LearnedEvidence<R>) -> (rejection: Option<LearnedRejection<R>>)
    ensures
        rejection == learned_rejection(*e),
{
    let need: usize = if e.min_samples < MIN_SAMPLES {
        MIN_SAMPLES
    } else {
        e.min_samples
    };
    if e.samples < need {
        return Some(LearnedRejection::InsufficientSamples { have: e.samples, need });
    }
    if !e.is_finite {
        return Some(LearnedRejection::Degenerate);
    }
    if let Some(g) = &e.spread {
        if !g.passes {
            return Some(
                LearnedRejection::NoDepthSpread {
                    relative_spread: g.measured,
                    threshold: g.threshold,
                },
            );
        }
    }
    if let Some(varies) = e.prediction_varies {
        if !varies {
            return Some(LearnedRejection::NoPredictedSpread);
        }
    }
    if let Some(g) = &e.residual {
        if !g.passes {
            return Some(
                LearnedRejection::Inconsistent {
                    residual_ratio: g.measured,
                    threshold: g.threshold,
                },
            );
        }
    }
    if let Some(usable) = e.is_usable {
        if !usable {
            return Some(LearnedRejection::Degenerate);
        }
    }
    if let Some(g) = &e.precision {
        if !g.passes {
            return Some(
                LearnedRejection::Imprecise {
                    relative_stddev: g.measured,
                    threshold: g.threshold,
                },
            );
        }
    }
    None
}

/// A prediction that contradicts the structure gets no scale, however precise it
/// looks.
pub proof fn law_inconsistent_prediction_gets_no_scale<R>(e: LearnedEvidence<R>)
    requires
        refuses(e.residual),
    ensures
        learned_rejection(e) is Some,
        !(learned_rejection(e)->0 is Imprecise),
{
}

/// A wall at one distance gets no scale.
pub proof fn law_flat_structure_gets_no_scale<R>(e: LearnedEvidence<R>)
    requires
        refuses(e.spread),
    ensures
        learned_rejection(e) is Some,
{
}

/// Whether a sample counts: a pose is near enough in time, and that pose rests on
/// enough landmarks.
pub fn is_usable(nearest_landmarks: Option<usize>, min_landmarks: usize) -> (usable: bool)
    ensures
        usable == (nearest_landmarks matches Some(n) && n >= min_landmarks),
{
    match nearest_landmarks {
        Some(n) => n >= min_landmarks,
        None => false,
    }
}

/// The gates of the fit, each with what it says. Fewer samples than asked for, and than
/// four, are too few, before anything else is looked at; then the numbers have to be
/// finite, the structure has to have depth, the prediction has to vary, the two have to
/// agree, the multiplier has to be usable, and the answer precise.
pub proof fn law_learned_gates_come_in_order<R>(e: LearnedEvidence<R>)
    ensures
        ({
            let why = learned_rejection(e);
            let enough = e.samples >= e.min_samples && e.samples >= 4;
            let deep = e.spread is None || e.spread->0.passes;
            let varies = e.prediction_varies != Some(false);
            let agrees = e.residual is None || e.residual->0.passes;
            let usable = e.is_usable != Some(false);
            let precise = e.precision is None || e.precision->0.passes;
            &&& !enough ==> why is Some && why->0 is InsufficientSamples && why->0->have
                == e.samples && why->0->need == (if e.min_samples > 4 {
                e.min_samples
            } else {
                4
            })
            &&& enough && !e.is_finite ==> why is Some && why->0 is Degenerate
            &&& enough && e.is_finite && !deep ==> why is Some && why->0 is NoDepthSpread
                && why->0->relative_spread == e.spread->0.measured
            &&& enough && e.is_finite && deep && !varies ==> why is Some
                && why->0 is NoPredictedSpread
            &&& enough && e.is_finite && deep && varies && !agrees ==> why is Some
                && why->0 is Inconsistent && why->0->residual_ratio == e.residual->0.measured
            &&& enough && e.is_finite && deep && varies && agrees && !usable ==> why is Some
                && why->0 is Degenerate
            &&& enough && e.is_finite && deep && varies && agrees && usable && !precise
                ==> why is Some && why->0 is Imprecise && why->0->relative_stddev
                == e.precision->0.measured
            &&& why is None <==> enough && e.is_finite && deep && varies && agrees && usable
                && precise
        }),
{
}

} // verus!
