//! Verified core of a monocular tracking and metric-scale stack.

pub mod count;
pub mod fiducial;
pub mod order;
pub mod raster;
pub mod scale;
pub mod track;
