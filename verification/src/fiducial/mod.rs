//! Square fiducial markers: binarisation, segmentation, decoding.

use vstd::prelude::*;

pub mod code36h11;
pub mod detect;
pub mod quad;
pub mod render;
pub mod segment;
pub mod threshold;

verus! {

/// Which marker family to look for.
#[derive(Debug, Clone, Copy, PartialEq, Eq, Hash, Structural)]
pub enum TagFamily {
    /// AprilTag 36h11: a 6x6 payload inside a one-cell black border.
    AprilTag36h11,
}

impl TagFamily {
    /// The string form used by the public API.
    pub fn as_str(self) -> (name: &'static str)
        ensures
            name@ == "apriltag36h11"@,
    {
        match self {
            TagFamily::AprilTag36h11 => "apriltag36h11",
        }
    }

    /// Parse the public API's string form.
    pub fn from_str(s: &str) -> (family: Option<TagFamily>)
        ensures
            family == (if s@ == "apriltag36h11"@ || s@ == "tag36h11"@ {
                Some(TagFamily::AprilTag36h11)
            } else {
                None
            }),
    {
        let name: String = s.to_owned();
        if name == "apriltag36h11".to_owned() || name == "tag36h11".to_owned() {
            Some(TagFamily::AprilTag36h11)
        } else {
            None
        }
    }
}

} // verus!
