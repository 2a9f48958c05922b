//! Detector proposals: a box, a confidence score and a symbology class.

use vstd::prelude::*;
use crate::geometry::Rect;

verus! {

broadcast use vstd::string::group_string_axioms;

/// Fixed-point denominator for confidence scores: a score `s` stands for the
/// confidence `s / SCORE_SCALE`, so valid scores and score thresholds lie in
/// `[0, SCORE_SCALE]`.
pub const SCORE_SCALE: u32 = 1000;

/// Class id of the linear (one-dimensional) barcode family.
pub const LINEAR_CLASS: i32 = 0;

/// Class id of the matrix (two-dimensional) code family, such as QR codes.
pub const MATRIX_CLASS: i32 = 1;

/// One detector proposal: an axis-aligned box, a fixed-point confidence
/// score and a class id.
#[derive(Clone, Copy, PartialEq, Eq, Structural, Debug)]
pub struct Detection {
    pub rect: Rect,
    pub score: u32,
    pub class_id: i32,
}

/// Display name of a class id; ids outside the known families map to the
/// empty string.
pub open spec fn spec_class_name(c: i32) -> Seq<char> {
    if c == LINEAR_CLASS {
        "barcode"@
    } else if c == MATRIX_CLASS {
        "qrcode"@
    } else {
        ""@
    }
}

impl Detection {
    /// Human-readable name of this detection's class; empty for a class id
    /// outside the known families.
    pub fn class(&self) -> (r: String)
        ensures
            r@ == spec_class_name(self.class_id),
    {
        if self.class_id == LINEAR_CLASS {
            "barcode".to_string()
        } else if self.class_id == MATRIX_CLASS {
            "qrcode".to_string()
        } else {
            "".to_string()
        }
    }
}

} // verus!
