//! The ways a measurement can fail.

use vstd::prelude::*;

verus! {

/// Why a shape could not be measured.
#[derive(Clone, Copy, Debug, PartialEq, Eq, Structural)]
pub enum MeasureError {
    /// A cubic segment was met: its tangent is not supported.
    UnsupportedSegment,
    /// The centre of mass lies in ink, so rays cannot be cast from it.
    UnsupportedShape,
    /// Fewer than three grid samples are filled: there is no centre of mass.
    DegenerateShape,
    /// No rib admitted an inscribed circle.
    NoMeasurableStroke,
}

} // verus!
