//! Stroke-width measurement of a filled outline by geometric probing.
//!
//! A shape is a list of closed contours of lines and quadratic curves on an
//! integer lattice; it is inked where its winding number is not zero. A
//! [`WidthReader`] probes the ink with long lines, cuts them into ribs that
//! run through ink, and fits a circle about the midpoint of each rib: the
//! diameters of the circles are the width estimates, and the least and the
//! greatest of them are the result.
//!
//! Coordinates are whole lattice steps. The caller chooses how many steps
//! make one unit of the shape: the more, the finer the measurement.
//! Parameters along a line or a curve are billionths. All arithmetic is
//! exact integer arithmetic, so a measurement is a function of the shape
//! alone.
//!
//! Winding numbers, the crossings of a line with a segment and the box of
//! a segment come from `kurbo`: the three functions that call it are the
//! only code in this crate that is trusted rather than proved. What a
//! straight line contributes to a winding number, and its box, are stated
//! in full; of curves and of crossings the results are named, not stated.

pub mod error;
pub mod fixed;
pub mod geometry;
pub mod contour;
pub mod pen;
pub mod classifier;
pub mod tangent;
pub mod bounds;
pub mod polygon;
pub mod centroid;
pub mod trig;
pub mod extract;
pub mod fit;
pub mod candidates;
pub mod probe;
pub mod radial;
pub mod perpendicular;
pub mod reader;
pub mod locations;

pub use crate::candidates::WidthCandidates;
pub use crate::classifier::Shape;
pub use crate::error::MeasureError;
pub use crate::geometry::{Line, Point, Segment, Vector};
pub use crate::locations::{locations_of_interest, normalization_scale};
pub use crate::reader::{Strategy, WidthReader};
