//! Path operations and rendering options.

use vstd::prelude::*;

verus! {

/// One step of a path, with coordinates in subunits of 1/256 pixel.
///
/// Operations arrive in order; `PenWidth` changes the pen width carried by
/// every later point until it is changed again.
#[derive(Clone, Copy, PartialEq, Eq, Structural, Debug)]
pub enum PathOp {
    /// Close the current sub-path, joining its end to its start.
    Close(),
    /// Begin a new sub-path at the given point.
    Move(i32, i32),
    /// A straight segment from the pen to the given point.
    Line(i32, i32),
    /// A quadratic spline: control point, then end point.
    Quad(i32, i32, i32, i32),
    /// A cubic spline: two control points, then end point.
    Cubic(i32, i32, i32, i32, i32, i32),
    /// Set the pen width, in subunits.
    PenWidth(i32),
}

/// How accumulated signed area resolves to coverage.
#[derive(Clone, Copy, PartialEq, Eq, Structural, Debug)]
pub enum FillRule {
    /// Clamp the magnitude of the winding to one pixel's area.
    NonZero,
    /// Fold the winding through a triangle wave so overlaps alternate.
    EvenOdd,
}

/// Geometry inserted between consecutive stroke offset segments.
#[derive(Clone, Copy, PartialEq, Eq, Structural, Debug)]
pub enum JoinStyle {
    /// Extend both segments to their intersection, unless the corner is
    /// sharper than the limit (in subunits) allows; then bevel.
    Miter(i32),
    /// Cut the corner flat between the two offset endpoints.
    Bevel,
    /// Approximate a circular arc between the two offset endpoints.
    Round,
}

/// Traversal direction along a sub-path.
#[derive(Clone, Copy, PartialEq, Eq, Structural, Debug)]
pub enum Direction {
    Forward,
    Reverse,
}

} // verus!
