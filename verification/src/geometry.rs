//! Plain geometric values: points, path commands, and drawable segments.
//!
//! Coordinates are fixed-point integers.  A caller that works in some other
//! unit (say fractional device pixels) picks a scale, multiplies its
//! coordinates by that scale before building paths, and interprets every
//! tolerance in the same unit.

use vstd::prelude::*;

verus! {

/// A 2D position in fixed-point coordinates.
#[derive(Clone, Copy, Debug, PartialEq, Eq, Structural)]
pub struct Point {
    pub x: i32,
    pub y: i32,
}

/// One command of a path-event stream.
///
/// A stream is an ordered, finite sequence of these commands.  A subpath is
/// the maximal run of edges from one `MoveTo` up to the next `MoveTo`, a
/// `Close`, or the end of the stream.
#[derive(Clone, Copy, Debug, PartialEq, Eq, Structural)]
pub enum QuadraticEvent {
    /// Start a new subpath at the given position.
    MoveTo(Point),
    /// Extend the current subpath by a straight edge to the given position.
    LineTo(Point),
    /// Extend the current subpath by a quadratic curve with the given
    /// control point, ending at the given position.
    QuadraticTo(Point, Point),
    /// Close the current subpath with a straight edge back to its start.
    Close,
}

/// A straight edge between two points.
#[derive(Clone, Copy, Debug, PartialEq, Eq, Structural)]
pub struct LineSegment {
    pub from: Point,
    pub to: Point,
}

/// A quadratic Bezier edge with one off-curve control point.
#[derive(Clone, Copy, Debug, PartialEq, Eq, Structural)]
pub struct QuadraticBezierSegment {
    pub from: Point,
    pub ctrl: Point,
    pub to: Point,
}

/// One atomic drawable segment.
#[derive(Clone, Copy, Debug, PartialEq, Eq, Structural)]
pub enum Segment {
    Line(LineSegment),
    Quadratic(QuadraticBezierSegment),
}

} // verus!
