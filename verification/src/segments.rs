//! Segment decomposition: consumes any path-command stream and emits the
//! discrete drawable segments it describes, filtering degenerate edges.
//!
//! For example, the path commands `[MoveTo(A), LineTo(B), LineTo(C), Close]`
//! become `[Line(A, B), Line(B, C), Line(C, A)]`.  This stage is the single
//! chokepoint guaranteeing that a downstream tessellator never receives a
//! zero or near-zero-length edge.

use vstd::math::abs;
use vstd::prelude::*;

use crate::geometry::{LineSegment, Point, QuadraticBezierSegment, QuadraticEvent, Segment};

verus! {

/// Two points are sufficiently far apart when they differ by more than the
/// tolerance along either axis.
pub open spec fn far_apart(a: Point, b: Point, tolerance: int) -> bool {
    abs(a.x - b.x) > tolerance || abs(a.y - b.y) > tolerance
}

/// The subpath ordinal after one more `MoveTo`: ordinals count `MoveTo`
/// commands seen so far, starting at zero from the initial ordinal.
pub open spec fn next_ordinal(ordinal: u32) -> u32 {
    if ordinal == u32::MAX {
        0
    } else {
        (ordinal + 1) as u32
    }
}

/// The (segment, subpath-ordinal) pairs a command sequence decomposes to,
/// given the current subpath ordinal, the last emitted point, the current
/// subpath's start point, and the degeneracy tolerance.
///
/// An edge is emitted only when its destination is sufficiently far from
/// the current point; a suppressed edge leaves the current point unchanged,
/// so a run of sub-tolerance steps accumulates relative to the last emitted
/// point.  `Close` synthesizes an implicit line back to the subpath's start
/// point, subject to the same filter; emitted or not, the current point
/// then becomes the start point.
pub open spec fn decompose(
    events: Seq<QuadraticEvent>,
    ordinal: u32,
    current: Point,
    start: Point,
    tolerance: int,
) -> Seq<(Segment, u32)>
    decreases events.len(),
{
    if events.len() == 0 {
        Seq::empty()
    } else {
        let rest = events.drop_first();
        match events[0] {
            QuadraticEvent::MoveTo(p) => decompose(rest, next_ordinal(ordinal), p, p, tolerance),
            QuadraticEvent::LineTo(to) => if far_apart(current, to, tolerance) {
                seq![(Segment::Line(LineSegment { from: current, to }), ordinal)] + decompose(
                    rest,
                    ordinal,
                    to,
                    start,
                    tolerance,
                )
            } else {
                decompose(rest, ordinal, current, start, tolerance)
            },
            QuadraticEvent::QuadraticTo(ctrl, to) => if far_apart(current, to, tolerance) {
                seq![
                    (Segment::Quadratic(QuadraticBezierSegment { from: current, ctrl, to }), ordinal),
                ] + decompose(rest, ordinal, to, start, tolerance)
            } else {
                decompose(rest, ordinal, current, start, tolerance)
            },
            QuadraticEvent::Close => if far_apart(current, start, tolerance) {
                seq![(Segment::Line(LineSegment { from: current, to: start }), ordinal)]
                    + decompose(rest, ordinal, start, start, tolerance)
            } else {
                decompose(rest, ordinal, start, start, tolerance)
            },
        }
    }
}

/// Whether two points differ by more than the tolerance along either axis.
fn points_are_sufficiently_far_apart(point_a: &Point, point_b: &Point, tolerance: i64) -> (r: bool)
    ensures
        r == far_apart(*point_a, *point_b, tolerance as int),
{
    let dx = point_a.x as i64 - point_b.x as i64;
    let dy = point_a.y as i64 - point_b.y as i64;
    let adx = if dx < 0 {
        -dx
    } else {
        dx
    };
    let ady = if dy < 0 {
        -dy
    } else {
        dy
    };
    adx > tolerance || ady > tolerance
}

/// Yields the `Segment`s corresponding to a list of path commands.
///
/// The subpath ordinal attached to each segment counts `MoveTo` commands
/// seen so far, starting at zero, independent of any path-buffer subpath
/// index.
pub struct QuadraticSegments {
    events: Vec<QuadraticEvent>,
    cursor: usize,
    current_subpath_index: u32,
    current_point: Point,
    current_subpath_start_point: Point,
    tolerance: i64,
}

impl QuadraticSegments {
    /// Internal consistency: the cursor lies within the command sequence.
    pub closed spec fn wf(self) -> bool {
        self.cursor <= self.events@.len()
    }

    /// The (segment, subpath-ordinal) pairs this stream has yet to produce.
    pub closed spec fn remaining(self) -> Seq<(Segment, u32)> {
        decompose(
            self.events@.skip(self.cursor as int),
            self.current_subpath_index,
            self.current_point,
            self.current_subpath_start_point,
            self.tolerance as int,
        )
    }

    /// Creates a new path segment stream that will yield path segments from
    /// the given collection of path commands, suppressing every edge whose
    /// endpoints differ by no more than `tolerance` along both axes.
    pub fn new(events: Vec<QuadraticEvent>, tolerance: i64) -> (r: QuadraticSegments)
        ensures
            r.wf(),
            r.remaining() == decompose(
                events@,
                u32::MAX,
                (Point { x: 0, y: 0 }),
                (Point { x: 0, y: 0 }),
                tolerance as int,
            ),
    {
        let ghost events0 = events@;
        let r = QuadraticSegments {
            events,
            cursor: 0,
            current_subpath_index: u32::MAX,
            current_point: Point { x: 0, y: 0 },
            current_subpath_start_point: Point { x: 0, y: 0 },
            tolerance,
        };
        proof {
            assert(r.events@.skip(0) =~= events0);
        }
        r
    }

    /// Produces the next segment, or `None` once the commands are spent.
    pub fn next(&mut self) -> (r: Option<(Segment, u32)>)
        requires
            old(self).wf(),
        ensures
            final(self).wf(),
            match r {
                Option::None => old(self).remaining().len() == 0 && final(self).remaining().len()
                    == 0,
                Option::Some(s) => old(self).remaining().len() > 0 && s == old(self).remaining()[0]
                    && final(self).remaining() == old(self).remaining().drop_first(),
            },
    {
        loop
            invariant
                self.wf(),
                self.remaining() == old(self).remaining(),
            decreases self.events.len() - self.cursor,
        {
            if self.cursor == self.events.len() {
                proof {
                    assert(self.events@.skip(self.cursor as int) =~= Seq::<QuadraticEvent>::empty());
                }
                return None;
            }
            let event = self.events[self.cursor];
            let ghost rem_pre = self.remaining();
            let ghost suffix = self.events@.skip(self.cursor as int);
            let ghost tail = self.events@.skip(self.cursor as int + 1);
            proof {
                assert(suffix[0] == self.events@[self.cursor as int]);
                assert(suffix.drop_first() =~= tail);
            }
            self.cursor += 1;
            match event {
                QuadraticEvent::MoveTo(point) => {
                    self.current_subpath_index = if self.current_subpath_index == u32::MAX {
                        0
                    } else {
                        self.current_subpath_index + 1
                    };
                    self.current_point = point;
                    self.current_subpath_start_point = point;
                },
                QuadraticEvent::LineTo(to) => {
                    if points_are_sufficiently_far_apart(&self.current_point, &to, self.tolerance) {
                        let from = self.current_point;
                        self.current_point = to;
                        proof {
                            assert(rem_pre[0] == (
                                Segment::Line(LineSegment { from, to }),
                                self.current_subpath_index,
                            ));
                            assert(rem_pre.drop_first() =~= self.remaining());
                        }
                        return Some(
                            (Segment::Line(LineSegment { from, to }), self.current_subpath_index),
                        );
                    }
                },
                QuadraticEvent::QuadraticTo(ctrl, to) => {
                    if points_are_sufficiently_far_apart(&self.current_point, &to, self.tolerance) {
                        let from = self.current_point;
                        self.current_point = to;
                        proof {
                            assert(rem_pre[0] == (
                                Segment::Quadratic(QuadraticBezierSegment { from, ctrl, to }),
                                self.current_subpath_index,
                            ));
                            assert(rem_pre.drop_first() =~= self.remaining());
                        }
                        return Some(
                            (
                                Segment::Quadratic(QuadraticBezierSegment { from, ctrl, to }),
                                self.current_subpath_index,
                            ),
                        );
                    }
                },
                QuadraticEvent::Close => {
                    let to = self.current_subpath_start_point;
                    let from = self.current_point;
                    self.current_point = to;
                    if points_are_sufficiently_far_apart(&from, &to, self.tolerance) {
                        proof {
                            assert(rem_pre[0] == (
                                Segment::Line(LineSegment { from, to }),
                                self.current_subpath_index,
                            ));
                            assert(rem_pre.drop_first() =~= self.remaining());
                        }
                        return Some(
                            (Segment::Line(LineSegment { from, to }), self.current_subpath_index),
                        );
                    }
                },
            }
        }
    }

    /// Drains the stream, returning every segment it had yet to produce.
    pub fn collect_remaining(&mut self) -> (r: Vec<(Segment, u32)>)
        requires
            old(self).wf(),
        ensures
            final(self).wf(),
            r@ == old(self).remaining(),
            final(self).remaining().len() == 0,
    {
        let mut out: Vec<(Segment, u32)> = Vec::new();
        loop
            invariant
                self.wf(),
                out@ + self.remaining() == old(self).remaining(),
            decreases self.remaining().len(),
        {
            let next_segment = self.next();
            match next_segment {
                Some(s) => {
                    out.push(s);
                    proof {
                        assert(out@ + self.remaining() =~= old(self).remaining());
                    }
                },
                None => {
                    proof {
                        assert(out@ =~= old(self).remaining());
                    }
                    return out;
                },
            }
        }
    }
}

} // verus!
