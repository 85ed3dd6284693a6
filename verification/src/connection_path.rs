//! The route between two borders that are to be joined.

use crate::border::BorderId;
use crate::point::Point;
use vstd::prelude::*;

verus! {

/// A route from one border to another.
#[derive(Debug, Clone)]
pub struct ConnectionPath {
    /// The border that the path starts at.
    pub start_border_id: BorderId,
    /// The border that the path ends at.
    pub end_border_id: BorderId,
    /// The points of the path.
    pub path: ConnectionPathLength,
}

/// The points of a path, by how many they are.
///
/// Most paths are one or two tiles long; those carry no collection.
#[derive(Debug, Clone)]
pub enum ConnectionPathLength {
    /// The two borders share this one point.
    Length1 {
        /// The shared point.
        point: Point,
    },
    /// The two borders touch: the path is its two ends.
    Length2 {
        /// The end that lies on the border the path starts at.
        start: Point,
        /// The end that lies on the border the path ends at.
        end: Point,
    },
    /// A path with at least one point between its ends.
    Length3Plus {
        /// The end that lies on the border the path starts at.
        start: Point,
        /// The end that lies on the border the path ends at.
        end: Point,
        /// The points between the two ends, in no particular order, each of
        /// them once and neither of them an end.
        points: Vec<Point>,
    },
}

impl ConnectionPathLength {
    /// The points in the order in which they are drawn: the start, what
    /// lies between, the end.
    pub open spec fn points_seq(self) -> Seq<Point> {
        match self {
            ConnectionPathLength::Length1 { point } => seq![point],
            ConnectionPathLength::Length2 { start, end } => seq![start, end],
            ConnectionPathLength::Length3Plus { start, end, points } => seq![start] + points@
                + seq![end],
        }
    }
}

impl ConnectionPath {
    /// The points of the path: the start, what lies between, the end.
    pub open spec fn points_seq(self) -> Seq<Point> {
        self.path.points_seq()
    }

    /// How many points the path has.
    pub fn length(&self) -> (r: usize)
        requires
            self.points_seq().len() <= usize::MAX,
        ensures
            r == self.points_seq().len(),
    {
        match &self.path {
            ConnectionPathLength::Length1 { .. } => 1,
            ConnectionPathLength::Length2 { .. } => 2,
            ConnectionPathLength::Length3Plus { points, .. } => points.len() + 2,
        }
    }

    /// The points of the path: the start, what lies between, the end.
    pub fn iter(&self) -> (r: Vec<Point>)
        ensures
            r@ == self.points_seq(),
    {
        match &self.path {
            ConnectionPathLength::Length1 { point } => {
                let mut out: Vec<Point> = Vec::new();
                out.push(*point);
                out
            },
            ConnectionPathLength::Length2 { start, end } => {
                let mut out: Vec<Point> = Vec::new();
                out.push(*start);
                out.push(*end);
                out
            },
            ConnectionPathLength::Length3Plus { points, start, end } => {
                let mut out: Vec<Point> = Vec::new();
                out.push(*start);
                let mut i: usize = 0;
                while i < points.len()
                    invariant
                        0 <= i <= points.len(),
                        out@ == seq![*start] + points@.subrange(0, i as int),
                    decreases points.len() - i,
                {
                    out.push(points[i]);
                    assert(points@.subrange(0, i + 1) == points@.subrange(0, i as int).push(
                        points@[i as int],
                    ));
                    i += 1;
                }
                assert(points@.subrange(0, i as int) == points@);
                out.push(*end);
                assert(out@ == seq![*start] + points@ + seq![*end]);
                out
            },
        }
    }
}

} // verus!
