use crate::point::{lemma_sweep_cmp_flip, sweep_cmp, Point};
use std::cmp::Ordering;
use vstd::prelude::*;

verus! {

/// A segment between two distinct points, stored with its endpoint that the
/// sweep meets first (`upper`, the greater in sweep order) before the other.
#[derive(Clone, Copy, Debug, PartialEq, Eq, Structural)]
pub struct LineSegment {
    pub upper: Point,
    pub lower: Point,
}

impl LineSegment {
    /// Orders the two endpoints for the sweep; `None` when they are the same
    /// point of the plane, so that no zero-length segment reaches the sweep.
    pub fn new(a: Point, b: Point) -> (r: Option<LineSegment>)
        ensures
            r is None <==> sweep_cmp(a, b) == Ordering::Equal,
            r matches Some(s) ==> {
                &&& sweep_cmp(s.upper, s.lower) == Ordering::Greater
                &&& (s.upper == a && s.lower == b) || (s.upper == b && s.lower == a)
            },
    {
        proof {
            lemma_sweep_cmp_flip(a, b);
        }
        match a.cmp(&b) {
            Ordering::Equal => None,
            Ordering::Greater => Some(LineSegment { upper: a, lower: b }),
            Ordering::Less => Some(LineSegment { upper: b, lower: a }),
        }
    }
}

} // verus!
