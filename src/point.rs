use crate::coord::{flip, lemma_value_cmp_trans, value_cmp, Coord};
use std::cmp::Ordering;
use vstd::prelude::*;

verus! {

/// A point of the plane. Equality (and the derived hash) compare the exact
/// decompositions of both coordinates.
#[derive(Clone, Copy, Debug, PartialEq, Eq, Structural, Hash)]
pub struct Point {
    pub x: Coord,
    pub y: Coord,
}

/// Sweep order: the higher point is greater; at equal height the left-most
/// point is greater (x compared with the operands reversed).
pub open spec fn sweep_cmp(a: Point, b: Point) -> Ordering {
    match value_cmp(a.y, b.y) {
        Ordering::Equal => value_cmp(b.x, a.x),
        o => o,
    }
}

/// `a` comes no later than `b` in a max-first sweep, i.e. `a <= b`.
pub open spec fn sweep_le(a: Point, b: Point) -> bool {
    sweep_cmp(a, b) != Ordering::Greater
}

pub proof fn lemma_sweep_cmp_flip(a: Point, b: Point)
    ensures
        sweep_cmp(b, a) == flip(sweep_cmp(a, b)),
{
}

pub proof fn lemma_sweep_refl(a: Point)
    ensures
        sweep_cmp(a, a) == Ordering::Equal,
{
}

/// The sweep order is a total preorder.
pub proof fn lemma_sweep_trans(a: Point, b: Point, c: Point)
    ensures
        sweep_le(a, b) && sweep_le(b, c) ==> sweep_le(a, c),
        sweep_cmp(a, b) == Ordering::Less && sweep_le(b, c) ==> sweep_cmp(a, c) == Ordering::Less,
        sweep_le(a, b) && sweep_cmp(b, c) == Ordering::Less ==> sweep_cmp(a, c) == Ordering::Less,
{
    lemma_value_cmp_trans(a.y, b.y, c.y);
    lemma_value_cmp_trans(c.x, b.x, a.x);
}

/// A point strictly higher than another is greater, whatever the x coordinates.
pub proof fn lemma_higher_is_greater(a: Point, b: Point)
    requires
        value_cmp(a.y, b.y) == Ordering::Greater,
    ensures
        sweep_cmp(a, b) == Ordering::Greater,
{
}

/// Of two points at the same height, the left-most is greater.
pub proof fn lemma_left_most_is_greater(a: Point, b: Point)
    requires
        value_cmp(a.y, b.y) == Ordering::Equal,
        value_cmp(a.x, b.x) == Ordering::Less,
    ensures
        sweep_cmp(a, b) == Ordering::Greater,
{
}

impl Point {
    pub fn new(x: Coord, y: Coord) -> (r: Point)
        ensures
            r == (Point { x, y }),
    {
        Point { x, y }
    }

    pub fn x(&self) -> (r: Coord)
        ensures
            r == self.x,
    {
        self.x
    }

    pub fn y(&self) -> (r: Coord)
        ensures
            r == self.y,
    {
        self.y
    }

    /// Sweep order of `self` against `other`.
    pub fn cmp(&self, other: &Point) -> (r: Ordering)
        ensures
            r == sweep_cmp(*self, *other),
    {
        match self.y.value_cmp(&other.y) {
            Ordering::Greater => Ordering::Greater,
            Ordering::Less => Ordering::Less,
            Ordering::Equal => other.x.value_cmp(&self.x),
        }
    }

    /// The height order alone: agrees with `cmp` wherever the y coordinates
    /// differ, and calls points at the same height equal.
    pub fn partial_cmp(&self, other: &Point) -> (r: Option<Ordering>)
        ensures
            r == Some(value_cmp(self.y, other.y)),
    {
        Some(self.y.value_cmp(&other.y))
    }
}

} // verus!
