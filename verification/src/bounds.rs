//! The axis-aligned rectangle around a run of points.

use vstd::prelude::*;
use crate::point::Point;

verus! {

/// A rectangle given by its corner, width and height, as a renderer takes it.
#[derive(Clone, Copy, Debug, PartialEq, Eq, Structural)]
pub struct Rect {
    pub x: i32,
    pub y: i32,
    pub w: i64,
    pub h: i64,
}

/// An axis-aligned rectangle given by two opposite corners: `min` holds the
/// smallest x and y, `max` the largest.
#[derive(Clone, Copy, Debug, PartialEq, Eq, Structural)]
pub struct BoundingRect {
    pub min: Point,
    pub max: Point,
}

impl BoundingRect {
    /// The corners are in order on both axes. A rectangle of no width or no
    /// height is in order too: it stands for a line or a single point.
    pub open spec fn wf(self) -> bool {
        self.min.x <= self.max.x && self.min.y <= self.max.y
    }

    /// `p` lies inside the rectangle or on its border.
    pub open spec fn encloses(self, p: Point) -> bool {
        self.min.x <= p.x <= self.max.x && self.min.y <= p.y <= self.max.y
    }

    /// The rectangle is the tightest one around `points`: it encloses every
    /// point, and each of its four sides passes through one of them.
    pub open spec fn bounds(self, points: Seq<Point>) -> bool {
        &&& forall|i: int| 0 <= i < points.len() ==> self.encloses(#[trigger] points[i])
        &&& exists|i: int| 0 <= i < points.len() && (#[trigger] points[i]).x == self.min.x
        &&& exists|i: int| 0 <= i < points.len() && (#[trigger] points[i]).x == self.max.x
        &&& exists|i: int| 0 <= i < points.len() && (#[trigger] points[i]).y == self.min.y
        &&& exists|i: int| 0 <= i < points.len() && (#[trigger] points[i]).y == self.max.y
    }

    pub fn new(min: Point, max: Point) -> (rect: BoundingRect)
        ensures
            rect.min == min,
            rect.max == max,
    {
        BoundingRect { min, max }
    }

    /// The rectangle as corner, width and height.
    pub fn get_rect(&self) -> (rect: Rect)
        ensures
            rect.x == self.min.x,
            rect.y == self.min.y,
            rect.w == self.max.x - self.min.x,
            rect.h == self.max.y - self.min.y,
            self.wf() ==> rect.w >= 0 && rect.h >= 0,
    {
        Rect {
            x: self.min.x,
            y: self.min.y,
            w: self.max.x as i64 - self.min.x as i64,
            h: self.max.y as i64 - self.min.y as i64,
        }
    }

    /// Decides whether `p` lies inside the rectangle or on its border.
    pub fn contains(&self, p: &Point) -> (inside: bool)
        ensures
            inside == self.encloses(*p),
    {
        self.min.x <= p.x && p.x <= self.max.x && self.min.y <= p.y && p.y <= self.max.y
    }
}

/// Computes the tightest axis-aligned rectangle around `points`, which must
/// hold at least one point.
pub fn create_bounding_rect(points: &Vec<Point>) -> (rect: BoundingRect)
    requires
        points@.len() > 0,
    ensures
        rect.bounds(points@),
        rect.wf(),
        forall|i: int|
            0 <= i < points@.len() ==> rect.min.x <= (#[trigger] points@[i]).x <= rect.max.x
                && rect.min.y <= points@[i].y <= rect.max.y,
{
    let point0 = points[0];
    let mut min_x: i32 = point0.x;
    let mut max_x: i32 = point0.x;
    let mut min_y: i32 = point0.y;
    let mut max_y: i32 = point0.y;
    let mut n: usize = 1;
    assert(points@.subrange(0, 1)[0] == point0);
    while n < points.len()
        invariant
            0 < n <= points@.len(),
            (BoundingRect {
                min: Point { x: min_x, y: min_y },
                max: Point { x: max_x, y: max_y },
            }).bounds(points@.subrange(0, n as int)),
        decreases points@.len() - n,
    {
        let ghost before = BoundingRect {
            min: Point { x: min_x, y: min_y },
            max: Point { x: max_x, y: max_y },
        };
        let point = points[n];
        if point.x < min_x {
            min_x = point.x;
        }
        if point.x > max_x {
            max_x = point.x;
        }
        if point.y < min_y {
            min_y = point.y;
        }
        if point.y > max_y {
            max_y = point.y;
        }
        proof {
            let after = BoundingRect {
                min: Point { x: min_x, y: min_y },
                max: Point { x: max_x, y: max_y },
            };
            lemma_bounds_with_one_more(points@.subrange(0, n as int), point, before, after);
            assert(points@.subrange(0, n as int).push(point) == points@.subrange(0, n + 1));
        }
        n += 1;
    }
    assert(points@.subrange(0, n as int) == points@);
    BoundingRect { min: Point { x: min_x, y: min_y }, max: Point { x: max_x, y: max_y } }
}

/// Adding a point to a run stretches its bounds just far enough to take the
/// point in.
pub proof fn lemma_bounds_with_one_more(
    points: Seq<Point>,
    p: Point,
    before: BoundingRect,
    after: BoundingRect,
)
    requires
        before.bounds(points),
        after.min.x == if p.x < before.min.x { p.x } else { before.min.x },
        after.max.x == if p.x > before.max.x { p.x } else { before.max.x },
        after.min.y == if p.y < before.min.y { p.y } else { before.min.y },
        after.max.y == if p.y > before.max.y { p.y } else { before.max.y },
    ensures
        after.bounds(points.push(p)),
{
    let more = points.push(p);
    let last = points.len() as int;
    assert(more[last] == p);
    assert forall|i: int| 0 <= i < more.len() implies after.encloses(#[trigger] more[i]) by {
        if i < last {
            assert(more[i] == points[i]);
            assert(before.encloses(points[i]));
        }
    }
    let i1 = choose|i: int| 0 <= i < points.len() && (#[trigger] points[i]).x == before.min.x;
    let i2 = choose|i: int| 0 <= i < points.len() && (#[trigger] points[i]).x == before.max.x;
    let i3 = choose|i: int| 0 <= i < points.len() && (#[trigger] points[i]).y == before.min.y;
    let i4 = choose|i: int| 0 <= i < points.len() && (#[trigger] points[i]).y == before.max.y;
    assert(more[i1] == points[i1] && more[i2] == points[i2]);
    assert(more[i3] == points[i3] && more[i4] == points[i4]);
    let j1 = if p.x < before.min.x { last } else { i1 };
    let j2 = if p.x > before.max.x { last } else { i2 };
    let j3 = if p.y < before.min.y { last } else { i3 };
    let j4 = if p.y > before.max.y { last } else { i4 };
    assert(0 <= j1 < more.len() && more[j1].x == after.min.x);
    assert(0 <= j2 < more.len() && more[j2].x == after.max.x);
    assert(0 <= j3 < more.len() && more[j3].y == after.min.y);
    assert(0 <= j4 < more.len() && more[j4].y == after.max.y);
}

/// A run of points has one tightest rectangle: any two that bound the same
/// points are equal.
pub proof fn lemma_bounds_unique(points: Seq<Point>, a: BoundingRect, b: BoundingRect)
    requires
        a.bounds(points),
        b.bounds(points),
    ensures
        a == b,
{
    let a1 = choose|i: int| 0 <= i < points.len() && (#[trigger] points[i]).x == a.min.x;
    let a2 = choose|i: int| 0 <= i < points.len() && (#[trigger] points[i]).x == a.max.x;
    let a3 = choose|i: int| 0 <= i < points.len() && (#[trigger] points[i]).y == a.min.y;
    let a4 = choose|i: int| 0 <= i < points.len() && (#[trigger] points[i]).y == a.max.y;
    let b1 = choose|i: int| 0 <= i < points.len() && (#[trigger] points[i]).x == b.min.x;
    let b2 = choose|i: int| 0 <= i < points.len() && (#[trigger] points[i]).x == b.max.x;
    let b3 = choose|i: int| 0 <= i < points.len() && (#[trigger] points[i]).y == b.min.y;
    let b4 = choose|i: int| 0 <= i < points.len() && (#[trigger] points[i]).y == b.max.y;
    assert(b.encloses(points[a1]) && b.encloses(points[a2]));
    assert(b.encloses(points[a3]) && b.encloses(points[a4]));
    assert(a.encloses(points[b1]) && a.encloses(points[b2]));
    assert(a.encloses(points[b3]) && a.encloses(points[b4]));
}

/// The bounds of a single point are the rectangle of no area whose two
/// corners are that point.
pub proof fn lemma_bounds_of_single_point(p: Point, rect: BoundingRect)
    requires
        rect.bounds(seq![p]),
    ensures
        rect.min == p,
        rect.max == p,
{
    let one = BoundingRect { min: p, max: p };
    assert(seq![p][0] == p);
    assert(one.bounds(seq![p]));
    lemma_bounds_unique(seq![p], rect, one);
}

/// The bounds of a run that holds at least one point have their corners in
/// order.
pub proof fn lemma_bounds_wf(points: Seq<Point>, rect: BoundingRect)
    requires
        rect.bounds(points),
    ensures
        rect.wf(),
{
    let i = choose|i: int| 0 <= i < points.len() && (#[trigger] points[i]).x == rect.min.x;
    assert(rect.encloses(points[i]));
}

} // verus!
