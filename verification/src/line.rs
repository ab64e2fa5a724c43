//! The stroke being drawn: an ordered, never empty run of sampled points.

use vstd::prelude::*;
use crate::bounds::{create_bounding_rect, BoundingRect};
use crate::point::{far_apart, is_far_apart, lemma_distance_to_self, Point};

verus! {

/// The points of a stroke after `candidate` was offered to it: the candidate
/// is appended when it lies farther than `min_distance` from the last point
/// kept so far, and dropped otherwise.
pub open spec fn extend_points(points: Seq<Point>, candidate: Point, min_distance: nat) -> Seq<Point>
    recommends
        points.len() > 0,
{
    if far_apart(points.last(), candidate, min_distance) {
        points.push(candidate)
    } else {
        points
    }
}

/// What to put on screen for a stroke.
#[derive(Clone, Debug, PartialEq, Eq)]
pub enum Shape {
    /// A filled dot at one position.
    Circle(Point),
    /// Connected segments through the given positions, in order.
    Line(Vec<Point>),
}

/// A `Shape` as a mathematical value.
pub enum ShapeView {
    Circle(Point),
    Line(Seq<Point>),
}

impl View for Shape {
    type V = ShapeView;

    open spec fn view(&self) -> ShapeView {
        match self {
            Shape::Circle(center) => ShapeView::Circle(*center),
            Shape::Line(points) => ShapeView::Line(points@),
        }
    }
}

/// The shape of a finished stroke: a dot where it has a single point, the
/// line through its points otherwise.
pub open spec fn finished_shape(points: Seq<Point>) -> ShapeView
    recommends
        points.len() > 0,
{
    if points.len() == 1 {
        ShapeView::Circle(points[0])
    } else {
        ShapeView::Line(points)
    }
}

/// The shape of a stroke that is still being drawn, with the pointer at
/// `pos`. While the stroke has only its first point, it is shown as a segment
/// from that point to the pointer, or as a dot when the pointer rests on it.
/// Once it has more points, it is the line through them.
pub open spec fn drag_shape(points: Seq<Point>, pos: Point) -> ShapeView
    recommends
        points.len() > 0,
{
    if points.len() == 1 {
        if points[0] != pos {
            ShapeView::Line(seq![points[0], pos])
        } else {
            ShapeView::Circle(pos)
        }
    } else {
        ShapeView::Line(points)
    }
}

/// A line is never drawn through fewer than two points, and a dot is drawn
/// only for a stroke of a single point.
pub proof fn lemma_shapes_are_drawable(points: Seq<Point>, pos: Point)
    requires
        points.len() > 0,
    ensures
        finished_shape(points) matches ShapeView::Line(through) ==> through.len() >= 2,
        drag_shape(points, pos) matches ShapeView::Line(through) ==> through.len() >= 2,
        finished_shape(points) is Circle <==> points.len() == 1,
        drag_shape(points, pos) is Circle <==> points.len() == 1 && points[0] == pos,
{
}

/// The points of a stroke after the same `candidate` was offered to it
/// `times` times in a row.
pub open spec fn extend_repeatedly(
    points: Seq<Point>,
    candidate: Point,
    min_distance: nat,
    times: nat,
) -> Seq<Point>
    recommends
        points.len() > 0,
    decreases times,
{
    if times == 0 {
        points
    } else {
        extend_points(
            extend_repeatedly(points, candidate, min_distance, (times - 1) as nat),
            candidate,
            min_distance,
        )
    }
}

/// Consecutive points lie farther apart than `min_distance`.
pub open spec fn well_spaced(points: Seq<Point>, min_distance: nat) -> bool {
    forall|i: int|
        0 < i < points.len() ==> far_apart(points[i - 1], #[trigger] points[i], min_distance)
}

/// Offering a point never removes points: the stroke before is a prefix of
/// the stroke after, which is longer by one point at most.
pub proof fn lemma_extend_keeps_points(points: Seq<Point>, candidate: Point, min_distance: nat)
    requires
        points.len() > 0,
    ensures
        points.is_prefix_of(extend_points(points, candidate, min_distance)),
        points.len() <= extend_points(points, candidate, min_distance).len() <= points.len() + 1,
        extend_points(points, candidate, min_distance).len() > 0,
{
}

/// Offering the same point twice changes nothing the second time.
pub proof fn lemma_extend_idempotent(points: Seq<Point>, candidate: Point, min_distance: nat)
    requires
        points.len() > 0,
    ensures
        extend_points(extend_points(points, candidate, min_distance), candidate, min_distance)
            == extend_points(points, candidate, min_distance),
{
    lemma_distance_to_self(candidate);
    if far_apart(points.last(), candidate, min_distance) {
        assert(points.push(candidate).last() == candidate);
    }
}

/// Offering the same point any number of times, once or more, leaves the
/// stroke as offering it once does.
pub proof fn lemma_extend_repeatedly(
    points: Seq<Point>,
    candidate: Point,
    min_distance: nat,
    times: nat,
)
    requires
        points.len() > 0,
        times >= 1,
    ensures
        extend_repeatedly(points, candidate, min_distance, times) == extend_points(
            points,
            candidate,
            min_distance,
        ),
        extend_repeatedly(points, candidate, min_distance, times).len() <= points.len() + 1,
    decreases times,
{
    if times == 1 {
        assert(extend_repeatedly(points, candidate, min_distance, 0) == points);
    } else {
        lemma_extend_repeatedly(points, candidate, min_distance, (times - 1) as nat);
        lemma_extend_idempotent(points, candidate, min_distance);
    }
}

/// A point within `min_distance` of the last one is dropped, however often
/// it is offered.
pub proof fn lemma_extend_rejects_near_point(
    points: Seq<Point>,
    candidate: Point,
    min_distance: nat,
    times: nat,
)
    requires
        points.len() > 0,
        !far_apart(points.last(), candidate, min_distance),
    ensures
        extend_repeatedly(points, candidate, min_distance, times) == points,
    decreases times,
{
    if times > 0 {
        lemma_extend_rejects_near_point(points, candidate, min_distance, (times - 1) as nat);
    }
}

/// A stroke sampled with one threshold throughout stays well spaced: a
/// single point is well spaced, and offering a point keeps it so.
pub proof fn lemma_extend_well_spaced(points: Seq<Point>, candidate: Point, min_distance: nat)
    requires
        points.len() > 0,
        well_spaced(points, min_distance),
    ensures
        well_spaced(seq![candidate], min_distance),
        well_spaced(extend_points(points, candidate, min_distance), min_distance),
{
    let after = extend_points(points, candidate, min_distance);
    assert forall|i: int| 0 < i < after.len() implies far_apart(
        after[i - 1],
        #[trigger] after[i],
        min_distance,
    ) by {
        if i < points.len() {
            assert(far_apart(points[i - 1], points[i], min_distance));
        }
    }
}

/// A stroke in progress. It holds its first point apart from the rest, so a
/// stroke without points cannot be built.
#[derive(Clone, Debug, PartialEq, Eq)]
pub struct DrawnLine {
    first: Point,
    rest: Vec<Point>,
}

impl View for DrawnLine {
    type V = Seq<Point>;

    closed spec fn view(&self) -> Seq<Point> {
        seq![self.first] + self.rest@
    }
}

impl DrawnLine {
    /// Every stroke has at least one point.
    pub proof fn lemma_never_empty(self)
        ensures
            self@.len() > 0,
    {
    }

    /// Starts a stroke at `point0`.
    pub fn new(point0: Point) -> (line: DrawnLine)
        ensures
            line@ == seq![point0],
    {
        DrawnLine { first: point0, rest: Vec::new() }
    }

    /// The first point of the stroke.
    pub fn first(&self) -> (p: Point)
        ensures
            p == self@[0],
    {
        self.first
    }

    /// Whether the stroke still consists of its first point alone.
    pub fn is_single_point(&self) -> (single: bool)
        ensures
            single == (self@.len() == 1),
    {
        self.rest.len() == 0
    }

    /// The points kept so far, in the order in which they were drawn.
    pub fn points(&self) -> (points: Vec<Point>)
        ensures
            points@ == self@,
    {
        let mut points: Vec<Point> = Vec::new();
        points.push(self.first);
        let mut i: usize = 0;
        while i < self.rest.len()
            invariant
                i <= self.rest@.len(),
                points@ == seq![self.first] + self.rest@.subrange(0, i as int),
            decreases self.rest@.len() - i,
        {
            points.push(self.rest[i]);
            i += 1;
        }
        assert(self.rest@.subrange(0, i as int) == self.rest@);
        points
    }

    /// The point kept last.
    pub fn last(&self) -> (p: Point)
        ensures
            p == self@.last(),
    {
        let n = self.rest.len();
        if n == 0 {
            self.first
        } else {
            self.rest[n - 1]
        }
    }

    /// Offers `candidate` to the stroke. It is kept, as the new last point,
    /// when it lies farther than `min_distance` from the current last point;
    /// otherwise the stroke stays as it is.
    pub fn extend(&mut self, candidate: Point, min_distance: u32)
        ensures
            final(self)@ == extend_points(old(self)@, candidate, min_distance as nat),
            old(self)@.is_prefix_of(final(self)@),
            final(self)@.len() >= old(self)@.len(),
    {
        let last = self.last();
        if is_far_apart(&last, &candidate, min_distance) {
            self.rest.push(candidate);
        }
    }

    /// Takes the pointer position `pos` during a drag: offers it to the
    /// stroke as `extend` does, and returns what to show for the stroke now.
    pub fn notify_mouse_move(&mut self, pos: Point, min_distance: u32) -> (shape: Shape)
        ensures
            final(self)@ == extend_points(old(self)@, pos, min_distance as nat),
            shape@ == drag_shape(final(self)@, pos),
            shape@ matches ShapeView::Line(through) ==> through.len() >= 2,
    {
        self.extend(pos, min_distance);
        if self.is_single_point() {
            if self.first != pos {
                let mut mouse_and_point: Vec<Point> = Vec::new();
                mouse_and_point.push(self.first);
                mouse_and_point.push(pos);
                assert(mouse_and_point@ == seq![self@[0], pos]);
                Shape::Line(mouse_and_point)
            } else {
                Shape::Circle(pos)
            }
        } else {
            Shape::Line(self.points())
        }
    }

    /// What to show for the stroke once it is finished.
    pub fn shape(&self) -> (shape: Shape)
        ensures
            shape@ == finished_shape(self@),
            shape@ matches ShapeView::Line(through) ==> through.len() >= 2,
    {
        if self.is_single_point() {
            Shape::Circle(self.first)
        } else {
            Shape::Line(self.points())
        }
    }

    /// The tightest axis-aligned rectangle around the stroke. A stroke always
    /// has a point, so it always has bounds.
    pub fn bounding_rect(&self) -> (rect: BoundingRect)
        ensures
            rect.bounds(self@),
            rect.wf(),
    {
        let points = self.points();
        create_bounding_rect(&points)
    }

    /// Ends the stroke and hands out its points, unchanged and in order.
    pub fn finish(self) -> (points: Vec<Point>)
        ensures
            points@ == self@,
            points@.len() > 0,
    {
        self.points()
    }
}

} // verus!
