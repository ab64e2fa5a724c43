//! The drawing as press, move and release events shape it.
//!
//! The caller runs the event loop. It hands each pointer event to the
//! matching method of `State` and draws what the method returns; the rules
//! of a gesture are all here.

use vstd::prelude::*;
use crate::line::{extend_points, finished_shape, lemma_extend_well_spaced, drag_shape};
use crate::line::{well_spaced, DrawnLine, Shape, ShapeView};
use crate::point::{lemma_distance_to_self, Point};

verus! {

/// A `State` as a mathematical value.
pub struct StateView {
    /// The points of the stroke in progress, if there is one.
    pub current: Option<Seq<Point>>,
    /// The finished strokes, oldest first.
    pub structures: Seq<Seq<Point>>,
    /// The sampling threshold of every stroke.
    pub min_distance: nat,
}

impl StateView {
    /// No stroke is without points.
    pub open spec fn wf(self) -> bool {
        &&& self.current matches Some(points) ==> points.len() > 0
        &&& forall|i: int| 0 <= i < self.structures.len() ==> (#[trigger] self.structures[i]).len() > 0
    }

    /// In every stroke, consecutive points lie farther apart than the
    /// sampling threshold.
    pub open spec fn well_spaced(self) -> bool {
        &&& self.current matches Some(points) ==> well_spaced(points, self.min_distance)
        &&& forall|i: int|
            0 <= i < self.structures.len() ==> well_spaced(
                #[trigger] self.structures[i],
                self.min_distance,
            )
    }

    /// A drawing without strokes.
    pub open spec fn empty(min_distance: nat) -> StateView {
        StateView { current: None, structures: Seq::empty(), min_distance }
    }

    /// The button goes down at `pos`: a stroke begins there. A stroke that
    /// was still in progress is given up.
    pub open spec fn press(self, pos: Point) -> StateView {
        StateView {
            current: Some(seq![pos]),
            structures: self.structures,
            min_distance: self.min_distance,
        }
    }

    /// The pointer moves to `pos`: the stroke in progress is offered the
    /// position. Without a stroke in progress nothing changes.
    pub open spec fn motion(self, pos: Point) -> StateView {
        match self.current {
            Some(points) => StateView {
                current: Some(extend_points(points, pos, self.min_distance)),
                structures: self.structures,
                min_distance: self.min_distance,
            },
            None => self,
        }
    }

    /// The button goes up: the stroke in progress joins the finished ones,
    /// as it is. Without a stroke in progress nothing changes.
    pub open spec fn release(self) -> StateView {
        match self.current {
            Some(points) => StateView {
                current: None,
                structures: self.structures.push(points),
                min_distance: self.min_distance,
            },
            None => self,
        }
    }
}

/// The drawing: the finished strokes and the one in progress, if any.
#[derive(Debug)]
pub struct State {
    current_struct: Option<DrawnLine>,
    structures: Vec<DrawnLine>,
    min_distance: u32,
}

impl View for State {
    type V = StateView;

    closed spec fn view(&self) -> StateView {
        StateView {
            current: match self.current_struct {
                Some(line) => Some(line@),
                None => None,
            },
            structures: Seq::new(self.structures@.len(), |i: int| self.structures@[i]@),
            min_distance: self.min_distance as nat,
        }
    }
}

impl State {
    /// No stroke of a drawing is without points.
    pub proof fn lemma_view_wf(self)
        ensures
            self@.wf(),
    {
        if let Some(line) = self.current_struct {
            line.lemma_never_empty();
        }
        assert forall|i: int| 0 <= i < self@.structures.len() implies (
        #[trigger] self@.structures[i]).len() > 0 by {
            self.structures@[i].lemma_never_empty();
        }
    }

    /// An empty drawing whose strokes will be sampled with `min_distance`.
    pub fn new(min_distance: u32) -> (state: State)
        ensures
            state@ == StateView::empty(min_distance as nat),
    {
        let state = State { current_struct: None, structures: Vec::new(), min_distance };
        assert(state@.structures == Seq::<Seq<Point>>::empty());
        state
    }

    /// Whether a stroke is in progress.
    pub fn mouse_down(&self) -> (down: bool)
        ensures
            down == self@.current.is_some(),
    {
        self.current_struct.is_some()
    }

    /// The sampling threshold.
    pub fn min_distance(&self) -> (d: u32)
        ensures
            d == self@.min_distance,
    {
        self.min_distance
    }

    /// The stroke in progress, if there is one.
    pub fn current_struct(&self) -> (current: &Option<DrawnLine>)
        ensures
            match *current {
                Some(line) => self@.current == Some(line@),
                None => self@.current.is_none(),
            },
    {
        &self.current_struct
    }

    /// The finished strokes, oldest first.
    pub fn structures(&self) -> (structures: &Vec<DrawnLine>)
        ensures
            structures@.len() == self@.structures.len(),
            forall|i: int|
                0 <= i < structures@.len() ==> (#[trigger] structures@[i])@ == self@.structures[i],
    {
        &self.structures
    }

    /// The button went down at (`x`, `y`).
    pub fn mouse_button_down_event(&mut self, x: i32, y: i32)
        ensures
            final(self)@ == old(self)@.press(Point { x, y }),
            old(self)@.structures.is_prefix_of(final(self)@.structures),
    {
        self.current_struct = Some(DrawnLine::new(Point::new(x, y)));
    }

    /// The pointer moved to (`x`, `y`). Returns what to show for the stroke in
    /// progress, or `None` when there is none.
    pub fn mouse_motion_event(&mut self, x: i32, y: i32) -> (shape: Option<Shape>)
        ensures
            final(self)@ == old(self)@.motion(Point { x, y }),
            old(self)@.structures.is_prefix_of(final(self)@.structures),
            match shape {
                Some(shape) => final(self)@.current matches Some(points) && shape@
                    == drag_shape(points, Point { x, y }),
                None => old(self)@.current.is_none(),
            },
    {
        let min_distance = self.min_distance;
        match self.current_struct.take() {
            Some(line) => {
                let mut line = line;
                let shape = line.notify_mouse_move(Point::new(x, y), min_distance);
                self.current_struct = Some(line);
                Some(shape)
            },
            None => None,
        }
    }

    /// The button went up. The stroke in progress is finished as it is, and
    /// what to show for it from now on is returned; without a stroke in
    /// progress nothing changes and `None` is returned. Where the button went
    /// up plays no part.
    pub fn mouse_button_up_event(&mut self, _x: i32, _y: i32) -> (shape: Option<Shape>)
        ensures
            final(self)@ == old(self)@.release(),
            old(self)@.structures.is_prefix_of(final(self)@.structures),
            match shape {
                Some(shape) => old(self)@.current matches Some(points) && shape@
                    == finished_shape(points),
                None => old(self)@.current.is_none(),
            },
    {
        match self.current_struct.take() {
            Some(line) => {
                let shape = line.shape();
                self.structures.push(line);
                assert(self@.structures == old(self)@.structures.push(line@));
                Some(shape)
            },
            None => None,
        }
    }
}

/// No event removes or changes a finished stroke, and only a release adds
/// one.
pub proof fn lemma_structures_append_only(s: StateView, pos: Point)
    ensures
        s.press(pos).structures == s.structures,
        s.motion(pos).structures == s.structures,
        s.structures.is_prefix_of(s.release().structures),
        s.release().structures.len() <= s.structures.len() + 1,
{
}

/// Events keep every stroke of the drawing non-empty.
pub proof fn lemma_events_keep_wf(s: StateView, pos: Point)
    requires
        s.wf(),
    ensures
        StateView::empty(s.min_distance).wf(),
        s.press(pos).wf(),
        s.motion(pos).wf(),
        s.release().wf(),
{
}

/// Events keep every stroke of the drawing well spaced: each has been
/// sampled with the drawing's own threshold from its first point on.
pub proof fn lemma_events_keep_spacing(s: StateView, pos: Point)
    requires
        s.wf(),
        s.well_spaced(),
    ensures
        StateView::empty(s.min_distance).well_spaced(),
        s.press(pos).well_spaced(),
        s.motion(pos).well_spaced(),
        s.release().well_spaced(),
{
    if let Some(points) = s.current {
        lemma_extend_well_spaced(points, pos, s.min_distance);
    }
}

/// A click adds a stroke of one point, which is shown as a dot: press and
/// release in one place, with or without a move to that place in between.
pub proof fn lemma_click_draws_dot(s: StateView, pos: Point)
    ensures
        s.press(pos).release().structures == s.structures.push(seq![pos]),
        s.press(pos).motion(pos).release().structures == s.structures.push(seq![pos]),
        s.press(pos).motion(pos).release().current.is_none(),
        finished_shape(seq![pos]) == ShapeView::Circle(pos),
{
    lemma_distance_to_self(pos);
    assert(seq![pos].last() == pos);
}

} // verus!
