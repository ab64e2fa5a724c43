//! Freehand stroke sampling on an integer canvas.
//!
//! A pointer gesture (press, moves, release) is turned into an ordered run of
//! points in which consecutive points lie farther apart than a chosen
//! threshold, together with the axis-aligned rectangle that encloses it.
//! Everything here is plain data and arithmetic: the caller owns the window,
//! the event loop and whatever draws the resulting shapes.

pub mod bounds;
pub mod line;
pub mod point;
pub mod state;
