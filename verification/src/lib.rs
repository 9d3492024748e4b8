//! Locating a sprite in a captured frame and tracing the path of its shot.
//!
//! The crate holds the pixel grid and its rectangular views, the packed colour
//! model, the score field and the two-pass window search that finds the tank,
//! the ballistic path of a shot and the dashed walk along that path, and the
//! reading of the numbers that set a shot by hand.

use vstd::prelude::*;

pub mod bitmap;
pub mod environment;
pub mod event_loop;
pub mod image_processing;
pub mod tank;
pub mod window_winapi;

verus! {

/// A position in a grid: the horizontal component first, the vertical second.
#[derive(Copy, Clone, Debug, PartialEq, Eq)]
pub struct Coordinate<T>(pub T, pub T);

/// An extent in a grid, a pair of lengths.
#[derive(Copy, Clone, Debug, PartialEq, Eq)]
pub struct Size<T>(pub T, pub T);

} // verus!
