//! The progress-bar geometry a build driver prints from: the left
//! padding, the bar width, and the total the progress is measured
//! against. Drawing the bar is terminal work and lives with the caller.

use vstd::prelude::*;

verus! {

/// The fixed geometry of one progress bar.
pub struct Bar {
    pub left_pad: usize,
    pub bar_width: usize,
    pub max: usize,
}

impl Bar {
    /// A bar for a terminal `width` columns wide, measuring progress
    /// towards `max`: a tenth of the width pads the left, half of it
    /// carries the bar.
    pub fn new(width: usize, max: usize) -> (bar: Bar)
        ensures
            bar.left_pad == width / 10,
            bar.bar_width == width / 2,
            bar.max == max,
    {
        Bar { left_pad: width / 10, bar_width: width / 2, max }
    }
}

} // verus!
