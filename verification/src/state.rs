//! The frame that a display shows: a buffer of pixels and its dimensions.

use vstd::prelude::*;
use crate::bands::render_bands;
use crate::grid::{buffer_size, valid_bounds, CHANNELS};
use crate::render::{rendered_by, samples_all};

verus! {

/// A frame of `width` by `height` pixels, four bytes each, rows from the top.
pub struct GameState {
    pub pixels: Vec<u8>,
    pub width: usize,
    pub height: usize,
}

impl GameState {
    /// The buffer has the length that the dimensions ask for.
    pub open spec fn wf(&self) -> bool {
        &&& valid_bounds((self.width, self.height))
        &&& self.pixels@.len() == buffer_size((self.width, self.height))
    }

    /// A black, transparent frame for a window of the given size.
    pub fn new(window_width: usize, window_height: usize) -> (state: GameState)
        requires
            valid_bounds((window_width, window_height)),
        ensures
            state.wf(),
            state.width == window_width,
            state.height == window_height,
            forall|i: int| 0 <= i < state.pixels@.len() ==> state.pixels@[i] == 0,
    {
        proof {
            assert(window_width * window_height <= window_width * window_height * 4)
                by (nonlinear_arith);
        }
        let pixels: Vec<u8> = vec![0u8; window_width * window_height * CHANNELS];
        GameState { pixels, width: window_width, height: window_height }
    }

    /// Width and height of the frame, in pixels.
    pub fn bounds(&self) -> (bounds: (usize, usize))
        ensures
            bounds == (self.width, self.height),
    {
        (self.width, self.height)
    }

    /// Whether the buffer has the length that the dimensions ask for.
    pub fn is_well_formed(&self) -> (ok: bool)
        ensures
            ok == self.wf(),
    {
        match crate::grid::buffer_len((self.width, self.height)) {
            Some(len) => self.pixels.len() == len,
            None => false,
        }
    }

    /// Draws the frame anew, one band to each row of pixels, from the top down.
    /// The dimensions stay; the buffer holds the rendering of the whole grid.
    pub fn draw<F: Fn(usize, usize) -> Option<usize>>(&mut self, sample: F)
        requires
            old(self).wf(),
            samples_all(sample, (old(self).width, old(self).height)),
        ensures
            final(self).wf(),
            final(self).width == old(self).width,
            final(self).height == old(self).height,
            rendered_by(sample, (old(self).width, old(self).height), final(self).pixels@),
    {
        let bounds = (self.width, self.height);
        render_bands(self.pixels.as_mut_slice(), bounds, 1, sample);
    }
}

} // verus!
