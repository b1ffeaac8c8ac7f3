//! Fixed parameters of the drawing surface.

use vstd::prelude::*;

verus! {

/// Width of the pixel grid: the first index of the grid runs over `0..DRAWPAD_W`.
pub const DRAWPAD_W: usize = 128;

/// Height of the pixel grid: the second index of the grid runs over `0..DRAWPAD_H`.
pub const DRAWPAD_H: usize = 128;

/// Side of the eraser brush of a fresh figure, in pixels.
pub const ERASER_SIZE: u8 = 16;

/// Number of frames in one chunk sent to the peers.
pub const CHUNK_FRAMES: usize = 15;

/// Period of the frame tick, in milliseconds.
pub const TICK_MS: u32 = 17;

/// Screen pixels per grid cell: the surface is shown magnified by this factor.
pub const SCREEN_SCALE: i32 = 4;

} // verus!
