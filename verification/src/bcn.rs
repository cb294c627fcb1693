//! The block-compressed formats: tiles of 4x4 pixels in blocks of 8 or 16 bytes.

use vstd::prelude::*;

pub mod decode;
pub mod encode;

verus! {

/// The width of a tile in pixels.
pub const BLOCK_WIDTH: usize = 4;

/// The height of a tile in pixels.
pub const BLOCK_HEIGHT: usize = 4;

/// The number of channels of a pixel before encoding and after decoding.
pub const CHANNELS: usize = 4;

/// The number of channel values in one tile.
pub const ELEMENTS_PER_BLOCK: usize = 64;

/// Color with one bit of alpha, 8 bytes per block.
pub struct Bc1;

/// Color as in `Bc3` with four bits of alpha per pixel, 16 bytes per block.
pub struct Bc2;

/// Color with interpolated alpha, 16 bytes per block.
pub struct Bc3;

/// A single interpolated channel, 8 bytes per block.
pub struct Bc4;

/// Two interpolated channels, 16 bytes per block.
pub struct Bc5;

/// Half precision floating point color, 16 bytes per block.
pub struct Bc6;

/// Color and alpha in one of eight modes, 16 bytes per block.
pub struct Bc7;

} // verus!
