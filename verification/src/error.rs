//! Why a surface was rejected.

use vstd::prelude::*;
use crate::format::ImageFormat;

verus! {

/// The reasons for which a surface, or the buffer that comes with it, is rejected.
/// Every one of them is found before any buffer is allocated or any block is
/// encoded or decoded.
#[derive(Debug, Clone, Copy, PartialEq, Eq, Structural)]
pub enum SurfaceError {
    /// One of the dimensions is zero.
    ZeroSizedSurface { width: u32, height: u32, depth: u32 },
    /// The number of pixels or bytes does not fit the integers that hold sizes.
    PixelCountWouldOverflow { width: u32, height: u32, depth: u32 },
    /// The dimensions are not whole multiples of the format's block dimensions.
    NonIntegralDimensionsInBlocks {
        width: u32,
        height: u32,
        depth: u32,
        block_width: u32,
        block_height: u32,
    },
    /// The buffer holds fewer elements than the dimensions call for.
    NotEnoughData { expected: usize, actual: usize },
    /// The function that was asked has no encoder or decoder for the format.
    UnsupportedFormat { format: ImageFormat },
}

/// The error of the surface encoder.
pub type CompressSurfaceError = SurfaceError;

} // verus!
