//! The closed set of surface formats and the fixed facts about each of them.

use vstd::prelude::*;

verus! {

/// How the channels of a format are to be read.
#[derive(Debug, Clone, Copy, PartialEq, Eq, Structural)]
pub enum ChannelKind {
    /// Unsigned integers mapped linearly to `0.0..=1.0`.
    Unorm,
    /// Signed integers mapped linearly to `-1.0..=1.0`.
    Snorm,
    /// Floating point values.
    Float,
    /// Unsigned integers holding gamma encoded color.
    Srgb,
}

/// A surface format: how the bytes of one block are laid out.
#[derive(Debug, Clone, Copy, PartialEq, Eq, Structural)]
pub enum ImageFormat {
    R8Unorm,
    R8G8B8A8Unorm,
    R8G8B8A8Srgb,
    R32G32B32A32Float,
    B8G8R8A8Unorm,
    B8G8R8A8Srgb,
    BC1Unorm,
    BC1Srgb,
    BC2Unorm,
    BC2Srgb,
    BC3Unorm,
    BC3Srgb,
    BC4Unorm,
    BC4Snorm,
    BC5Unorm,
    BC5Snorm,
    BC6Ufloat,
    BC6Sfloat,
    BC7Unorm,
    BC7Srgb,
}

/// How much time an encoder may spend looking for a better block.
#[derive(Debug, Clone, Copy, PartialEq, Eq, Structural)]
pub enum Quality {
    Fast,
    Normal,
    Slow,
}

/// Where the mip levels of an encoded surface come from, and how many there are.
#[derive(Debug, Clone, Copy, PartialEq, Eq, Structural)]
pub enum Mipmaps {
    /// Only the base level.
    Disabled,
    /// As many levels as the source surface has, each taken from it.
    FromSurface,
    /// The given number of levels, each below the base generated from the one above.
    GeneratedExact(u32),
    /// Levels generated down to a single pixel.
    GeneratedAutomatic,
}

impl ImageFormat {
    /// Whether the format stores 4x4 tiles in compressed blocks.
    pub open spec fn is_bcn(self) -> bool {
        !(self is R8Unorm || self is R8G8B8A8Unorm || self is R8G8B8A8Srgb
            || self is R32G32B32A32Float || self is B8G8R8A8Unorm || self is B8G8R8A8Srgb)
    }

    /// The block's width, height and depth in pixels.
    pub open spec fn spec_block_dimensions(self) -> (u32, u32, u32) {
        if self.is_bcn() {
            (4u32, 4u32, 1u32)
        } else {
            (1u32, 1u32, 1u32)
        }
    }

    /// The number of bytes that one block takes.
    pub open spec fn spec_block_size_in_bytes(self) -> usize {
        match self {
            ImageFormat::R8Unorm => 1,
            ImageFormat::R8G8B8A8Unorm | ImageFormat::R8G8B8A8Srgb => 4,
            ImageFormat::B8G8R8A8Unorm | ImageFormat::B8G8R8A8Srgb => 4,
            ImageFormat::R32G32B32A32Float => 16,
            ImageFormat::BC1Unorm | ImageFormat::BC1Srgb => 8,
            ImageFormat::BC4Unorm | ImageFormat::BC4Snorm => 8,
            _ => 16,
        }
    }

    /// The number of channels that a decoded pixel of the format carries.
    pub open spec fn spec_channels(self) -> usize {
        match self {
            ImageFormat::R8Unorm | ImageFormat::BC4Unorm | ImageFormat::BC4Snorm => 1,
            ImageFormat::BC5Unorm | ImageFormat::BC5Snorm => 2,
            ImageFormat::BC6Ufloat | ImageFormat::BC6Sfloat => 3,
            _ => 4,
        }
    }

    /// How the channels are to be read.
    pub open spec fn spec_channel_layout(self) -> ChannelKind {
        match self {
            ImageFormat::R8G8B8A8Srgb
            | ImageFormat::B8G8R8A8Srgb
            | ImageFormat::BC1Srgb
            | ImageFormat::BC2Srgb
            | ImageFormat::BC3Srgb
            | ImageFormat::BC7Srgb => ChannelKind::Srgb,
            ImageFormat::BC4Snorm | ImageFormat::BC5Snorm => ChannelKind::Snorm,
            ImageFormat::R32G32B32A32Float
            | ImageFormat::BC6Ufloat
            | ImageFormat::BC6Sfloat => ChannelKind::Float,
            _ => ChannelKind::Unorm,
        }
    }

    /// The block's width, height and depth in pixels: 4x4x1 for the
    /// block-compressed formats, a single pixel for the others.
    #[verifier::when_used_as_spec(spec_block_dimensions)]
    pub fn block_dimensions(self) -> (dims: (u32, u32, u32))
        ensures
            dims == self.spec_block_dimensions(),
            dims.0 == 1 || dims.0 == 4,
            dims.1 == dims.0,
            dims.2 == 1,
    {
        match self {
            ImageFormat::R8Unorm
            | ImageFormat::R8G8B8A8Unorm
            | ImageFormat::R8G8B8A8Srgb
            | ImageFormat::R32G32B32A32Float
            | ImageFormat::B8G8R8A8Unorm
            | ImageFormat::B8G8R8A8Srgb => (1, 1, 1),
            _ => (4, 4, 1),
        }
    }

    /// The number of bytes that one block takes.
    #[verifier::when_used_as_spec(spec_block_size_in_bytes)]
    pub fn block_size_in_bytes(self) -> (bytes: usize)
        ensures
            bytes == self.spec_block_size_in_bytes(),
            bytes == 1 || bytes == 4 || bytes == 8 || bytes == 16,
    {
        match self {
            ImageFormat::R8Unorm => 1,
            ImageFormat::R8G8B8A8Unorm | ImageFormat::R8G8B8A8Srgb => 4,
            ImageFormat::B8G8R8A8Unorm | ImageFormat::B8G8R8A8Srgb => 4,
            ImageFormat::R32G32B32A32Float => 16,
            ImageFormat::BC1Unorm | ImageFormat::BC1Srgb => 8,
            ImageFormat::BC2Unorm | ImageFormat::BC2Srgb => 16,
            ImageFormat::BC3Unorm | ImageFormat::BC3Srgb => 16,
            ImageFormat::BC4Unorm | ImageFormat::BC4Snorm => 8,
            ImageFormat::BC5Unorm | ImageFormat::BC5Snorm => 16,
            ImageFormat::BC6Ufloat | ImageFormat::BC6Sfloat => 16,
            ImageFormat::BC7Unorm | ImageFormat::BC7Srgb => 16,
        }
    }

    /// The number of channels that a decoded pixel of the format carries.
    #[verifier::when_used_as_spec(spec_channels)]
    pub fn channels(self) -> (count: usize)
        ensures
            count == self.spec_channels(),
            1 <= count <= 4,
    {
        match self {
            ImageFormat::R8Unorm | ImageFormat::BC4Unorm | ImageFormat::BC4Snorm => 1,
            ImageFormat::BC5Unorm | ImageFormat::BC5Snorm => 2,
            ImageFormat::BC6Ufloat | ImageFormat::BC6Sfloat => 3,
            _ => 4,
        }
    }

    /// How the channels are to be read.
    #[verifier::when_used_as_spec(spec_channel_layout)]
    pub fn channel_layout(self) -> (kind: ChannelKind)
        ensures
            kind == self.spec_channel_layout(),
    {
        match self {
            ImageFormat::R8G8B8A8Srgb
            | ImageFormat::B8G8R8A8Srgb
            | ImageFormat::BC1Srgb
            | ImageFormat::BC2Srgb
            | ImageFormat::BC3Srgb
            | ImageFormat::BC7Srgb => ChannelKind::Srgb,
            ImageFormat::BC4Snorm | ImageFormat::BC5Snorm => ChannelKind::Snorm,
            ImageFormat::R32G32B32A32Float
            | ImageFormat::BC6Ufloat
            | ImageFormat::BC6Sfloat => ChannelKind::Float,
            _ => ChannelKind::Unorm,
        }
    }
}

} // verus!
