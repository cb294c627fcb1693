//! Surfaces: the dimensions of a texture together with the bytes of all its
//! layers and mip levels, layer after layer and, within a layer, level after
//! level from the largest down.

use vstd::prelude::*;
use crate::encode::{exceeds_encoder, spec_exceeds_encoder};
use crate::error::SurfaceError;
use crate::format::ImageFormat;
use crate::mip::{lemma_div_round_up, mip_dimension, mip_size, spec_mip_dimension, spec_mip_size};

verus! {

/// A surface in the format `image_format`.
#[derive(Debug, PartialEq, Eq)]
pub struct Surface<T> {
    /// The width of the base level in pixels.
    pub width: u32,
    /// The height of the base level in pixels.
    pub height: u32,
    /// The depth of the base level in pixels.
    pub depth: u32,
    /// The number of array layers: 6 for a cube map.
    pub layers: u32,
    /// The number of mip levels of each layer, the base level included.
    pub mipmaps: u32,
    /// The format of the blocks in `data`.
    pub image_format: ImageFormat,
    /// The blocks of every level of every layer.
    pub data: T,
}

/// A surface of pixels with the four channels red, green, blue and alpha, a byte
/// to each.
#[derive(Debug, PartialEq, Eq)]
pub struct SurfaceRgba8<T> {
    /// The width of the base level in pixels.
    pub width: u32,
    /// The height of the base level in pixels.
    pub height: u32,
    /// The depth of the base level in pixels.
    pub depth: u32,
    /// The number of array layers: 6 for a cube map.
    pub layers: u32,
    /// The number of mip levels of each layer, the base level included.
    pub mipmaps: u32,
    /// The pixels of every level of every layer.
    pub data: T,
}

/// The number of levels that a layer is laid out with: a surface has at least
/// its base level, so a count of zero is read as one.
pub open spec fn spec_level_count(mipmaps: u32) -> u32 {
    if mipmaps == 0 {
        1
    } else {
        mipmaps
    }
}

/// The size in bytes of level `mipmap` of a layer in `format`.
pub open spec fn spec_level_size(
    format: ImageFormat,
    width: u32,
    height: u32,
    depth: u32,
    mipmap: u32,
) -> int {
    spec_mip_size(
        spec_mip_dimension(width, mipmap) as int,
        spec_mip_dimension(height, mipmap) as int,
        spec_mip_dimension(depth, mipmap) as int,
        format.spec_block_dimensions().0 as int,
        format.spec_block_dimensions().1 as int,
        format.spec_block_dimensions().2 as int,
        format.spec_block_size_in_bytes() as int,
    )
}

/// The size in bytes of the first `count` levels of a layer in `format`.
pub open spec fn spec_levels_size(
    format: ImageFormat,
    width: u32,
    height: u32,
    depth: u32,
    count: nat,
) -> int
    decreases count,
{
    if count == 0 {
        0
    } else {
        spec_levels_size(format, width, height, depth, (count - 1) as nat) + spec_level_size(
            format,
            width,
            height,
            depth,
            (count - 1) as u32,
        )
    }
}

/// Where level `mipmap` of layer `layer` starts in the bytes of a surface with
/// `mipmaps` levels to a layer.
pub open spec fn spec_offset(
    format: ImageFormat,
    width: u32,
    height: u32,
    depth: u32,
    mipmaps: u32,
    layer: u32,
    mipmap: u32,
) -> int {
    layer * spec_levels_size(format, width, height, depth, mipmaps as nat) + spec_levels_size(
        format,
        width,
        height,
        depth,
        mipmap as nat,
    )
}

/// The size in bytes of all the layers of a surface.
pub open spec fn spec_surface_size(
    format: ImageFormat,
    width: u32,
    height: u32,
    depth: u32,
    layers: u32,
    mipmaps: u32,
) -> int {
    layers * spec_levels_size(format, width, height, depth, mipmaps as nat)
}

/// A level has a size of zero or more.
pub proof fn lemma_level_size_nonnegative(
    format: ImageFormat,
    width: u32,
    height: u32,
    depth: u32,
    mipmap: u32,
)
    ensures
        0 <= spec_level_size(format, width, height, depth, mipmap),
{
    let w = spec_mip_dimension(width, mipmap) as int;
    let h = spec_mip_dimension(height, mipmap) as int;
    let d = spec_mip_dimension(depth, mipmap) as int;
    let b = format.spec_block_dimensions();
    lemma_div_round_up(w, b.0 as int);
    lemma_div_round_up(h, b.1 as int);
    lemma_div_round_up(d, b.2 as int);
    crate::mip::lemma_size_ordered(
        0,
        0,
        0,
        crate::mip::spec_div_round_up(w, b.0 as int),
        crate::mip::spec_div_round_up(h, b.1 as int),
        crate::mip::spec_div_round_up(d, b.2 as int),
        format.spec_block_size_in_bytes() as int,
    );
}

/// The levels of a layer take more bytes the more of them are counted.
pub proof fn lemma_levels_size_ordered(
    format: ImageFormat,
    width: u32,
    height: u32,
    depth: u32,
    fewer: nat,
    more: nat,
)
    requires
        fewer <= more,
        more <= u32::MAX,
    ensures
        0 <= spec_levels_size(format, width, height, depth, fewer) <= spec_levels_size(
            format,
            width,
            height,
            depth,
            more,
        ),
    decreases more,
{
    if more == 0 {
    } else {
        lemma_level_size_nonnegative(format, width, height, depth, (more - 1) as u32);
        if fewer < more {
            lemma_levels_size_ordered(format, width, height, depth, fewer, (more - 1) as nat);
        } else {
            lemma_levels_size_ordered(format, width, height, depth, 0, (more - 1) as nat);
        }
    }
}

/// The size in bytes of level `mipmap` of a layer in `format`, or `None` where
/// it does not fit a `usize`.
pub fn level_size(format: ImageFormat, width: u32, height: u32, depth: u32, mipmap: u32) -> (size:
    Option<usize>)
    ensures
        size == if spec_level_size(format, width, height, depth, mipmap) <= usize::MAX {
            Some(spec_level_size(format, width, height, depth, mipmap) as usize)
        } else {
            None
        },
{
    let (block_width, block_height, block_depth) = format.block_dimensions();
    mip_size(
        mip_dimension(width, mipmap) as usize,
        mip_dimension(height, mipmap) as usize,
        mip_dimension(depth, mipmap) as usize,
        block_width as usize,
        block_height as usize,
        block_depth as usize,
        format.block_size_in_bytes(),
    )
}

/// The size in bytes of the first `count` levels of a layer in `format`, or
/// `None` where it does not fit a `usize`.
pub fn levels_size(format: ImageFormat, width: u32, height: u32, depth: u32, count: u32) -> (size:
    Option<usize>)
    ensures
        size == if spec_levels_size(format, width, height, depth, count as nat) <= usize::MAX {
            Some(spec_levels_size(format, width, height, depth, count as nat) as usize)
        } else {
            None
        },
{
    let mut total: usize = 0;
    let mut mipmap: u32 = 0;
    while mipmap < count
        invariant
            mipmap <= count,
            total == spec_levels_size(format, width, height, depth, mipmap as nat),
        decreases count - mipmap,
    {
        proof {
            lemma_levels_size_ordered(
                format,
                width,
                height,
                depth,
                (mipmap + 1) as nat,
                count as nat,
            );
            lemma_level_size_nonnegative(format, width, height, depth, mipmap);
        }
        let size: usize = match level_size(format, width, height, depth, mipmap) {
            Some(size) => size,
            None => {
                return None;
            },
        };
        total = match total.checked_add(size) {
            Some(total) => total,
            None => {
                return None;
            },
        };
        mipmap = mipmap + 1;
    }
    Some(total)
}

/// Where level `mipmap` of layer `layer` starts in the bytes of a surface with
/// `mipmaps` levels to a layer, or `None` where that does not fit a `usize`.
pub fn calculate_offset(
    format: ImageFormat,
    width: u32,
    height: u32,
    depth: u32,
    mipmaps: u32,
    layer: u32,
    mipmap: u32,
) -> (offset: Option<usize>)
    ensures
        offset == if spec_offset(format, width, height, depth, mipmaps, layer, mipmap)
            <= usize::MAX {
            Some(spec_offset(format, width, height, depth, mipmaps, layer, mipmap) as usize)
        } else {
            None
        },
{
    proof {
        lemma_levels_size_ordered(format, width, height, depth, 0, mipmaps as nat);
        lemma_levels_size_ordered(format, width, height, depth, 0, mipmap as nat);
        let per_layer = spec_levels_size(format, width, height, depth, mipmaps as nat);
        assert(0 <= layer * per_layer) by (nonlinear_arith)
            requires
                0 <= layer,
                0 <= per_layer,
        ;
    }
    let before: usize = match levels_size(format, width, height, depth, mipmap) {
        Some(size) => size,
        None => {
            return None;
        },
    };
    if layer == 0 {
        assert(0 * spec_levels_size(format, width, height, depth, mipmaps as nat) == 0);
        return Some(before);
    }
    let per_layer: usize = match levels_size(format, width, height, depth, mipmaps) {
        Some(size) => size,
        None => {
            proof {
                let per_layer = spec_levels_size(format, width, height, depth, mipmaps as nat);
                assert(layer * per_layer >= per_layer) by (nonlinear_arith)
                    requires
                        1 <= layer,
                        0 <= per_layer,
                ;
            }
            return None;
        },
    };
    let layers_before: usize = match (layer as usize).checked_mul(per_layer) {
        Some(size) => size,
        None => {
            return None;
        },
    };
    layers_before.checked_add(before)
}

/// The bytes that stand where level `mipmap` of layer `layer` belongs.
pub open spec fn spec_level_bytes(
    data: Seq<u8>,
    format: ImageFormat,
    width: u32,
    height: u32,
    depth: u32,
    mipmaps: u32,
    layer: u32,
    mipmap: u32,
) -> Seq<u8> {
    let offset = spec_offset(
        format,
        width,
        height,
        depth,
        spec_level_count(mipmaps),
        layer,
        mipmap,
    );
    data.subrange(offset, offset + spec_level_size(format, width, height, depth, mipmap))
}

/// The bytes of level `mipmap` of layer `layer`, where the surface has such a
/// level and `data` holds all of it.
pub open spec fn spec_get_mipmap(
    data: Seq<u8>,
    format: ImageFormat,
    width: u32,
    height: u32,
    depth: u32,
    layers: u32,
    mipmaps: u32,
    layer: u32,
    mipmap: u32,
) -> Option<Seq<u8>> {
    let levels = spec_level_count(mipmaps);
    let offset = spec_offset(format, width, height, depth, levels, layer, mipmap);
    let size = spec_level_size(format, width, height, depth, mipmap);
    if layer < layers && mipmap < levels && offset + size <= data.len() {
        Some(spec_level_bytes(data, format, width, height, depth, mipmaps, layer, mipmap))
    } else {
        None
    }
}

/// What `validate_surface` answers.
pub open spec fn spec_validate_surface(
    format: ImageFormat,
    width: u32,
    height: u32,
    depth: u32,
    layers: u32,
    mipmaps: u32,
    len: usize,
) -> Result<(), SurfaceError> {
    let size = spec_surface_size(format, width, height, depth, layers, spec_level_count(mipmaps));
    if width == 0 || height == 0 || depth == 0 {
        Err(SurfaceError::ZeroSizedSurface { width, height, depth })
    } else if size > usize::MAX {
        Err(SurfaceError::PixelCountWouldOverflow { width, height, depth })
    } else if len < size {
        Err(SurfaceError::NotEnoughData { expected: size as usize, actual: len })
    } else {
        Ok(())
    }
}

/// What `validate_encode` answers.
pub open spec fn spec_validate_encode(
    width: u32,
    height: u32,
    depth: u32,
    layers: u32,
    mipmaps: u32,
    len: usize,
    format: ImageFormat,
) -> Result<(), SurfaceError> {
    let block = format.spec_block_dimensions();
    match spec_validate_surface(
        ImageFormat::R8G8B8A8Unorm,
        width,
        height,
        depth,
        layers,
        mipmaps,
        len,
    ) {
        Err(e) => Err(e),
        Ok(_) => if width % block.0 != 0 || height % block.1 != 0 || depth % block.2 != 0 {
            Err(
                SurfaceError::NonIntegralDimensionsInBlocks {
                    width,
                    height,
                    depth,
                    block_width: block.0,
                    block_height: block.1,
                },
            )
        } else if spec_exceeds_encoder(format, width, height) {
            Err(SurfaceError::PixelCountWouldOverflow { width, height, depth })
        } else {
            Ok(())
        },
    }
}

/// A surface that holds all its layers and levels holds each of them.
pub proof fn lemma_level_in_bounds(
    format: ImageFormat,
    width: u32,
    height: u32,
    depth: u32,
    layers: u32,
    mipmaps: u32,
    len: usize,
    layer: u32,
    mipmap: u32,
)
    requires
        spec_validate_surface(
            format,
            width,
            height,
            depth,
            layers,
            mipmaps,
            len,
        ) is Ok,
        layer < layers,
        mipmap < spec_level_count(mipmaps),
    ensures
        0 <= spec_offset(
            format,
            width,
            height,
            depth,
            spec_level_count(mipmaps),
            layer,
            mipmap,
        ),
        0 <= spec_level_size(format, width, height, depth, mipmap),
        spec_offset(
            format,
            width,
            height,
            depth,
            spec_level_count(mipmaps),
            layer,
            mipmap,
        ) + spec_level_size(format, width, height, depth, mipmap) <= len,
{
    let levels = spec_level_count(mipmaps);
    let per_layer = spec_levels_size(format, width, height, depth, levels as nat);
    lemma_level_size_nonnegative(format, width, height, depth, mipmap);
    lemma_levels_size_ordered(format, width, height, depth, (mipmap + 1) as nat, levels as nat);
    lemma_levels_size_ordered(format, width, height, depth, 0, mipmap as nat);
    assert(0 <= layer * per_layer && (layer + 1) * per_layer <= layers * per_layer
        && layer * per_layer + per_layer == (layer + 1) * per_layer) by (nonlinear_arith)
        requires
            0 <= layer < layers,
            0 <= per_layer,
    ;
}

/// The number of levels that a layer is laid out with.
pub fn level_count(mipmaps: u32) -> (levels: u32)
    ensures
        levels == spec_level_count(mipmaps),
        levels >= 1,
{
    if mipmaps == 0 {
        1
    } else {
        mipmaps
    }
}

/// The bytes of level `mipmap` of layer `layer`, or `None` where the surface
/// has no such level or `data` does not hold all of it.
pub fn get_mipmap<'a>(
    data: &'a [u8],
    format: ImageFormat,
    width: u32,
    height: u32,
    depth: u32,
    layers: u32,
    mipmaps: u32,
    layer: u32,
    mipmap: u32,
) -> (level: Option<&'a [u8]>)
    ensures
        match level {
            Some(bytes) => spec_get_mipmap(
                data@,
                format,
                width,
                height,
                depth,
                layers,
                mipmaps,
                layer,
                mipmap,
            ) == Some(bytes@),
            None => spec_get_mipmap(
                data@,
                format,
                width,
                height,
                depth,
                layers,
                mipmaps,
                layer,
                mipmap,
            ) is None,
        },
{
    let len: usize = data.len();
    let levels: u32 = level_count(mipmaps);
    if layer >= layers || mipmap >= levels {
        return None;
    }
    proof {
        lemma_level_size_nonnegative(format, width, height, depth, mipmap);
        lemma_levels_size_ordered(format, width, height, depth, 0, levels as nat);
        lemma_levels_size_ordered(format, width, height, depth, 0, mipmap as nat);
        let per_layer = spec_levels_size(format, width, height, depth, levels as nat);
        assert(0 <= layer * per_layer) by (nonlinear_arith)
            requires
                0 <= layer,
                0 <= per_layer,
        ;
    }
    let offset: usize = match calculate_offset(
        format,
        width,
        height,
        depth,
        levels,
        layer,
        mipmap,
    ) {
        Some(offset) => offset,
        None => {
            return None;
        },
    };
    let size: usize = match level_size(format, width, height, depth, mipmap) {
        Some(size) => size,
        None => {
            return None;
        },
    };
    if offset > len || size > len - offset {
        return None;
    }
    Some(vstd::slice::slice_subrange(data, offset, offset + size))
}

/// The bytes of level `mipmap` of layer `layer` of a surface that has been found
/// to hold all its layers and levels.
pub fn held_level<'a>(
    data: &'a [u8],
    format: ImageFormat,
    width: u32,
    height: u32,
    depth: u32,
    layers: u32,
    mipmaps: u32,
    layer: u32,
    mipmap: u32,
) -> (level: &'a [u8])
    requires
        spec_validate_surface(format, width, height, depth, layers, mipmaps, data.len()) is Ok,
        layer < layers,
        mipmap < spec_level_count(mipmaps),
    ensures
        level@ == spec_level_bytes(data@, format, width, height, depth, mipmaps, layer, mipmap),
        level@.len() == spec_level_size(format, width, height, depth, mipmap),
{
    proof {
        lemma_level_in_bounds(
            format,
            width,
            height,
            depth,
            layers,
            mipmaps,
            data.len(),
            layer,
            mipmap,
        );
    }
    match get_mipmap(data, format, width, height, depth, layers, mipmaps, layer, mipmap) {
        Some(level) => level,
        None => vstd::pervasive::unreached(),
    }
}

/// Holds a surface's dimensions against the number of bytes that come with it.
///
/// Answers `ZeroSizedSurface` where the width, the height or the depth is
/// zero, else `PixelCountWouldOverflow` where the size of all layers and levels
/// does not fit a `usize`, else `NotEnoughData` where there are fewer bytes
/// than that.
pub fn validate_surface(
    format: ImageFormat,
    width: u32,
    height: u32,
    depth: u32,
    layers: u32,
    mipmaps: u32,
    len: usize,
) -> (r: Result<(), SurfaceError>)
    ensures
        r == spec_validate_surface(format, width, height, depth, layers, mipmaps, len),
{
    if width == 0 || height == 0 || depth == 0 {
        return Err(SurfaceError::ZeroSizedSurface { width, height, depth });
    }
    let levels: u32 = level_count(mipmaps);
    proof {
        lemma_levels_size_ordered(format, width, height, depth, 0, levels as nat);
    }
    if layers == 0 {
        assert(0 * spec_levels_size(format, width, height, depth, levels as nat) == 0);
        return Ok(());
    }
    let per_layer: usize = match levels_size(format, width, height, depth, levels) {
        Some(size) => size,
        None => {
            proof {
                let per_layer = spec_levels_size(format, width, height, depth, levels as nat);
                assert(layers * per_layer >= per_layer) by (nonlinear_arith)
                    requires
                        1 <= layers,
                        0 <= per_layer,
                ;
            }
            return Err(SurfaceError::PixelCountWouldOverflow { width, height, depth });
        },
    };
    let size: usize = match (layers as usize).checked_mul(per_layer) {
        Some(size) => size,
        None => {
            return Err(SurfaceError::PixelCountWouldOverflow { width, height, depth });
        },
    };
    if len < size {
        return Err(SurfaceError::NotEnoughData { expected: size, actual: len });
    }
    Ok(())
}

impl<'a> Surface<&'a [u8]> {
    /// The bytes of level `mipmap` of layer `layer`, or `None` where the surface
    /// has no such level or its data does not hold all of it.
    pub fn get(&self, layer: u32, mipmap: u32) -> (level: Option<&'a [u8]>)
        ensures
            match level {
                Some(bytes) => spec_get_mipmap(
                    self.data@,
                    self.image_format,
                    self.width,
                    self.height,
                    self.depth,
                    self.layers,
                    self.mipmaps,
                    layer,
                    mipmap,
                ) == Some(bytes@),
                None => spec_get_mipmap(
                    self.data@,
                    self.image_format,
                    self.width,
                    self.height,
                    self.depth,
                    self.layers,
                    self.mipmaps,
                    layer,
                    mipmap,
                ) is None,
            },
    {
        get_mipmap(
            self.data,
            self.image_format,
            self.width,
            self.height,
            self.depth,
            self.layers,
            self.mipmaps,
            layer,
            mipmap,
        )
    }

    /// Holds the dimensions against the number of bytes in `data`.
    pub fn validate(&self) -> (r: Result<(), SurfaceError>)
        ensures
            r == spec_validate_surface(
                self.image_format,
                self.width,
                self.height,
                self.depth,
                self.layers,
                self.mipmaps,
                self.data.len(),
            ),
    {
        validate_surface(
            self.image_format,
            self.width,
            self.height,
            self.depth,
            self.layers,
            self.mipmaps,
            self.data.len(),
        )
    }
}

impl<'a> SurfaceRgba8<&'a [u8]> {
    /// The pixels of level `mipmap` of layer `layer`, or `None` where the
    /// surface has no such level or its data does not hold all of it.
    pub fn get(&self, layer: u32, mipmap: u32) -> (level: Option<&'a [u8]>)
        ensures
            match level {
                Some(bytes) => spec_get_mipmap(
                    self.data@,
                    ImageFormat::R8G8B8A8Unorm,
                    self.width,
                    self.height,
                    self.depth,
                    self.layers,
                    self.mipmaps,
                    layer,
                    mipmap,
                ) == Some(bytes@),
                None => spec_get_mipmap(
                    self.data@,
                    ImageFormat::R8G8B8A8Unorm,
                    self.width,
                    self.height,
                    self.depth,
                    self.layers,
                    self.mipmaps,
                    layer,
                    mipmap,
                ) is None,
            },
    {
        get_mipmap(
            self.data,
            ImageFormat::R8G8B8A8Unorm,
            self.width,
            self.height,
            self.depth,
            self.layers,
            self.mipmaps,
            layer,
            mipmap,
        )
    }

    /// Holds the dimensions against the number of bytes in `data`, four to a
    /// pixel.
    pub fn validate(&self) -> (r: Result<(), SurfaceError>)
        ensures
            r == spec_validate_surface(
                ImageFormat::R8G8B8A8Unorm,
                self.width,
                self.height,
                self.depth,
                self.layers,
                self.mipmaps,
                self.data.len(),
            ),
    {
        validate_surface(
            ImageFormat::R8G8B8A8Unorm,
            self.width,
            self.height,
            self.depth,
            self.layers,
            self.mipmaps,
            self.data.len(),
        )
    }

    /// Finds out whether the surface can be encoded to `format`.
    ///
    /// Answers what `validate` answers where that is an error; else
    /// `NonIntegralDimensionsInBlocks` where a dimension is no multiple of the
    /// format's block: part of a block cannot be stored; else
    /// `PixelCountWouldOverflow` where the surface is larger than the format's
    /// encoder can count.
    pub fn validate_encode(&self, format: ImageFormat) -> (r: Result<(), SurfaceError>)
        ensures
            r == spec_validate_encode(
                self.width,
                self.height,
                self.depth,
                self.layers,
                self.mipmaps,
                self.data.len(),
                format,
            ),
    {
        match self.validate() {
            Err(e) => {
                return Err(e);
            },
            Ok(_) => {},
        }
        let (block_width, block_height, block_depth) = format.block_dimensions();
        if self.width % block_width != 0 || self.height % block_height != 0 || self.depth
            % block_depth != 0 {
            return Err(
                SurfaceError::NonIntegralDimensionsInBlocks {
                    width: self.width,
                    height: self.height,
                    depth: self.depth,
                    block_width,
                    block_height,
                },
            );
        }
        if exceeds_encoder(format, self.width, self.height) {
            return Err(
                SurfaceError::PixelCountWouldOverflow {
                    width: self.width,
                    height: self.height,
                    depth: self.depth,
                },
            );
        }
        Ok(())
    }
}

impl Surface<Vec<u8>> {
    /// The bytes of level `mipmap` of layer `layer`, or `None` where the surface
    /// has no such level or its data does not hold all of it.
    pub fn get(&self, layer: u32, mipmap: u32) -> (level: Option<&[u8]>)
        ensures
            match level {
                Some(bytes) => spec_get_mipmap(
                    self.data@,
                    self.image_format,
                    self.width,
                    self.height,
                    self.depth,
                    self.layers,
                    self.mipmaps,
                    layer,
                    mipmap,
                ) == Some(bytes@),
                None => spec_get_mipmap(
                    self.data@,
                    self.image_format,
                    self.width,
                    self.height,
                    self.depth,
                    self.layers,
                    self.mipmaps,
                    layer,
                    mipmap,
                ) is None,
            },
    {
        get_mipmap(
            self.data.as_slice(),
            self.image_format,
            self.width,
            self.height,
            self.depth,
            self.layers,
            self.mipmaps,
            layer,
            mipmap,
        )
    }

    /// Holds the dimensions against the number of bytes in `data`.
    pub fn validate(&self) -> (r: Result<(), SurfaceError>)
        ensures
            r == spec_validate_surface(
                self.image_format,
                self.width,
                self.height,
                self.depth,
                self.layers,
                self.mipmaps,
                self.data.len(),
            ),
    {
        validate_surface(
            self.image_format,
            self.width,
            self.height,
            self.depth,
            self.layers,
            self.mipmaps,
            self.data.len(),
        )
    }
}

impl SurfaceRgba8<Vec<u8>> {
    /// The pixels of level `mipmap` of layer `layer`, or `None` where the
    /// surface has no such level or its data does not hold all of it.
    pub fn get(&self, layer: u32, mipmap: u32) -> (level: Option<&[u8]>)
        ensures
            match level {
                Some(bytes) => spec_get_mipmap(
                    self.data@,
                    ImageFormat::R8G8B8A8Unorm,
                    self.width,
                    self.height,
                    self.depth,
                    self.layers,
                    self.mipmaps,
                    layer,
                    mipmap,
                ) == Some(bytes@),
                None => spec_get_mipmap(
                    self.data@,
                    ImageFormat::R8G8B8A8Unorm,
                    self.width,
                    self.height,
                    self.depth,
                    self.layers,
                    self.mipmaps,
                    layer,
                    mipmap,
                ) is None,
            },
    {
        get_mipmap(
            self.data.as_slice(),
            ImageFormat::R8G8B8A8Unorm,
            self.width,
            self.height,
            self.depth,
            self.layers,
            self.mipmaps,
            layer,
            mipmap,
        )
    }

    /// Holds the dimensions against the number of bytes in `data`, four to a
    /// pixel.
    pub fn validate(&self) -> (r: Result<(), SurfaceError>)
        ensures
            r == spec_validate_surface(
                ImageFormat::R8G8B8A8Unorm,
                self.width,
                self.height,
                self.depth,
                self.layers,
                self.mipmaps,
                self.data.len(),
            ),
    {
        validate_surface(
            ImageFormat::R8G8B8A8Unorm,
            self.width,
            self.height,
            self.depth,
            self.layers,
            self.mipmaps,
            self.data.len(),
        )
    }
}

} // verus!
