//! Encoding surfaces of RGBA pixels: one level at a time, and whole surfaces
//! with all their layers and mip levels.

use vstd::prelude::*;
use crate::bcn::encode::{encode_bcn, spec_bc2_alpha_at, spec_encoded};
use crate::bcn::{Bc1, Bc2, Bc3, Bc4, Bc5, Bc6, Bc7};
use crate::error::SurfaceError;
use crate::format::{ImageFormat, Mipmaps, Quality};
use crate::image::{
    downsample_rgba8, lemma_div_mod_unique, pad_rgba8, spec_downsample_rgba8, spec_pad_rgba8,
};
use crate::mip::{
    lemma_div_round_up, lemma_div_round_up_ordered, lemma_mip_dimension_bounds,
    lemma_round_up_of_multiple, lemma_size_ordered, max_mipmap_count, mip_dimension, round_up,
    spec_div_round_up, spec_max_mipmap_count, spec_mip_dimension, spec_mip_size, spec_round_up,
    spec_validate_length, validate_length,
};
use crate::rgba::{
    bgra8_from_rgba8, encode_rgba8_from_rgba8, lemma_pixel_count, r8_from_rgba8,
    rgbaf32_from_rgba8, spec_bgra8_from_rgba8, spec_r8_from_rgba8, spec_rgba8_from_rgba8,
    spec_rgbaf32_from_rgba8,
};
use crate::surface::{
    held_level, lemma_level_in_bounds, lemma_level_size_nonnegative, lemma_levels_size_ordered,
    spec_level_bytes, spec_level_count, spec_level_size, spec_levels_size, spec_offset,
    spec_surface_size, spec_validate_encode, Surface, SurfaceRgba8,
};

verus! {

/// The number of bytes that the encoder of a block-compressed format reads of
/// each pixel.
pub open spec fn spec_encoder_bytes_per_pixel(format: ImageFormat) -> int {
    match format {
        ImageFormat::BC4Unorm | ImageFormat::BC4Snorm => 1,
        ImageFormat::BC5Unorm | ImageFormat::BC5Snorm => 2,
        ImageFormat::BC6Ufloat | ImageFormat::BC6Sfloat => 8,
        _ => 4,
    }
}

/// The number of channel values of the pixels that one block of `format` holds.
pub open spec fn spec_elements_per_block(format: ImageFormat) -> usize {
    if format.is_bcn() {
        64
    } else {
        4
    }
}

/// Whether the surface is larger than the outside encoder of `format` can count.
pub open spec fn spec_exceeds_encoder(format: ImageFormat, width: u32, height: u32) -> bool {
    format.is_bcn() && (width * height + 15 > u32::MAX || height > i32::MAX || width
        * spec_encoder_bytes_per_pixel(format) > i32::MAX)
}

/// Why the `width` x `height` x `depth` pixels at the head of a buffer of `len`
/// bytes cannot be encoded to `format`, or `None` where they can.
pub open spec fn spec_encode_rgba8_error(
    width: u32,
    height: u32,
    depth: u32,
    len: usize,
    format: ImageFormat,
) -> Option<SurfaceError> {
    let block = format.spec_block_dimensions();
    match spec_validate_length(width, height, depth, block, spec_elements_per_block(format), len) {
        Err(e) => Some(e),
        Ok(_) => if width % block.0 != 0 || height % block.1 != 0 {
            Some(
                SurfaceError::NonIntegralDimensionsInBlocks {
                    width,
                    height,
                    depth,
                    block_width: block.0,
                    block_height: block.1,
                },
            )
        } else if spec_exceeds_encoder(format, width, height) {
            Some(SurfaceError::PixelCountWouldOverflow { width, height, depth })
        } else {
            None
        },
    }
}

/// What the first `pixels` pixels of `data` are encoded to in a format without
/// compression.
pub open spec fn spec_encode_plain(format: ImageFormat, pixels: int, data: Seq<u8>) -> Seq<u8> {
    match format {
        ImageFormat::R8Unorm => spec_r8_from_rgba8(pixels, data),
        ImageFormat::R32G32B32A32Float => spec_rgbaf32_from_rgba8(pixels, data),
        ImageFormat::B8G8R8A8Unorm | ImageFormat::B8G8R8A8Srgb => spec_bgra8_from_rgba8(
            pixels,
            data,
        ),
        _ => spec_rgba8_from_rgba8(pixels, data),
    }
}

/// The byte at offset `at` of the alpha blocks of a surface in BC2, where `at`
/// falls into the first half of a block: the blocks of each plane of `width`
/// x `height` pixels follow each other, and so do the planes.
pub open spec fn spec_bc2_alpha_in_surface(width: int, height: int, image: Seq<u8>, at: int) -> u8 {
    let plane_blocks = (width / 4) * (height / 4) * 16;
    let plane_pixels = width * height * 4;
    let z = at / plane_blocks;
    spec_bc2_alpha_at(
        width as u32,
        height as u32,
        image.subrange(z * plane_pixels, z * plane_pixels + plane_pixels),
        at % plane_blocks,
    )
}

/// Whether the first half of each block of `encoded` stores the alpha of the
/// block's pixels at four bits each, as BC2 does.
pub open spec fn spec_stores_alpha(
    width: int,
    height: int,
    image: Seq<u8>,
    encoded: Seq<u8>,
) -> bool {
    forall|at: int|
        0 <= at < encoded.len() && at % 16 < 8 ==> #[trigger] encoded[at]
            == spec_bc2_alpha_in_surface(width, height, image, at)
}

/// Whether `encoded` can be what the image of `width` x `height` x `depth`
/// pixels at the head of `image` is encoded to: it has one block for each block
/// of pixels; in a format without compression it holds the chosen channels of
/// each pixel; and in BC2 the first half of each block holds the alpha of the
/// block's pixels. Of the other blocks and halves of blocks of the compressed
/// formats nothing more is said: they are what an outside encoder made of the
/// pixels.
pub open spec fn spec_is_encoding(
    format: ImageFormat,
    width: int,
    height: int,
    depth: int,
    image: Seq<u8>,
    encoded: Seq<u8>,
) -> bool {
    &&& encoded.len() == spec_mip_size(
        width,
        height,
        depth,
        format.spec_block_dimensions().0 as int,
        format.spec_block_dimensions().1 as int,
        format.spec_block_dimensions().2 as int,
        format.spec_block_size_in_bytes() as int,
    )
    &&& !format.is_bcn() ==> encoded == spec_encode_plain(format, width * height * depth, image)
    &&& format is BC2Unorm || format is BC2Srgb ==> spec_stores_alpha(width, height, image, encoded)
}

/// Adds the bytes of `source` to the end of `target`.
pub fn append(target: &mut Vec<u8>, source: &[u8])
    ensures
        final(target)@ == old(target)@ + source@,
{
    let len: usize = source.len();
    let mut i: usize = 0;
    while i < len
        invariant
            i <= len,
            len == source@.len(),
            target@ == old(target)@ + source@.subrange(0, i as int),
        decreases len - i,
    {
        target.push(source[i]);
        i = i + 1;
    }
    assert(source@.subrange(0, len as int) == source@);
}

/// Encodes one plane of `width` x `height` pixels to a block-compressed format.
fn encode_bcn_plane(
    format: ImageFormat,
    width: u32,
    height: u32,
    rgba8_data: &[u8],
    quality: Quality,
) -> (r: Result<Vec<u8>, SurfaceError>)
    requires
        format.is_bcn(),
    ensures
        spec_encoded(
            width,
            height,
            rgba8_data.len(),
            spec_encoder_bytes_per_pixel(format),
            format.spec_block_size_in_bytes() as int,
            r,
        ),
        format is BC2Unorm || format is BC2Srgb ==> (r matches Ok(blocks) ==> forall|at: int|
            0 <= at < blocks@.len() && at % 16 < 8 ==> #[trigger] blocks@[at] == spec_bc2_alpha_at(
                width,
                height,
                rgba8_data@,
                at,
            )),
{
    match format {
        ImageFormat::BC1Unorm | ImageFormat::BC1Srgb => encode_bcn::<Bc1, u8>(
            width,
            height,
            rgba8_data,
            quality,
        ),
        ImageFormat::BC2Unorm | ImageFormat::BC2Srgb => encode_bcn::<Bc2, u8>(
            width,
            height,
            rgba8_data,
            quality,
        ),
        ImageFormat::BC3Unorm | ImageFormat::BC3Srgb => encode_bcn::<Bc3, u8>(
            width,
            height,
            rgba8_data,
            quality,
        ),
        ImageFormat::BC4Unorm | ImageFormat::BC4Snorm => encode_bcn::<Bc4, u8>(
            width,
            height,
            rgba8_data,
            quality,
        ),
        ImageFormat::BC5Unorm | ImageFormat::BC5Snorm => encode_bcn::<Bc5, u8>(
            width,
            height,
            rgba8_data,
            quality,
        ),
        ImageFormat::BC6Ufloat | ImageFormat::BC6Sfloat => encode_bcn::<Bc6, u8>(
            width,
            height,
            rgba8_data,
            quality,
        ),
        _ => encode_bcn::<Bc7, u8>(width, height, rgba8_data, quality),
    }
}

/// The number of bytes that the encoder of a block-compressed format reads of
/// each pixel.
fn encoder_bytes_per_pixel(format: ImageFormat) -> (bytes: u32)
    ensures
        bytes == spec_encoder_bytes_per_pixel(format),
        1 <= bytes <= 8,
{
    match format {
        ImageFormat::BC4Unorm | ImageFormat::BC4Snorm => 1,
        ImageFormat::BC5Unorm | ImageFormat::BC5Snorm => 2,
        ImageFormat::BC6Ufloat | ImageFormat::BC6Sfloat => 8,
        _ => 4,
    }
}

/// Whether the surface is larger than the outside encoder of `format` can count.
pub fn exceeds_encoder(format: ImageFormat, width: u32, height: u32) -> (exceeds: bool)
    ensures
        exceeds == spec_exceeds_encoder(format, width, height),
{
    let (block_width, _, _) = format.block_dimensions();
    if block_width == 1 {
        return false;
    }
    let bytes_per_pixel: u32 = encoder_bytes_per_pixel(format);
    proof {
        assert(width * height <= 0xffff_ffff * 0xffff_ffff) by (nonlinear_arith)
            requires
                width <= 0xffff_ffff,
                height <= 0xffff_ffff,
        ;
        assert(width * bytes_per_pixel <= 0xffff_ffff * 8) by (nonlinear_arith)
            requires
                width <= 0xffff_ffff,
                bytes_per_pixel <= 8,
        ;
    }
    let pixels: u64 = width as u64 * height as u64;
    let row_bytes: u64 = width as u64 * bytes_per_pixel as u64;
    pixels + 15 > u32::MAX as u64 || height > i32::MAX as u32 || row_bytes > i32::MAX as u64
}

/// A plane of whole tiles takes four bytes for each pixel, and is encoded to
/// one block for each tile.
proof fn lemma_plane(format: ImageFormat, width: u32, height: u32, depth: u32)
    requires
        format.is_bcn(),
        width % 4 == 0,
        height % 4 == 0,
    ensures
        spec_mip_size(width as int, height as int, 1, 4, 4, 1, 64) == width * height * 4,
        spec_mip_size(width as int, height as int, depth as int, 4, 4, 1, 64) == (width * height
            * 4) * depth,
        spec_mip_size(
            width as int,
            height as int,
            depth as int,
            4,
            4,
            1,
            format.spec_block_size_in_bytes() as int,
        ) == depth * ((width / 4) * (height / 4) * format.spec_block_size_in_bytes()),
        0 <= width * height * 4,
{
    lemma_round_up_of_multiple(width as int, 4);
    lemma_round_up_of_multiple(height as int, 4);
    lemma_div_round_up(1, 1);
    lemma_div_round_up(depth as int, 1);
    let columns = width as int / 4;
    let rows = height as int / 4;
    let size = format.spec_block_size_in_bytes() as int;
    assert(columns * rows * 1 * 64 == (4 * columns) * (4 * rows) * 4) by (nonlinear_arith);
    assert(columns * rows * depth * 64 == ((4 * columns) * (4 * rows) * 4) * depth)
        by (nonlinear_arith);
    assert(columns * rows * depth * size == depth * (columns * rows * size)) by (nonlinear_arith);
    assert(0 <= (4 * columns) * (4 * rows) * 4) by (nonlinear_arith)
        requires
            0 <= columns,
            0 <= rows,
    ;
}

/// Why a surface cannot be encoded to `format` as a block-compressed format,
/// or `None` where it can.
pub open spec fn spec_bcn_from_rgba8_error(
    format: ImageFormat,
    width: u32,
    height: u32,
    depth: u32,
    len: usize,
) -> Option<SurfaceError> {
    if !format.is_bcn() {
        Some(SurfaceError::UnsupportedFormat { format })
    } else {
        spec_encode_rgba8_error(width, height, depth, len, format)
    }
}

/// Encodes a surface to a block-compressed format, plane by plane: each plane
/// of `width` x `height` pixels is encoded by the format's encoder, and the
/// blocks of the planes follow each other.
///
/// Answers `UnsupportedFormat` for a format that is not block-compressed, and
/// else the errors that `encode_rgba8` has.
pub fn bcn_from_rgba8(
    format: ImageFormat,
    width: u32,
    height: u32,
    depth: u32,
    data: &[u8],
    quality: Quality,
) -> (r: Result<Vec<u8>, SurfaceError>)
    ensures
        match r {
            Ok(encoded) => spec_bcn_from_rgba8_error(format, width, height, depth, data.len())
                is None && spec_is_encoding(
                format,
                width as int,
                height as int,
                depth as int,
                data@,
                encoded@,
            ),
            Err(e) => spec_bcn_from_rgba8_error(format, width, height, depth, data.len())
                == Some(e),
        },
{
    let (block_width, _, _) = format.block_dimensions();
    if block_width == 1 {
        return Err(SurfaceError::UnsupportedFormat { format });
    }
    let len: usize = data.len();
    match validate_length(width, height, depth, (4, 4, 1), 64, len) {
        Err(e) => {
            return Err(e);
        },
        Ok(_) => {},
    }
    if width % 4 != 0 || height % 4 != 0 {
        return Err(
            SurfaceError::NonIntegralDimensionsInBlocks {
                width,
                height,
                depth,
                block_width: 4,
                block_height: 4,
            },
        );
    }
    if exceeds_encoder(format, width, height) {
        return Err(SurfaceError::PixelCountWouldOverflow { width, height, depth });
    }
    let mut encoded: Vec<u8> = Vec::new();
    proof {
        lemma_plane(format, width, height, depth);
    }
    if depth == 0 {
        assert(0 * ((width / 4) * (height / 4) * format.spec_block_size_in_bytes()) == 0);
        return Ok(encoded);
    }
    proof {
        let plane = width * height * 4;
        assert(plane <= plane * depth) by (nonlinear_arith)
            requires
                0 <= plane,
                1 <= depth,
        ;
    }
    let plane: usize = width as usize * height as usize * 4;
    let ghost blocks_size = (width / 4) * (height / 4) * format.spec_block_size_in_bytes();
    let mut z: u32 = 0;
    while z < depth
        invariant
            z <= depth,
            format.is_bcn(),
            width % 4 == 0,
            height % 4 == 0,
            !spec_exceeds_encoder(format, width, height),
            plane == width * height * 4,
            plane * depth <= data@.len(),
            len == data@.len(),
            blocks_size == (width / 4) * (height / 4) * format.spec_block_size_in_bytes(),
            encoded@.len() == z * blocks_size,
            format is BC2Unorm || format is BC2Srgb ==> spec_stores_alpha(
                width as int,
                height as int,
                data@,
                encoded@,
            ),
        decreases depth - z,
    {
        proof {
            lemma_plane(format, width, height, depth);
            assert(plane * (z + 1) <= plane * depth) by (nonlinear_arith)
                requires
                    0 <= plane,
                    z + 1 <= depth,
            ;
            assert(plane * (z + 1) == plane * z + plane) by (nonlinear_arith);
            assert(0 <= plane * z) by (nonlinear_arith)
                requires
                    0 <= plane,
                    0 <= z,
            ;
            assert((z + 1) * blocks_size == z * blocks_size + blocks_size) by (nonlinear_arith);
        }
        let start: usize = plane * z as usize;
        let pixels: &[u8] = vstd::slice::slice_subrange(data, start, start + plane);
        let ghost before = encoded@;
        match encode_bcn_plane(format, width, height, pixels, quality) {
            Ok(blocks) => {
                append(&mut encoded, blocks.as_slice());
                proof {
                    if format is BC2Unorm || format is BC2Srgb {
                        assert forall|at: int|
                            0 <= at < encoded@.len() && at % 16 < 8 implies #[trigger] encoded@[at]
                            == spec_bc2_alpha_in_surface(
                            width as int,
                            height as int,
                            data@,
                            at,
                        ) by {
                            if at < before.len() {
                                assert(encoded@[at] == before[at]);
                            } else {
                                let k = at - before.len();
                                let tiles = (width / 4) * (height / 4);
                                assert(blocks_size == tiles * 16);
                                lemma_div_mod_unique(z as int, k, blocks_size);
                                assert(z * blocks_size == (z * tiles) * 16) by (nonlinear_arith)
                                    requires
                                        blocks_size == tiles * 16,
                                ;
                                assert(at == (z * tiles) * 16 + k);
                                assert(at % 16 == k % 16);
                                assert(encoded@[at] == blocks@[k]);
                                assert(z * plane == plane * z) by (nonlinear_arith);
                            }
                        }
                    }
                }
            },
            // The plane has been found fit for the encoder.
            Err(_) => vstd::pervasive::unreached(),
        }
        z = z + 1;
    }
    Ok(encoded)
}

/// Encodes the `width` x `height` x `depth` pixels at the head of `data`, four
/// bytes to a pixel, to `format`.
///
/// A format without compression keeps the chosen channels of each pixel. In a
/// block-compressed format each plane is encoded by the format's encoder, and
/// the planes follow each other.
///
/// Answers `PixelCountWouldOverflow` or `NotEnoughData` as `validate_length`
/// does for the format's blocks; else `NonIntegralDimensionsInBlocks` where the width or
/// the height is no multiple of the block's; else `PixelCountWouldOverflow`
/// where the surface is larger than the format's encoder can count.
pub fn encode_rgba8(
    width: u32,
    height: u32,
    depth: u32,
    data: &[u8],
    format: ImageFormat,
    quality: Quality,
) -> (r: Result<Vec<u8>, SurfaceError>)
    ensures
        match r {
            Ok(encoded) => spec_encode_rgba8_error(width, height, depth, data.len(), format)
                is None && spec_is_encoding(
                format,
                width as int,
                height as int,
                depth as int,
                data@,
                encoded@,
            ),
            Err(e) => spec_encode_rgba8_error(width, height, depth, data.len(), format) == Some(e),
        },
{
    proof {
        lemma_pixel_count(width, height, depth, 4);
        lemma_pixel_count(width, height, depth, 1);
    }
    match format {
        ImageFormat::R8Unorm => r8_from_rgba8(width, height, depth, data),
        ImageFormat::R32G32B32A32Float => rgbaf32_from_rgba8(width, height, depth, data),
        ImageFormat::R8G8B8A8Unorm | ImageFormat::R8G8B8A8Srgb => encode_rgba8_from_rgba8(
            width,
            height,
            depth,
            data,
        ),
        ImageFormat::B8G8R8A8Unorm | ImageFormat::B8G8R8A8Srgb => bgra8_from_rgba8(
            width,
            height,
            depth,
            data,
        ),
        _ => bcn_from_rgba8(format, width, height, depth, data, quality),
    }
}

/// The extent that level `mipmap` is stored with along an axis whose base
/// extent is `dim`: the level's own extent, brought up to whole blocks.
pub open spec fn spec_physical_dimension(dim: u32, block: u32, mipmap: u32) -> int {
    spec_round_up(spec_mip_dimension(dim, mipmap) as int, block as int)
}

/// The pixels that a surface of RGBA pixels holds for level `mipmap` of layer
/// `layer`.
pub open spec fn spec_source_level(
    data: Seq<u8>,
    width: u32,
    height: u32,
    depth: u32,
    mipmaps: u32,
    layer: u32,
    mipmap: u32,
) -> Seq<u8> {
    spec_level_bytes(data, ImageFormat::R8G8B8A8Unorm, width, height, depth, mipmaps, layer, mipmap)
}

/// The image that level `mipmap` of layer `layer` is encoded from, with the
/// dimensions that the level is stored with. The base level is the one that the
/// surface holds. A level below it is, where `use_surface` is set, the level
/// that the surface holds, filled up with zeros to whole blocks; and else the
/// image of the level above, halved.
pub open spec fn spec_level_image(
    data: Seq<u8>,
    width: u32,
    height: u32,
    depth: u32,
    mipmaps: u32,
    block: (u32, u32, u32),
    use_surface: bool,
    layer: u32,
    mipmap: nat,
) -> Seq<u8>
    decreases mipmap,
{
    if mipmap == 0 {
        spec_source_level(data, width, height, depth, mipmaps, layer, 0)
    } else if use_surface {
        spec_pad_rgba8(
            spec_physical_dimension(width, block.0, mipmap as u32),
            spec_physical_dimension(height, block.1, mipmap as u32),
            spec_physical_dimension(depth, block.2, mipmap as u32),
            spec_mip_dimension(width, mipmap as u32) as int,
            spec_mip_dimension(height, mipmap as u32) as int,
            spec_mip_dimension(depth, mipmap as u32) as int,
            spec_source_level(data, width, height, depth, mipmaps, layer, mipmap as u32),
        )
    } else {
        spec_downsample_rgba8(
            spec_physical_dimension(width, block.0, mipmap as u32),
            spec_physical_dimension(height, block.1, mipmap as u32),
            spec_physical_dimension(depth, block.2, mipmap as u32),
            spec_physical_dimension(width, block.0, (mipmap - 1) as u32),
            spec_physical_dimension(height, block.1, (mipmap - 1) as u32),
            spec_physical_dimension(depth, block.2, (mipmap - 1) as u32),
            spec_level_image(
                data,
                width,
                height,
                depth,
                mipmaps,
                block,
                use_surface,
                layer,
                (mipmap - 1) as nat,
            ),
        )
    }
}

/// The number of levels that a surface is encoded with: at least the base
/// level, whatever is asked for.
pub open spec fn spec_mipmap_count(
    mipmaps: Mipmaps,
    width: u32,
    height: u32,
    depth: u32,
    surface_mipmaps: u32,
) -> u32 {
    let largest = if width >= height && width >= depth {
        width
    } else if height >= depth {
        height
    } else {
        depth
    };
    let asked = match mipmaps {
        Mipmaps::Disabled => 1,
        Mipmaps::FromSurface => surface_mipmaps as int,
        Mipmaps::GeneratedExact(count) => count as int,
        Mipmaps::GeneratedAutomatic => spec_max_mipmap_count(largest),
    };
    if asked < 1 {
        1
    } else {
        asked as u32
    }
}

/// Whether the bytes of `encoded` that stand where level `mipmap` of layer
/// `layer` belongs, in a surface of `levels` levels to a layer, are an encoding
/// of that level's image.
pub open spec fn spec_level_is_encoded(
    encoded: Seq<u8>,
    levels: u32,
    format: ImageFormat,
    data: Seq<u8>,
    width: u32,
    height: u32,
    depth: u32,
    mipmaps: u32,
    use_surface: bool,
    layer: u32,
    mipmap: u32,
) -> bool {
    let block = format.spec_block_dimensions();
    let offset = spec_offset(format, width, height, depth, levels, layer, mipmap);
    spec_is_encoding(
        format,
        spec_physical_dimension(width, block.0, mipmap),
        spec_physical_dimension(height, block.1, mipmap),
        spec_physical_dimension(depth, block.2, mipmap),
        spec_level_image(
            data,
            width,
            height,
            depth,
            mipmaps,
            block,
            use_surface,
            layer,
            mipmap as nat,
        ),
        encoded.subrange(offset, offset + spec_level_size(format, width, height, depth, mipmap)),
    )
}

/// A level is stored with at least its own extent and at most the base
/// level's, in whole blocks, and with as many blocks as cover its own extent.
pub proof fn lemma_physical_dimension(dim: u32, block: u32, mipmap: u32)
    requires
        dim >= 1,
        block >= 1,
        dim % block == 0,
    ensures
        1 <= spec_mip_dimension(dim, mipmap) <= spec_physical_dimension(dim, block, mipmap) <= dim,
        spec_physical_dimension(dim, block, mipmap) % (block as int) == 0,
        spec_div_round_up(spec_physical_dimension(dim, block, mipmap), block as int)
            == spec_div_round_up(spec_mip_dimension(dim, mipmap) as int, block as int),
        spec_physical_dimension(dim, block, 0) == dim,
{
    lemma_mip_dimension_bounds(dim, mipmap);
    lemma_mip_dimension_bounds(dim, 0);
    let own = spec_mip_dimension(dim, mipmap) as int;
    let b = block as int;
    let blocks = spec_div_round_up(own, b);
    lemma_div_round_up(own, b);
    lemma_div_round_up_ordered(own, dim as int, b);
    lemma_round_up_of_multiple(dim as int, b);
    assert(blocks * b <= (dim as int / b) * b) by (nonlinear_arith)
        requires
            blocks <= dim as int / b,
            0 < b,
    ;
    assert((blocks * b) % b == 0) by (nonlinear_arith)
        requires
            0 < b,
    ;
    assert(0 <= blocks * b) by (nonlinear_arith)
        requires
            0 <= blocks,
            0 < b,
    ;
    lemma_round_up_of_multiple(blocks * b, b);
    assert((blocks * b) / b == blocks) by (nonlinear_arith)
        requires
            0 < b,
    ;
}

/// The base level of a surface of RGBA pixels takes four bytes for each pixel.
pub proof fn lemma_base_level_size(width: u32, height: u32, depth: u32)
    requires
        width >= 1,
        height >= 1,
        depth >= 1,
    ensures
        spec_level_size(ImageFormat::R8G8B8A8Unorm, width, height, depth, 0) == width * height
            * depth * 4,
{
    lemma_mip_dimension_bounds(width, 0);
    lemma_mip_dimension_bounds(height, 0);
    lemma_mip_dimension_bounds(depth, 0);
    lemma_pixel_count(width, height, depth, 4);
}

/// What is known of a level once its surface has been found fit for encoding:
/// its image is no larger than the base level, it can be encoded, and its
/// blocks take the level's size.
pub proof fn lemma_level_encodes(
    format: ImageFormat,
    width: u32,
    height: u32,
    depth: u32,
    mipmap: u32,
    len: usize,
)
    requires
        width >= 1,
        height >= 1,
        depth >= 1,
        width % format.spec_block_dimensions().0 == 0,
        height % format.spec_block_dimensions().1 == 0,
        !spec_exceeds_encoder(format, width, height),
        len == spec_physical_dimension(width, format.spec_block_dimensions().0, mipmap)
            * spec_physical_dimension(height, format.spec_block_dimensions().1, mipmap)
            * spec_physical_dimension(depth, format.spec_block_dimensions().2, mipmap) * 4,
    ensures
        spec_encode_rgba8_error(
            spec_physical_dimension(width, format.spec_block_dimensions().0, mipmap) as u32,
            spec_physical_dimension(height, format.spec_block_dimensions().1, mipmap) as u32,
            spec_physical_dimension(depth, format.spec_block_dimensions().2, mipmap) as u32,
            len,
            format,
        ) is None,
        spec_mip_size(
            spec_physical_dimension(width, format.spec_block_dimensions().0, mipmap),
            spec_physical_dimension(height, format.spec_block_dimensions().1, mipmap),
            spec_physical_dimension(depth, format.spec_block_dimensions().2, mipmap),
            format.spec_block_dimensions().0 as int,
            format.spec_block_dimensions().1 as int,
            format.spec_block_dimensions().2 as int,
            format.spec_block_size_in_bytes() as int,
        ) == spec_level_size(format, width, height, depth, mipmap),
{
    let block = format.spec_block_dimensions();
    lemma_physical_dimension(width, block.0, mipmap);
    lemma_physical_dimension(height, block.1, mipmap);
    lemma_physical_dimension(depth, block.2, mipmap);
    let pw = spec_physical_dimension(width, block.0, mipmap);
    let ph = spec_physical_dimension(height, block.1, mipmap);
    let pd = spec_physical_dimension(depth, block.2, mipmap);
    lemma_round_up_of_multiple(pw, block.0 as int);
    lemma_round_up_of_multiple(ph, block.1 as int);
    lemma_round_up_of_multiple(pd, block.2 as int);
    lemma_div_round_up(pd, 1);
    if format.is_bcn() {
        let columns = pw / 4;
        let rows = ph / 4;
        assert(pw == 4 * columns && ph == 4 * rows);
        assert(columns * rows * pd * 64 == (4 * columns) * (4 * rows) * pd * 4)
            by (nonlinear_arith);
        assert(pw * ph <= width * height) by (nonlinear_arith)
            requires
                0 <= pw <= width,
                0 <= ph <= height,
        ;
        let bytes = spec_encoder_bytes_per_pixel(format);
        assert(pw * bytes <= width * bytes) by (nonlinear_arith)
            requires
                0 <= pw <= width,
                1 <= bytes,
        ;
    } else {
        lemma_div_round_up(pw, 1);
        lemma_div_round_up(ph, 1);
    }
}

/// No level's image is larger than the base level.
pub proof fn lemma_level_fits(
    block: (u32, u32, u32),
    width: u32,
    height: u32,
    depth: u32,
    mipmap: u32,
)
    requires
        width >= 1,
        height >= 1,
        depth >= 1,
        block.0 >= 1,
        block.1 >= 1,
        block.2 >= 1,
        width % block.0 == 0,
        height % block.1 == 0,
        depth % block.2 == 0,
    ensures
        0 <= spec_physical_dimension(width, block.0, mipmap) * spec_physical_dimension(
            height,
            block.1,
            mipmap,
        ) * spec_physical_dimension(depth, block.2, mipmap) * 4 <= width * height * depth * 4,
{
    lemma_physical_dimension(width, block.0, mipmap);
    lemma_physical_dimension(height, block.1, mipmap);
    lemma_physical_dimension(depth, block.2, mipmap);
    lemma_size_ordered(
        spec_physical_dimension(width, block.0, mipmap),
        spec_physical_dimension(height, block.1, mipmap),
        spec_physical_dimension(depth, block.2, mipmap),
        width as int,
        height as int,
        depth as int,
        4,
    );
}

/// The extent that level `mipmap` is stored with along an axis whose base
/// extent is `dim`.
fn physical_dimension(dim: u32, block: u32, mipmap: u32) -> (extent: u32)
    requires
        dim >= 1,
        block >= 1,
        dim % block == 0,
    ensures
        extent == spec_physical_dimension(dim, block, mipmap),
        1 <= extent <= dim,
{
    proof {
        lemma_physical_dimension(dim, block, mipmap);
    }
    round_up(mip_dimension(dim, mipmap) as usize, block as usize) as u32
}

/// What has been added to `after` since it was `before` leaves every level in
/// place that `before` held in full.
proof fn lemma_level_stays(
    before: Seq<u8>,
    after: Seq<u8>,
    levels: u32,
    format: ImageFormat,
    data: Seq<u8>,
    width: u32,
    height: u32,
    depth: u32,
    mipmaps: u32,
    use_surface: bool,
    layer: u32,
    mipmap: u32,
)
    requires
        before.len() <= after.len(),
        after.subrange(0, before.len() as int) == before,
        0 <= spec_offset(format, width, height, depth, levels, layer, mipmap),
        0 <= spec_level_size(format, width, height, depth, mipmap),
        spec_offset(format, width, height, depth, levels, layer, mipmap) + spec_level_size(
            format,
            width,
            height,
            depth,
            mipmap,
        ) <= before.len(),
    ensures
        spec_level_is_encoded(
            after,
            levels,
            format,
            data,
            width,
            height,
            depth,
            mipmaps,
            use_surface,
            layer,
            mipmap,
        ) == spec_level_is_encoded(
            before,
            levels,
            format,
            data,
            width,
            height,
            depth,
            mipmaps,
            use_surface,
            layer,
            mipmap,
        ),
{
    let offset = spec_offset(format, width, height, depth, levels, layer, mipmap);
    let size = spec_level_size(format, width, height, depth, mipmap);
    let kept = after.subrange(0, before.len() as int);
    assert(after.subrange(offset, offset + size) =~= kept.subrange(offset, offset + size));
}

/// What `encode_mipmaps_rgba8` and the functions under it take for granted: the
/// surface has been found fit for encoding to `format`, and has the layer.
pub open spec fn spec_fit_for_encoding(
    surface: &SurfaceRgba8<&[u8]>,
    format: ImageFormat,
    layer: u32,
) -> bool {
    &&& spec_validate_encode(
        surface.width,
        surface.height,
        surface.depth,
        surface.layers,
        surface.mipmaps,
        surface.data.len(),
        format,
    ) is Ok
    &&& layer < surface.layers
}

/// The image that level `mipmap` of layer `layer` is encoded from, for a level
/// below the base level. `previous` is the image of the level above.
fn level_image(
    surface: &SurfaceRgba8<&[u8]>,
    format: ImageFormat,
    use_surface: bool,
    layer: u32,
    mipmap: u32,
    previous: &Vec<u8>,
    previous_width: usize,
    previous_height: usize,
    previous_depth: usize,
) -> (image: Vec<u8>)
    requires
        spec_fit_for_encoding(surface, format, layer),
        mipmap >= 1,
        use_surface ==> mipmap < spec_level_count(surface.mipmaps),
        previous_width == spec_physical_dimension(
            surface.width,
            format.spec_block_dimensions().0,
            (mipmap - 1) as u32,
        ),
        previous_height == spec_physical_dimension(
            surface.height,
            format.spec_block_dimensions().1,
            (mipmap - 1) as u32,
        ),
        previous_depth == spec_physical_dimension(
            surface.depth,
            format.spec_block_dimensions().2,
            (mipmap - 1) as u32,
        ),
        previous@ == spec_level_image(
            surface.data@,
            surface.width,
            surface.height,
            surface.depth,
            surface.mipmaps,
            format.spec_block_dimensions(),
            use_surface,
            layer,
            (mipmap - 1) as nat,
        ),
        previous@.len() == previous_width * previous_height * previous_depth * 4,
    ensures
        image@ == spec_level_image(
            surface.data@,
            surface.width,
            surface.height,
            surface.depth,
            surface.mipmaps,
            format.spec_block_dimensions(),
            use_surface,
            layer,
            mipmap as nat,
        ),
        image@.len() == spec_physical_dimension(
            surface.width,
            format.spec_block_dimensions().0,
            mipmap,
        ) * spec_physical_dimension(surface.height, format.spec_block_dimensions().1, mipmap)
            * spec_physical_dimension(surface.depth, format.spec_block_dimensions().2, mipmap) * 4,
{
    let width: u32 = surface.width;
    let height: u32 = surface.height;
    let depth: u32 = surface.depth;
    let len: usize = surface.data.len();
    let (block_width, block_height, block_depth) = format.block_dimensions();
    // The stored size has whole blocks in each direction. What reads the
    // surface goes by the level's own size and passes over the rest.
    let mip_width: u32 = physical_dimension(width, block_width, mipmap);
    let mip_height: u32 = physical_dimension(height, block_height, mipmap);
    let mip_depth: u32 = physical_dimension(depth, block_depth, mipmap);
    proof {
        lemma_level_fits(format.spec_block_dimensions(), width, height, depth, mipmap);
    }
    if use_surface {
        proof {
            lemma_level_in_bounds(
                ImageFormat::R8G8B8A8Unorm,
                width,
                height,
                depth,
                surface.layers,
                surface.mipmaps,
                len,
                layer,
                mipmap,
            );
        }
        let data: &[u8] = held_level(
            surface.data,
            ImageFormat::R8G8B8A8Unorm,
            width,
            height,
            depth,
            surface.layers,
            surface.mipmaps,
            layer,
            mipmap,
        );
        pad_rgba8(
            mip_width as usize,
            mip_height as usize,
            mip_depth as usize,
            mip_dimension(width, mipmap) as usize,
            mip_dimension(height, mipmap) as usize,
            mip_dimension(depth, mipmap) as usize,
            data,
        )
    } else {
        // Halving the level above also fills up to whole blocks, since the new
        // dimensions are rounded up.
        downsample_rgba8(
            mip_width as usize,
            mip_height as usize,
            mip_depth as usize,
            previous_width,
            previous_height,
            previous_depth,
            previous.as_slice(),
        )
    }
}

/// Encodes the image of level `mipmap` and adds it to `encoded_data`.
fn encode_level(
    encoded_data: &mut Vec<u8>,
    format: ImageFormat,
    quality: Quality,
    width: u32,
    height: u32,
    depth: u32,
    mipmap: u32,
    image: &[u8],
)
    requires
        width >= 1,
        height >= 1,
        depth >= 1,
        width % format.spec_block_dimensions().0 == 0,
        height % format.spec_block_dimensions().1 == 0,
        !spec_exceeds_encoder(format, width, height),
        image@.len() == spec_physical_dimension(width, format.spec_block_dimensions().0, mipmap)
            * spec_physical_dimension(height, format.spec_block_dimensions().1, mipmap)
            * spec_physical_dimension(depth, format.spec_block_dimensions().2, mipmap) * 4,
    ensures
        final(encoded_data)@.len() == old(encoded_data)@.len() + spec_level_size(
            format,
            width,
            height,
            depth,
            mipmap,
        ),
        final(encoded_data)@.subrange(0, old(encoded_data)@.len() as int) == old(encoded_data)@,
        spec_is_encoding(
            format,
            spec_physical_dimension(width, format.spec_block_dimensions().0, mipmap),
            spec_physical_dimension(height, format.spec_block_dimensions().1, mipmap),
            spec_physical_dimension(depth, format.spec_block_dimensions().2, mipmap),
            image@,
            final(encoded_data)@.subrange(
                old(encoded_data)@.len() as int,
                final(encoded_data)@.len() as int,
            ),
        ),
{
    let len: usize = image.len();
    let (block_width, block_height, block_depth) = format.block_dimensions();
    proof {
        lemma_physical_dimension(depth, format.spec_block_dimensions().2, mipmap);
        lemma_level_encodes(format, width, height, depth, mipmap, len);
    }
    let mip_width: u32 = physical_dimension(width, block_width, mipmap);
    let mip_height: u32 = physical_dimension(height, block_height, mipmap);
    let mip_depth: u32 = physical_dimension(depth, block_depth, mipmap);
    match encode_rgba8(mip_width, mip_height, mip_depth, image, format, quality) {
        Ok(encoded) => {
            let ghost before = encoded_data@;
            append(encoded_data, encoded.as_slice());
            proof {
                assert(encoded_data@.subrange(before.len() as int, encoded_data@.len() as int)
                    =~= encoded@);
                assert(encoded_data@.subrange(0, before.len() as int) =~= before);
            }
        },
        // The image is as long as its dimensions say, and no larger than the
        // surface, which has been found fit for the encoder.
        Err(_) => vstd::pervasive::unreached(),
    }
}

/// Adds the levels of one layer to `encoded_data`: the base level, encoded
/// from the pixels that the surface holds for it, and after it `num_mipmaps - 1`
/// further levels. Where `use_surface` is set each of these is encoded from the
/// pixels that the surface holds for the level, filled up with zeros to whole
/// blocks; else from the image of the level above, halved.
///
/// The surface has been found fit for encoding to `format`, and `encoded_data`
/// holds the layers before this one. So nothing fails here.
fn encode_mipmaps_rgba8(
    encoded_data: &mut Vec<u8>,
    surface: &SurfaceRgba8<&[u8]>,
    format: ImageFormat,
    quality: Quality,
    num_mipmaps: u32,
    use_surface: bool,
    layer: u32,
) -> (r: Result<(), SurfaceError>)
    requires
        spec_fit_for_encoding(surface, format, layer),
        num_mipmaps >= 1,
        use_surface ==> num_mipmaps <= spec_level_count(surface.mipmaps),
        old(encoded_data)@.len() == spec_offset(
            format,
            surface.width,
            surface.height,
            surface.depth,
            num_mipmaps,
            layer,
            0,
        ),
    ensures
        r is Ok,
        final(encoded_data)@.len() == spec_offset(
            format,
            surface.width,
            surface.height,
            surface.depth,
            num_mipmaps,
            (layer + 1) as u32,
            0,
        ),
        final(encoded_data)@.subrange(0, old(encoded_data)@.len() as int) == old(encoded_data)@,
        forall|mipmap: u32|
            mipmap < num_mipmaps ==> #[trigger] spec_level_is_encoded(
                final(encoded_data)@,
                num_mipmaps,
                format,
                surface.data@,
                surface.width,
                surface.height,
                surface.depth,
                surface.mipmaps,
                use_surface,
                layer,
                mipmap,
            ),
{
    let width: u32 = surface.width;
    let height: u32 = surface.height;
    let depth: u32 = surface.depth;
    let ghost block = format.spec_block_dimensions();
    let ghost start = old(encoded_data)@.len() as int;
    let ghost per_layer = spec_levels_size(format, width, height, depth, num_mipmaps as nat);
    let len: usize = surface.data.len();
    proof {
        lemma_level_in_bounds(
            ImageFormat::R8G8B8A8Unorm,
            width,
            height,
            depth,
            surface.layers,
            surface.mipmaps,
            len,
            layer,
            0,
        );
        lemma_base_level_size(width, height, depth);
        lemma_physical_dimension(width, block.0, 0);
        lemma_physical_dimension(height, block.1, 0);
        lemma_physical_dimension(depth, block.2, 0);
        assert(spec_levels_size(format, width, height, depth, 0) == 0);
        assert((layer + 1) * per_layer == layer * per_layer + per_layer) by (nonlinear_arith);
    }
    // The base mip level is always included.
    let mut mip_image: Vec<u8> = vstd::slice::slice_to_vec(
        held_level(
            surface.data,
            ImageFormat::R8G8B8A8Unorm,
            width,
            height,
            depth,
            surface.layers,
            surface.mipmaps,
            layer,
            0,
        ),
    );
    encode_level(encoded_data, format, quality, width, height, depth, 0, mip_image.as_slice());
    let mut previous_width: usize = width as usize;
    let mut previous_height: usize = height as usize;
    let mut previous_depth: usize = depth as usize;
    proof {
        reveal_with_fuel(spec_levels_size, 2);
    }
    let mut mipmap: u32 = 1;
    while mipmap < num_mipmaps
        invariant
            1 <= mipmap <= num_mipmaps,
            width == surface.width,
            height == surface.height,
            depth == surface.depth,
            block == format.spec_block_dimensions(),
            per_layer == spec_levels_size(format, width, height, depth, num_mipmaps as nat),
            start == old(encoded_data)@.len(),
            start == layer * per_layer,
            spec_fit_for_encoding(surface, format, layer),
            use_surface ==> num_mipmaps <= spec_level_count(surface.mipmaps),
            previous_width == spec_physical_dimension(width, block.0, (mipmap - 1) as u32),
            previous_height == spec_physical_dimension(height, block.1, (mipmap - 1) as u32),
            previous_depth == spec_physical_dimension(depth, block.2, (mipmap - 1) as u32),
            mip_image@ == spec_level_image(
                surface.data@,
                width,
                height,
                depth,
                surface.mipmaps,
                block,
                use_surface,
                layer,
                (mipmap - 1) as nat,
            ),
            mip_image@.len() == previous_width * previous_height * previous_depth * 4,
            encoded_data@.len() == start + spec_levels_size(
                format,
                width,
                height,
                depth,
                mipmap as nat,
            ),
            encoded_data@.subrange(0, start) == old(encoded_data)@,
            forall|m: u32|
                m < mipmap ==> #[trigger] spec_level_is_encoded(
                    encoded_data@,
                    num_mipmaps,
                    format,
                    surface.data@,
                    width,
                    height,
                    depth,
                    surface.mipmaps,
                    use_surface,
                    layer,
                    m,
                ),
        decreases num_mipmaps - mipmap,
    {
        let (block_width, block_height, block_depth) = format.block_dimensions();
        mip_image = level_image(
            surface,
            format,
            use_surface,
            layer,
            mipmap,
            &mip_image,
            previous_width,
            previous_height,
            previous_depth,
        );
        let ghost before = encoded_data@;
        encode_level(
            encoded_data,
            format,
            quality,
            width,
            height,
            depth,
            mipmap,
            mip_image.as_slice(),
        );
        proof {
            lemma_levels_size_ordered(format, width, height, depth, 0, mipmap as nat);
            lemma_levels_size_ordered(format, width, height, depth, 0, num_mipmaps as nat);
            lemma_level_size_nonnegative(format, width, height, depth, mipmap);
            assert(0 <= start) by (nonlinear_arith)
                requires
                    start == layer * per_layer,
                    0 <= layer,
                    0 <= per_layer,
            ;
            let kept = encoded_data@.subrange(0, before.len() as int);
            assert(encoded_data@.subrange(0, start) =~= kept.subrange(0, start));
            assert forall|m: u32| m < mipmap + 1 implies #[trigger] spec_level_is_encoded(
                encoded_data@,
                num_mipmaps,
                format,
                surface.data@,
                width,
                height,
                depth,
                surface.mipmaps,
                use_surface,
                layer,
                m,
            ) by {
                lemma_levels_size_ordered(format, width, height, depth, 0, m as nat);
                lemma_level_size_nonnegative(format, width, height, depth, m);
                assert(0 <= layer * per_layer) by (nonlinear_arith)
                    requires
                        0 <= layer,
                        0 <= per_layer,
                ;
                if m < mipmap {
                    lemma_levels_size_ordered(
                        format,
                        width,
                        height,
                        depth,
                        (m + 1) as nat,
                        mipmap as nat,
                    );
                    lemma_level_stays(
                        before,
                        encoded_data@,
                        num_mipmaps,
                        format,
                        surface.data@,
                        width,
                        height,
                        depth,
                        surface.mipmaps,
                        use_surface,
                        layer,
                        m,
                    );
                }
            }
        }
        // What the next level is halved from.
        previous_width = physical_dimension(width, block_width, mipmap) as usize;
        previous_height = physical_dimension(height, block_height, mipmap) as usize;
        previous_depth = physical_dimension(depth, block_depth, mipmap) as usize;
        mipmap = mipmap + 1;
    }
    Ok(())
}

/// The number of levels that a surface is encoded with.
pub fn mipmap_count(
    mipmaps: Mipmaps,
    width: u32,
    height: u32,
    depth: u32,
    surface_mipmaps: u32,
) -> (count: u32)
    ensures
        count == spec_mipmap_count(mipmaps, width, height, depth, surface_mipmaps),
        count >= 1,
        mipmaps is Disabled ==> count == 1,
        mipmaps is FromSurface ==> count == spec_level_count(surface_mipmaps),
{
    let largest: u32 = if width >= height && width >= depth {
        width
    } else if height >= depth {
        height
    } else {
        depth
    };
    let asked: u32 = match mipmaps {
        Mipmaps::Disabled => 1,
        Mipmaps::FromSurface => surface_mipmaps,
        Mipmaps::GeneratedExact(count) => count,
        Mipmaps::GeneratedAutomatic => max_mipmap_count(largest),
    };
    if asked < 1 {
        1
    } else {
        asked
    }
}

/// Encodes a surface of RGBA pixels to `format`, with all its layers and with
/// the mip levels that `mipmaps` asks for.
///
/// The result has the dimensions and layers of `surface`, and at least one
/// level. Its data holds layer after layer and in each layer level after level,
/// each where `Surface::get` looks for it; each level is encoded from the
/// level's image, which is as large as the blocks that cover the level:
/// - the base level from the pixels that `surface` holds for the layer;
/// - with `Mipmaps::FromSurface` each further level from the pixels that
///   `surface` holds for it, filled up with zeros to whole blocks;
/// - else each further level from the image of the level above, halved.
///
/// The surface is held against `format` before anything is encoded, as
/// `SurfaceRgba8::validate_encode` says: what that answers is the only way to
/// fail. A surface of which a dimension is zero is rejected, and so is one with
/// a width or height that is no multiple of the block's, however much data
/// comes with it. A level below the base level need not be made of whole
/// blocks.
pub fn encode_surface_rgba8(
    surface: SurfaceRgba8<&[u8]>,
    format: ImageFormat,
    quality: Quality,
    mipmaps: Mipmaps,
) -> (r: Result<Surface<Vec<u8>>, SurfaceError>)
    ensures
        match r {
            Ok(encoded) => {
                &&& spec_validate_encode(
                    surface.width,
                    surface.height,
                    surface.depth,
                    surface.layers,
                    surface.mipmaps,
                    surface.data.len(),
                    format,
                ) is Ok
                &&& encoded.width == surface.width
                &&& encoded.height == surface.height
                &&& encoded.depth == surface.depth
                &&& encoded.layers == surface.layers
                &&& encoded.mipmaps == spec_mipmap_count(
                    mipmaps,
                    surface.width,
                    surface.height,
                    surface.depth,
                    surface.mipmaps,
                )
                &&& encoded.image_format == format
                &&& encoded.data@.len() == spec_surface_size(
                    format,
                    surface.width,
                    surface.height,
                    surface.depth,
                    surface.layers,
                    encoded.mipmaps,
                )
                &&& forall|layer: u32, mipmap: u32|
                    layer < surface.layers && mipmap < encoded.mipmaps
                        ==> #[trigger] spec_level_is_encoded(
                        encoded.data@,
                        encoded.mipmaps,
                        format,
                        surface.data@,
                        surface.width,
                        surface.height,
                        surface.depth,
                        surface.mipmaps,
                        mipmaps is FromSurface,
                        layer,
                        mipmap,
                    )
            },
            Err(e) => spec_validate_encode(
                surface.width,
                surface.height,
                surface.depth,
                surface.layers,
                surface.mipmaps,
                surface.data.len(),
                format,
            ) == Err::<(), SurfaceError>(e),
        },
        surface.width == 0 || surface.height == 0 || surface.depth == 0 ==> r == Err::<
            Surface<Vec<u8>>,
            SurfaceError,
        >(
            SurfaceError::ZeroSizedSurface {
                width: surface.width,
                height: surface.height,
                depth: surface.depth,
            },
        ),
        surface.width % format.spec_block_dimensions().0 != 0 || surface.height
            % format.spec_block_dimensions().1 != 0 ==> r is Err,
        mipmaps is Disabled ==> (r matches Ok(encoded) ==> encoded.mipmaps == 1),
{
    let width: u32 = surface.width;
    let height: u32 = surface.height;
    let depth: u32 = surface.depth;
    let layers: u32 = surface.layers;
    match surface.validate_encode(format) {
        Err(e) => {
            return Err(e);
        },
        Ok(_) => {},
    }
    let num_mipmaps: u32 = mipmap_count(mipmaps, width, height, depth, surface.mipmaps);
    let use_surface: bool = match mipmaps {
        Mipmaps::FromSurface => true,
        _ => false,
    };
    let ghost per_layer = spec_levels_size(format, width, height, depth, num_mipmaps as nat);
    let mut surface_data: Vec<u8> = Vec::new();
    proof {
        lemma_levels_size_ordered(format, width, height, depth, 0, num_mipmaps as nat);
        assert(0 * per_layer == 0);
    }
    let mut layer: u32 = 0;
    while layer < layers
        invariant
            layer <= layers,
            width == surface.width,
            height == surface.height,
            depth == surface.depth,
            layers == surface.layers,
            num_mipmaps >= 1,
            use_surface == (mipmaps is FromSurface),
            use_surface ==> num_mipmaps <= spec_level_count(surface.mipmaps),
            per_layer == spec_levels_size(format, width, height, depth, num_mipmaps as nat),
            0 <= per_layer,
            spec_validate_encode(
                width,
                height,
                depth,
                layers,
                surface.mipmaps,
                surface.data.len(),
                format,
            ) is Ok,
            surface_data@.len() == layer * per_layer,
            forall|l: u32, m: u32|
                l < layer && m < num_mipmaps ==> #[trigger] spec_level_is_encoded(
                    surface_data@,
                    num_mipmaps,
                    format,
                    surface.data@,
                    width,
                    height,
                    depth,
                    surface.mipmaps,
                    use_surface,
                    l,
                    m,
                ),
        decreases layers - layer,
    {
        let ghost before = surface_data@;
        match encode_mipmaps_rgba8(
            &mut surface_data,
            &surface,
            format,
            quality,
            num_mipmaps,
            use_surface,
            layer,
        ) {
            Ok(_) => {},
            Err(e) => {
                return Err(e);
            },
        }
        proof {
            assert((layer + 1) * per_layer == layer * per_layer + per_layer) by (nonlinear_arith);
            assert forall|l: u32, m: u32|
                l < layer + 1 && m < num_mipmaps implies #[trigger] spec_level_is_encoded(
                surface_data@,
                num_mipmaps,
                format,
                surface.data@,
                width,
                height,
                depth,
                surface.mipmaps,
                use_surface,
                l,
                m,
            ) by {
                if l < layer {
                    lemma_levels_size_ordered(format, width, height, depth, 0, m as nat);
                    lemma_levels_size_ordered(
                        format,
                        width,
                        height,
                        depth,
                        (m + 1) as nat,
                        num_mipmaps as nat,
                    );
                    lemma_level_size_nonnegative(format, width, height, depth, m);
                    assert(0 <= l * per_layer && (l + 1) * per_layer <= layer * per_layer && l
                        * per_layer + per_layer == (l + 1) * per_layer) by (nonlinear_arith)
                        requires
                            0 <= l < layer,
                            0 <= per_layer,
                    ;
                    lemma_level_stays(
                        before,
                        surface_data@,
                        num_mipmaps,
                        format,
                        surface.data@,
                        width,
                        height,
                        depth,
                        surface.mipmaps,
                        use_surface,
                        l,
                        m,
                    );
                }
            }
        }
        layer = layer + 1;
    }
    Ok(
        Surface {
            width,
            height,
            depth,
            layers,
            mipmaps: num_mipmaps,
            image_format: format,
            data: surface_data,
        },
    )
}

} // verus!
