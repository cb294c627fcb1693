//! Decoding surfaces to RGBA pixels: one level at a time, and whole surfaces
//! with all their layers and mip levels.

use vstd::prelude::*;
use crate::bcn::decode::{rgba8_from_bcn, spec_rgba8_from_bcn};
use crate::encode::append;
use crate::error::SurfaceError;
use crate::format::ImageFormat;
use crate::mip::{mip_dimension, spec_mip_dimension, spec_validate_length};
use crate::rgba::{
    bgra8_from_rgba8, encode_rgba8_from_rgba8, lemma_pixel_count, rgba8_from_r8,
    rgba8_from_rgbaf32, spec_bgra8_from_rgba8, spec_rgba8_from_r8, spec_rgba8_from_rgba8,
    spec_rgba8_from_rgbaf32,
};
use crate::surface::{
    held_level, lemma_level_in_bounds, lemma_level_size_nonnegative, lemma_levels_size_ordered,
    level_count,
    spec_level_bytes, spec_level_count, spec_level_size, spec_levels_size, spec_offset,
    spec_surface_size, spec_validate_surface, Surface, SurfaceRgba8,
};

verus! {

/// Why the `width` x `height` x `depth` pixels cannot be decoded from a buffer
/// of `len` bytes in `format`, or `None` where they can.
pub open spec fn spec_decode_rgba8_error(
    width: u32,
    height: u32,
    depth: u32,
    len: usize,
    format: ImageFormat,
) -> Option<SurfaceError> {
    match spec_validate_length(
        width,
        height,
        depth,
        format.spec_block_dimensions(),
        format.spec_block_size_in_bytes(),
        len,
    ) {
        Err(e) => Some(e),
        Ok(_) => None,
    }
}

/// The RGBA pixels that the blocks at the head of `data` stand for.
pub open spec fn spec_decode_rgba8(
    format: ImageFormat,
    width: u32,
    height: u32,
    depth: u32,
    data: Seq<u8>,
) -> Seq<u8> {
    match format {
        ImageFormat::R8Unorm => spec_rgba8_from_r8(width * height * depth, data),
        ImageFormat::R8G8B8A8Unorm | ImageFormat::R8G8B8A8Srgb => spec_rgba8_from_rgba8(
            width * height * depth,
            data,
        ),
        ImageFormat::B8G8R8A8Unorm | ImageFormat::B8G8R8A8Srgb => spec_bgra8_from_rgba8(
            width * height * depth,
            data,
        ),
        ImageFormat::R32G32B32A32Float => spec_rgba8_from_rgbaf32(width * height * depth, data),
        _ => spec_rgba8_from_bcn(format, width, height, depth, data),
    }
}

/// Decodes the surface of `width` x `height` x `depth` pixels whose blocks
/// stand at the head of `data` to RGBA pixels, four bytes to a pixel.
///
/// A format without compression gives each pixel's channels their place. In a
/// block-compressed format each block is decoded to its tile, and the pixels of
/// the tiles that lie inside the surface are kept. Every block has a tile: once
/// the length of `data` is found sufficient, nothing fails.
///
/// Answers `PixelCountWouldOverflow` where the size of the blocks does not fit
/// a `usize`, and `NotEnoughData` where `data` is shorter than that.
pub fn decode_rgba8(width: u32, height: u32, depth: u32, data: &[u8], format: ImageFormat) -> (r:
    Result<Vec<u8>, SurfaceError>)
    ensures
        match r {
            Ok(pixels) => spec_decode_rgba8_error(width, height, depth, data.len(), format)
                is None && pixels@ == spec_decode_rgba8(format, width, height, depth, data@),
            Err(e) => spec_decode_rgba8_error(width, height, depth, data.len(), format) == Some(e),
        },
{
    match format {
        ImageFormat::R8Unorm => rgba8_from_r8(width, height, depth, data),
        ImageFormat::R8G8B8A8Unorm | ImageFormat::R8G8B8A8Srgb => encode_rgba8_from_rgba8(
            width,
            height,
            depth,
            data,
        ),
        ImageFormat::B8G8R8A8Unorm | ImageFormat::B8G8R8A8Srgb => bgra8_from_rgba8(
            width,
            height,
            depth,
            data,
        ),
        ImageFormat::R32G32B32A32Float => rgba8_from_rgbaf32(width, height, depth, data),
        _ => rgba8_from_bcn(format, width, height, depth, data),
    }
}

/// Whether the bytes of `decoded` that stand where level `mipmap` of layer
/// `layer` belongs, in a surface of RGBA pixels, are the pixels that the level's
/// blocks in `data` stand for.
pub open spec fn spec_level_is_decoded(
    decoded: Seq<u8>,
    format: ImageFormat,
    data: Seq<u8>,
    width: u32,
    height: u32,
    depth: u32,
    mipmaps: u32,
    layer: u32,
    mipmap: u32,
) -> bool {
    spec_level_bytes(
        decoded,
        ImageFormat::R8G8B8A8Unorm,
        width,
        height,
        depth,
        mipmaps,
        layer,
        mipmap,
    ) == spec_decode_rgba8(
        format,
        spec_mip_dimension(width, mipmap),
        spec_mip_dimension(height, mipmap),
        spec_mip_dimension(depth, mipmap),
        spec_level_bytes(data, format, width, height, depth, mipmaps, layer, mipmap),
    )
}

/// What `after` holds where `before` ended is what `before` held there.
pub proof fn lemma_subrange_stays(before: Seq<u8>, after: Seq<u8>, from: int, to: int)
    requires
        before.len() <= after.len(),
        after.subrange(0, before.len() as int) == before,
        0 <= from <= to <= before.len(),
    ensures
        after.subrange(from, to) == before.subrange(from, to),
{
    let kept = after.subrange(0, before.len() as int);
    assert(after.subrange(from, to) =~= kept.subrange(from, to));
}

/// The pixels of a level take four bytes each.
pub proof fn lemma_rgba8_level_size(width: u32, height: u32, depth: u32, mipmap: u32)
    ensures
        spec_level_size(ImageFormat::R8G8B8A8Unorm, width, height, depth, mipmap)
            == spec_mip_dimension(width, mipmap) * spec_mip_dimension(height, mipmap)
            * spec_mip_dimension(depth, mipmap) * 4,
{
    lemma_pixel_count(
        spec_mip_dimension(width, mipmap),
        spec_mip_dimension(height, mipmap),
        spec_mip_dimension(depth, mipmap),
        4,
    );
}

/// The pixels that are decoded from a surface's blocks are four bytes for each
/// pixel of the surface.
pub proof fn lemma_decoded_len(
    format: ImageFormat,
    width: u32,
    height: u32,
    depth: u32,
    data: Seq<u8>,
)
    requires
        spec_decode_rgba8_error(width, height, depth, data.len() as usize, format) is None,
        data.len() <= usize::MAX,
    ensures
        spec_decode_rgba8(format, width, height, depth, data).len() == width * height * depth * 4,
{
    lemma_pixel_count(width, height, depth, 4);
    lemma_pixel_count(width, height, depth, 1);
    lemma_pixel_count(width, height, depth, 16);
}

/// Decodes level `mipmap` of layer `layer` and adds its pixels to `decoded`.
fn decode_level(decoded: &mut Vec<u8>, surface: &Surface<&[u8]>, layer: u32, mipmap: u32)
    requires
        spec_validate_surface(
            surface.image_format,
            surface.width,
            surface.height,
            surface.depth,
            surface.layers,
            surface.mipmaps,
            surface.data.len(),
        ) is Ok,
        layer < surface.layers,
        mipmap < spec_level_count(surface.mipmaps),
    ensures
        final(decoded)@.len() == old(decoded)@.len() + spec_level_size(
            ImageFormat::R8G8B8A8Unorm,
            surface.width,
            surface.height,
            surface.depth,
            mipmap,
        ),
        final(decoded)@.subrange(0, old(decoded)@.len() as int) == old(decoded)@,
        final(decoded)@.subrange(old(decoded)@.len() as int, final(decoded)@.len() as int)
            == spec_decode_rgba8(
            surface.image_format,
            spec_mip_dimension(surface.width, mipmap),
            spec_mip_dimension(surface.height, mipmap),
            spec_mip_dimension(surface.depth, mipmap),
            spec_level_bytes(
                surface.data@,
                surface.image_format,
                surface.width,
                surface.height,
                surface.depth,
                surface.mipmaps,
                layer,
                mipmap,
            ),
        ),
{
    let format: ImageFormat = surface.image_format;
    let len: usize = surface.data.len();
    proof {
        lemma_level_in_bounds(
            format,
            surface.width,
            surface.height,
            surface.depth,
            surface.layers,
            surface.mipmaps,
            len,
            layer,
            mipmap,
        );
        lemma_rgba8_level_size(surface.width, surface.height, surface.depth, mipmap);
    }
    let width: u32 = mip_dimension(surface.width, mipmap);
    let height: u32 = mip_dimension(surface.height, mipmap);
    let depth: u32 = mip_dimension(surface.depth, mipmap);
    let blocks: &[u8] = held_level(
        surface.data,
        format,
        surface.width,
        surface.height,
        surface.depth,
        surface.layers,
        surface.mipmaps,
        layer,
        mipmap,
    );
    proof {
        lemma_decoded_len(format, width, height, depth, blocks@);
    }
    match decode_rgba8(width, height, depth, blocks, format) {
        Ok(pixels) => {
            let ghost before = decoded@;
            append(decoded, pixels.as_slice());
            proof {
                assert(decoded@.subrange(before.len() as int, decoded@.len() as int) =~= pixels@);
                assert(decoded@.subrange(0, before.len() as int) =~= before);
            }
        },
        // The level is as long as its blocks.
        Err(_) => vstd::pervasive::unreached(),
    }
}

/// Decodes a surface to RGBA pixels, with all its layers and levels.
///
/// The result has the dimensions, the layers and the levels of `surface`. Its
/// data holds layer after layer and in each layer level after level, each
/// where `SurfaceRgba8::get` looks for it, and each level holds the pixels that
/// the level's blocks stand for.
///
/// The surface's dimensions are held against its data before anything is
/// decoded, as `Surface::validate` says: what that answers is the only way to
/// fail.
pub fn decode_surface_rgba8(surface: Surface<&[u8]>) -> (r: Result<
    SurfaceRgba8<Vec<u8>>,
    SurfaceError,
>)
    ensures
        match r {
            Ok(decoded) => {
                &&& spec_validate_surface(
                    surface.image_format,
                    surface.width,
                    surface.height,
                    surface.depth,
                    surface.layers,
                    surface.mipmaps,
                    surface.data.len(),
                ) is Ok
                &&& decoded.width == surface.width
                &&& decoded.height == surface.height
                &&& decoded.depth == surface.depth
                &&& decoded.layers == surface.layers
                &&& decoded.mipmaps == spec_level_count(surface.mipmaps)
                &&& decoded.data@.len() == spec_surface_size(
                    ImageFormat::R8G8B8A8Unorm,
                    surface.width,
                    surface.height,
                    surface.depth,
                    surface.layers,
                    decoded.mipmaps,
                )
                &&& forall|layer: u32, mipmap: u32|
                    layer < surface.layers && mipmap < decoded.mipmaps
                        ==> #[trigger] spec_level_is_decoded(
                        decoded.data@,
                        surface.image_format,
                        surface.data@,
                        surface.width,
                        surface.height,
                        surface.depth,
                        surface.mipmaps,
                        layer,
                        mipmap,
                    )
            },
            Err(e) => spec_validate_surface(
                surface.image_format,
                surface.width,
                surface.height,
                surface.depth,
                surface.layers,
                surface.mipmaps,
                surface.data.len(),
            ) == Err::<(), SurfaceError>(e),
        },
{
    let width: u32 = surface.width;
    let height: u32 = surface.height;
    let depth: u32 = surface.depth;
    let layers: u32 = surface.layers;
    let format: ImageFormat = surface.image_format;
    match surface.validate() {
        Err(e) => {
            return Err(e);
        },
        Ok(_) => {},
    }
    let levels: u32 = level_count(surface.mipmaps);
    let ghost rgba8 = ImageFormat::R8G8B8A8Unorm;
    let ghost per_layer = spec_levels_size(rgba8, width, height, depth, levels as nat);
    let mut data: Vec<u8> = Vec::new();
    proof {
        lemma_levels_size_ordered(rgba8, width, height, depth, 0, levels as nat);
        assert(0 * per_layer == 0);
    }
    let mut layer: u32 = 0;
    while layer < layers
        invariant
            layer <= layers,
            width == surface.width,
            height == surface.height,
            depth == surface.depth,
            layers == surface.layers,
            format == surface.image_format,
            levels == spec_level_count(surface.mipmaps),
            rgba8 == ImageFormat::R8G8B8A8Unorm,
            per_layer == spec_levels_size(rgba8, width, height, depth, levels as nat),
            0 <= per_layer,
            spec_validate_surface(
                format,
                width,
                height,
                depth,
                layers,
                surface.mipmaps,
                surface.data.len(),
            ) is Ok,
            data@.len() == layer * per_layer,
            forall|l: u32, m: u32|
                l < layer && m < levels ==> #[trigger] spec_level_is_decoded(
                    data@,
                    format,
                    surface.data@,
                    width,
                    height,
                    depth,
                    surface.mipmaps,
                    l,
                    m,
                ),
        decreases layers - layer,
    {
        let mut mipmap: u32 = 0;
        proof {
            assert(spec_levels_size(rgba8, width, height, depth, 0) == 0);
        }
        while mipmap < levels
            invariant
                layer < layers,
                mipmap <= levels,
                width == surface.width,
                height == surface.height,
                depth == surface.depth,
                layers == surface.layers,
                format == surface.image_format,
                levels == spec_level_count(surface.mipmaps),
                rgba8 == ImageFormat::R8G8B8A8Unorm,
                per_layer == spec_levels_size(rgba8, width, height, depth, levels as nat),
                0 <= per_layer,
                spec_validate_surface(
                    format,
                    width,
                    height,
                    depth,
                    layers,
                    surface.mipmaps,
                    surface.data.len(),
                ) is Ok,
                data@.len() == layer * per_layer + spec_levels_size(
                    rgba8,
                    width,
                    height,
                    depth,
                    mipmap as nat,
                ),
                forall|l: u32, m: u32|
                    (l < layer && m < levels) || (l == layer && m < mipmap)
                        ==> #[trigger] spec_level_is_decoded(
                        data@,
                        format,
                        surface.data@,
                        width,
                        height,
                        depth,
                        surface.mipmaps,
                        l,
                        m,
                    ),
            decreases levels - mipmap,
        {
            let ghost before = data@;
            decode_level(&mut data, &surface, layer, mipmap);
            proof {
                lemma_level_size_nonnegative(rgba8, width, height, depth, mipmap);
                lemma_levels_size_ordered(rgba8, width, height, depth, 0, mipmap as nat);
                assert(0 <= layer * per_layer) by (nonlinear_arith)
                    requires
                        0 <= layer,
                        0 <= per_layer,
                ;
                assert forall|l: u32, m: u32|
                    (l < layer && m < levels) || (l == layer && m < mipmap
                        + 1) implies #[trigger] spec_level_is_decoded(
                    data@,
                    format,
                    surface.data@,
                    width,
                    height,
                    depth,
                    surface.mipmaps,
                    l,
                    m,
                ) by {
                    lemma_level_size_nonnegative(rgba8, width, height, depth, m);
                    lemma_levels_size_ordered(rgba8, width, height, depth, 0, m as nat);
                    let offset = spec_offset(rgba8, width, height, depth, levels, l, m);
                    let size = spec_level_size(rgba8, width, height, depth, m);
                    assert(0 <= l * per_layer) by (nonlinear_arith)
                        requires
                            0 <= l,
                            0 <= per_layer,
                    ;
                    if l == layer && m == mipmap {
                        assert(offset == before.len());
                    } else {
                        if l < layer {
                            lemma_levels_size_ordered(
                                rgba8,
                                width,
                                height,
                                depth,
                                (m + 1) as nat,
                                levels as nat,
                            );
                            assert((l + 1) * per_layer <= layer * per_layer && l * per_layer
                                + per_layer == (l + 1) * per_layer) by (nonlinear_arith)
                                requires
                                    0 <= l < layer,
                                    0 <= per_layer,
                            ;
                        } else {
                            lemma_levels_size_ordered(
                                rgba8,
                                width,
                                height,
                                depth,
                                (m + 1) as nat,
                                mipmap as nat,
                            );
                        }
                        lemma_subrange_stays(before, data@, offset, offset + size);
                        assert(spec_level_is_decoded(
                            before,
                            format,
                            surface.data@,
                            width,
                            height,
                            depth,
                            surface.mipmaps,
                            l,
                            m,
                        ));
                    }
                }
            }
            mipmap = mipmap + 1;
        }
        proof {
            assert((layer + 1) * per_layer == layer * per_layer + per_layer) by (nonlinear_arith);
        }
        layer = layer + 1;
    }
    Ok(SurfaceRgba8 { width, height, depth, layers, mipmaps: levels, data })
}

/// Whether encoding to `format` only gives the channels of each pixel their
/// place, so that nothing is lost.
pub open spec fn spec_keeps_all_channels(format: ImageFormat) -> bool {
    format is R8G8B8A8Unorm || format is R8G8B8A8Srgb || format is B8G8R8A8Unorm
        || format is B8G8R8A8Srgb
}

/// Encoding to a format that only gives the channels their place, and
/// decoding what was encoded, gives back the pixels.
pub proof fn lemma_encode_decode_round_trip(
    format: ImageFormat,
    width: u32,
    height: u32,
    depth: u32,
    data: Seq<u8>,
    encoded: Seq<u8>,
)
    requires
        spec_keeps_all_channels(format),
        width * height * depth * 4 <= data.len(),
        crate::encode::spec_is_encoding(
            format,
            width as int,
            height as int,
            depth as int,
            data,
            encoded,
        ),
    ensures
        spec_decode_rgba8(format, width, height, depth, encoded) == data.subrange(
            0,
            width * height * depth * 4,
        ),
{
    lemma_pixel_count(width, height, depth, 4);
    let pixels = width * height * depth;
    if format is B8G8R8A8Unorm || format is B8G8R8A8Srgb {
        crate::rgba::lemma_bgra8_round_trip(pixels, data);
        let once = spec_bgra8_from_rgba8(pixels, data);
        assert(spec_bgra8_from_rgba8(pixels, once) == data.subrange(0, 4 * pixels));
    } else {
        assert(data.subrange(0, 4 * pixels).subrange(0, 4 * pixels) =~= data.subrange(
            0,
            4 * pixels,
        ));
    }
}

} // verus!
