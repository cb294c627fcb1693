//! Decoding the block-compressed formats to RGBA pixels.

use vstd::prelude::*;
use crate::error::SurfaceError;
use crate::format::ImageFormat;
use crate::image::{assemble, spec_assembled};
use crate::mip::{lemma_div_round_up, spec_div_round_up, spec_validate_length, validate_length};
use crate::rgba::{
    spec_bgra8_from_rgba8, spec_le_u32, spec_rgba8_from_r8, spec_rgba8_from_rgba8,
    spec_rgba8_from_rgbaf32,
};
use crate::unorm::{half_to_unorm8, single_to_unorm8, spec_half_to_unorm8};

verus! {

/// The tile that `bcdec_rs::bc1` decodes from a block of 8 bytes: 16 pixels of
/// four bytes, row by row.
pub uninterp spec fn bc1_rgba8(block: Seq<u8>) -> Seq<u8>;

/// The tile that `bcdec_rs::bc2` decodes from a block of 16 bytes: 16 pixels of
/// four bytes, row by row.
pub uninterp spec fn bc2_rgba8(block: Seq<u8>) -> Seq<u8>;

/// The tile that `bcdec_rs::bc3` decodes from a block of 16 bytes: 16 pixels of
/// four bytes, row by row.
pub uninterp spec fn bc3_rgba8(block: Seq<u8>) -> Seq<u8>;

/// The tile that `bcdec_rs::bc4` decodes from a block of 8 bytes: 16 pixels of
/// one byte, row by row. With `is_signed` the block's values are read as signed
/// and each byte holds a signed value.
pub uninterp spec fn bc4_r8(block: Seq<u8>, is_signed: bool) -> Seq<u8>;

/// The tile that `bcdec_rs::bc5` decodes from a block of 16 bytes: 16 pixels of
/// two bytes, row by row. With `is_signed` the block's values are read as
/// signed and each byte holds a signed value.
pub uninterp spec fn bc5_rg8(block: Seq<u8>, is_signed: bool) -> Seq<u8>;

/// The tile that `bcdec_rs::bc6h_half` decodes from a block of 16 bytes: 16
/// pixels of three half precision numbers, given by their bits, row by row.
pub uninterp spec fn bc6h_rgb16(block: Seq<u8>, is_signed: bool) -> Seq<u16>;

/// The tile that `bcdec_rs::bc7` decodes from a block of 16 bytes: 16 pixels of
/// four bytes, row by row.
pub uninterp spec fn bc7_rgba8(block: Seq<u8>) -> Seq<u8>;

/// Calls `bcdec_rs::bc1` with room for one tile, rows of 16 bytes. The crate
/// writes all 64 bytes, whatever the block holds.
#[verifier::external_body]
fn bc1_decode(block: &[u8]) -> (pixels: Vec<u8>)
    requires
        block@.len() == 8,
    ensures
        pixels@ == bc1_rgba8(block@),
        pixels@.len() == 64,
{
    let mut pixels = vec![0u8; 64];
    bcdec_rs::bc1(block, &mut pixels, 16);
    pixels
}

/// Calls `bcdec_rs::bc2` with room for one tile, rows of 16 bytes. The crate
/// writes all 64 bytes, whatever the block holds.
#[verifier::external_body]
fn bc2_decode(block: &[u8]) -> (pixels: Vec<u8>)
    requires
        block@.len() == 16,
    ensures
        pixels@ == bc2_rgba8(block@),
        pixels@.len() == 64,
{
    let mut pixels = vec![0u8; 64];
    bcdec_rs::bc2(block, &mut pixels, 16);
    pixels
}

/// Calls `bcdec_rs::bc3` with room for one tile, rows of 16 bytes. The crate
/// writes all 64 bytes, whatever the block holds.
#[verifier::external_body]
fn bc3_decode(block: &[u8]) -> (pixels: Vec<u8>)
    requires
        block@.len() == 16,
    ensures
        pixels@ == bc3_rgba8(block@),
        pixels@.len() == 64,
{
    let mut pixels = vec![0u8; 64];
    bcdec_rs::bc3(block, &mut pixels, 16);
    pixels
}

/// Calls `bcdec_rs::bc4` with room for one tile, rows of 4 bytes. The crate
/// writes all 16 bytes, whatever the block holds.
#[verifier::external_body]
fn bc4_decode(block: &[u8], is_signed: bool) -> (pixels: Vec<u8>)
    requires
        block@.len() == 8,
    ensures
        pixels@ == bc4_r8(block@, is_signed),
        pixels@.len() == 16,
{
    let mut pixels = vec![0u8; 16];
    bcdec_rs::bc4(block, &mut pixels, 4, is_signed);
    pixels
}

/// Calls `bcdec_rs::bc5` with room for one tile, rows of 8 bytes. The crate
/// writes all 32 bytes, whatever the block holds.
#[verifier::external_body]
fn bc5_decode(block: &[u8], is_signed: bool) -> (pixels: Vec<u8>)
    requires
        block@.len() == 16,
    ensures
        pixels@ == bc5_rg8(block@, is_signed),
        pixels@.len() == 32,
{
    let mut pixels = vec![0u8; 32];
    bcdec_rs::bc5(block, &mut pixels, 8, is_signed);
    pixels
}

/// Calls `bcdec_rs::bc6h_half` with room for one tile, rows of 12 numbers. The
/// crate writes all 48 numbers, whatever the block holds.
#[verifier::external_body]
fn bc6h_decode(block: &[u8], is_signed: bool) -> (pixels: Vec<u16>)
    requires
        block@.len() == 16,
    ensures
        pixels@ == bc6h_rgb16(block@, is_signed),
        pixels@.len() == 48,
{
    let mut pixels = vec![0u16; 48];
    bcdec_rs::bc6h_half(block, &mut pixels, 12, is_signed);
    pixels
}

/// Calls `bcdec_rs::bc7` with room for one tile, rows of 16 bytes. The crate
/// writes all 64 bytes, whatever the block holds.
#[verifier::external_body]
fn bc7_decode(block: &[u8]) -> (pixels: Vec<u8>)
    requires
        block@.len() == 16,
    ensures
        pixels@ == bc7_rgba8(block@),
        pixels@.len() == 64,
{
    let mut pixels = vec![0u8; 64];
    bcdec_rs::bc7(block, &mut pixels, 16);
    pixels
}

/// RGBA pixels from pixels of red and green: no blue, no transparency.
pub open spec fn spec_rgba8_from_rg8(pixels: int, data: Seq<u8>) -> Seq<u8> {
    Seq::new(
        (4 * pixels) as nat,
        |i: int|
            if i % 4 == 0 {
                data[2 * (i / 4)]
            } else if i % 4 == 1 {
                data[2 * (i / 4) + 1]
            } else if i % 4 == 2 {
                0u8
            } else {
                255u8
            },
    )
}

/// RGBA pixels from pixels of three half precision numbers: each channel
/// brought to the values from 0 to 255, no transparency.
pub open spec fn spec_rgba8_from_rgb16(pixels: int, data: Seq<u16>) -> Seq<u8> {
    Seq::new(
        (4 * pixels) as nat,
        |i: int|
            if i % 4 == 3 {
                255u8
            } else {
                spec_half_to_unorm8(data[3 * (i / 4) + i % 4])
            },
    )
}

/// The RGBA pixels that a block of `format` stands for: the 16 pixels of a
/// tile, row by row, for a block-compressed format, and else a single pixel.
///
/// The formats of one or two channels are shown in gray, and in red and green.
/// For the signed ones among them each byte holds a signed value.
pub open spec fn spec_decode_block(format: ImageFormat, block: Seq<u8>) -> Seq<u8> {
    match format {
        ImageFormat::R8Unorm => spec_rgba8_from_r8(1, block),
        ImageFormat::R8G8B8A8Unorm | ImageFormat::R8G8B8A8Srgb => spec_rgba8_from_rgba8(1, block),
        ImageFormat::B8G8R8A8Unorm | ImageFormat::B8G8R8A8Srgb => spec_bgra8_from_rgba8(1, block),
        ImageFormat::R32G32B32A32Float => spec_rgba8_from_rgbaf32(1, block),
        ImageFormat::BC1Unorm | ImageFormat::BC1Srgb => bc1_rgba8(block),
        ImageFormat::BC2Unorm | ImageFormat::BC2Srgb => bc2_rgba8(block),
        ImageFormat::BC3Unorm | ImageFormat::BC3Srgb => bc3_rgba8(block),
        ImageFormat::BC4Unorm => spec_rgba8_from_r8(16, bc4_r8(block, false)),
        ImageFormat::BC4Snorm => spec_rgba8_from_r8(16, bc4_r8(block, true)),
        ImageFormat::BC5Unorm => spec_rgba8_from_rg8(16, bc5_rg8(block, false)),
        ImageFormat::BC5Snorm => spec_rgba8_from_rg8(16, bc5_rg8(block, true)),
        ImageFormat::BC6Ufloat => spec_rgba8_from_rgb16(16, bc6h_rgb16(block, false)),
        ImageFormat::BC6Sfloat => spec_rgba8_from_rgb16(16, bc6h_rgb16(block, true)),
        ImageFormat::BC7Unorm | ImageFormat::BC7Srgb => bc7_rgba8(block),
    }
}

/// Gray RGBA pixels from pixels of one byte.
fn tile_from_r8(red: &Vec<u8>) -> (tile: Vec<u8>)
    requires
        red@.len() == 16,
    ensures
        tile@ == spec_rgba8_from_r8(16, red@),
{
    let mut tile: Vec<u8> = Vec::with_capacity(64);
    let mut i: usize = 0;
    while i < 16
        invariant
            i <= 16,
            red@.len() == 16,
            tile@ == spec_rgba8_from_r8(i as int, red@),
        decreases 16 - i,
    {
        let r: u8 = red[i];
        tile.push(r);
        tile.push(r);
        tile.push(r);
        tile.push(255);
        i = i + 1;
    }
    tile
}

/// RGBA pixels from pixels of red and green.
fn tile_from_rg8(red_green: &Vec<u8>) -> (tile: Vec<u8>)
    requires
        red_green@.len() == 32,
    ensures
        tile@ == spec_rgba8_from_rg8(16, red_green@),
{
    let mut tile: Vec<u8> = Vec::with_capacity(64);
    let mut i: usize = 0;
    while i < 16
        invariant
            i <= 16,
            red_green@.len() == 32,
            tile@ == spec_rgba8_from_rg8(i as int, red_green@),
        decreases 16 - i,
    {
        tile.push(red_green[2 * i]);
        tile.push(red_green[2 * i + 1]);
        tile.push(0);
        tile.push(255);
        i = i + 1;
    }
    tile
}

/// RGBA pixels from pixels of three half precision numbers.
fn tile_from_rgb16(rgb: &Vec<u16>) -> (tile: Vec<u8>)
    requires
        rgb@.len() == 48,
    ensures
        tile@ == spec_rgba8_from_rgb16(16, rgb@),
{
    let mut tile: Vec<u8> = Vec::with_capacity(64);
    let mut i: usize = 0;
    while i < 16
        invariant
            i <= 16,
            rgb@.len() == 48,
            tile@ == spec_rgba8_from_rgb16(i as int, rgb@),
        decreases 16 - i,
    {
        tile.push(half_to_unorm8(rgb[3 * i]));
        tile.push(half_to_unorm8(rgb[3 * i + 1]));
        tile.push(half_to_unorm8(rgb[3 * i + 2]));
        tile.push(255);
        i = i + 1;
    }
    tile
}

/// The pixel of a block of a format without compression.
fn pixel_from_block(format: ImageFormat, block: &[u8]) -> (pixel: Vec<u8>)
    requires
        !format.is_bcn(),
        block@.len() == format.spec_block_size_in_bytes(),
    ensures
        pixel@ == spec_decode_block(format, block@),
        pixel@.len() == 4,
{
    let mut pixel: Vec<u8> = Vec::with_capacity(4);
    match format {
        ImageFormat::R8Unorm => {
            pixel.push(block[0]);
            pixel.push(block[0]);
            pixel.push(block[0]);
            pixel.push(255);
        },
        ImageFormat::B8G8R8A8Unorm | ImageFormat::B8G8R8A8Srgb => {
            pixel.push(block[2]);
            pixel.push(block[1]);
            pixel.push(block[0]);
            pixel.push(block[3]);
        },
        ImageFormat::R32G32B32A32Float => {
            let mut c: usize = 0;
            while c < 4
                invariant
                    c <= 4,
                    block@.len() == 16,
                    pixel@ == Seq::new(
                        c as nat,
                        |k: int| crate::unorm::spec_single_to_unorm8(spec_le_u32(block@, 4 * k)),
                    ),
                decreases 4 - c,
            {
                let bits: u32 = block[4 * c] as u32 + 256 * block[4 * c + 1] as u32 + 65536
                    * block[4 * c + 2] as u32 + 16777216 * block[4 * c + 3] as u32;
                pixel.push(single_to_unorm8(bits));
                c = c + 1;
            }
        },
        _ => {
            pixel.push(block[0]);
            pixel.push(block[1]);
            pixel.push(block[2]);
            pixel.push(block[3]);
            assert(pixel@ =~= block@.subrange(0, 4));
        },
    }
    pixel
}

/// Decodes one block to the RGBA pixels that it stands for: the 16 pixels of a
/// tile, row by row, for a block-compressed format, and else a single pixel.
/// Every block has its pixels: nothing is rejected.
pub fn decode_block(format: ImageFormat, block: &[u8]) -> (tile: Vec<u8>)
    requires
        block@.len() == format.spec_block_size_in_bytes(),
    ensures
        tile@ == spec_decode_block(format, block@),
        tile@.len() == if format.is_bcn() {
            64nat
        } else {
            4nat
        },
{
    match format {
        ImageFormat::BC1Unorm | ImageFormat::BC1Srgb => bc1_decode(block),
        ImageFormat::BC2Unorm | ImageFormat::BC2Srgb => bc2_decode(block),
        ImageFormat::BC3Unorm | ImageFormat::BC3Srgb => bc3_decode(block),
        ImageFormat::BC4Unorm => tile_from_r8(&bc4_decode(block, false)),
        ImageFormat::BC4Snorm => tile_from_r8(&bc4_decode(block, true)),
        ImageFormat::BC5Unorm => tile_from_rg8(&bc5_decode(block, false)),
        ImageFormat::BC5Snorm => tile_from_rg8(&bc5_decode(block, true)),
        ImageFormat::BC6Ufloat => tile_from_rgb16(&bc6h_decode(block, false)),
        ImageFormat::BC6Sfloat => tile_from_rgb16(&bc6h_decode(block, true)),
        ImageFormat::BC7Unorm | ImageFormat::BC7Srgb => bc7_decode(block),
        _ => pixel_from_block(format, block),
    }
}

/// The tiles of the first `count` blocks of `data`.
pub open spec fn spec_tiles(format: ImageFormat, data: Seq<u8>, count: int) -> Seq<Seq<u8>> {
    Seq::new(
        count as nat,
        |b: int|
            spec_decode_block(
                format,
                data.subrange(
                    b * format.spec_block_size_in_bytes(),
                    b * format.spec_block_size_in_bytes() + format.spec_block_size_in_bytes(),
                ),
            ),
    )
}

/// The RGBA pixels of the surface of `width` x `height` x `depth` pixels whose
/// blocks stand at the head of `data`, tile after tile, row by row and plane by
/// plane.
pub open spec fn spec_rgba8_from_bcn(
    format: ImageFormat,
    width: u32,
    height: u32,
    depth: u32,
    data: Seq<u8>,
) -> Seq<u8> {
    spec_assembled(
        spec_tiles(
            format,
            data,
            spec_div_round_up(width as int, 4) * spec_div_round_up(height as int, 4) * depth,
        ),
        width as int,
        height as int,
        depth as int,
    )
}

/// Why a surface cannot be decoded as one in a block-compressed format, or
/// `None` where it can.
pub open spec fn spec_rgba8_from_bcn_error(
    format: ImageFormat,
    width: u32,
    height: u32,
    depth: u32,
    len: usize,
) -> Option<SurfaceError> {
    if !format.is_bcn() {
        Some(SurfaceError::UnsupportedFormat { format })
    } else {
        match spec_validate_length(
            width,
            height,
            depth,
            (4u32, 4u32, 1u32),
            format.spec_block_size_in_bytes(),
            len,
        ) {
            Err(e) => Some(e),
            Ok(_) => None,
        }
    }
}

/// Decodes a surface in a block-compressed format to RGBA pixels.
///
/// The width and the height need not be multiples of 4: a level of a single
/// pixel has one block, of which one pixel is kept.
///
/// Answers `UnsupportedFormat` for a format that is not block-compressed, else
/// `PixelCountWouldOverflow` where the size of the blocks does not fit a
/// `usize`, and `NotEnoughData` where `data` is shorter than that.
pub fn rgba8_from_bcn(format: ImageFormat, width: u32, height: u32, depth: u32, data: &[u8]) -> (r:
    Result<Vec<u8>, SurfaceError>)
    ensures
        match r {
            Ok(pixels) => spec_rgba8_from_bcn_error(format, width, height, depth, data.len())
                is None && pixels@ == spec_rgba8_from_bcn(format, width, height, depth, data@),
            Err(e) => spec_rgba8_from_bcn_error(format, width, height, depth, data.len())
                == Some(e),
        },
{
    let (block_width, _, _) = format.block_dimensions();
    if block_width == 1 {
        return Err(SurfaceError::UnsupportedFormat { format });
    }
    let len: usize = data.len();
    let block_size: usize = format.block_size_in_bytes();
    let size: usize = match validate_length(width, height, depth, (4, 4, 1), block_size, len) {
        Ok(size) => size,
        Err(e) => {
            return Err(e);
        },
    };
    let count: usize = size / block_size;
    let ghost blocks = spec_div_round_up(width as int, 4) * spec_div_round_up(height as int, 4)
        * depth;
    proof {
        lemma_div_round_up(width as int, 4);
        lemma_div_round_up(height as int, 4);
        lemma_div_round_up(depth as int, 1);
        assert((blocks * block_size) / (block_size as int) == blocks) by (nonlinear_arith)
            requires
                block_size >= 1,
        ;
    }
    let mut tiles: Vec<Vec<u8>> = Vec::with_capacity(count);
    let mut b: usize = 0;
    while b < count
        invariant
            b <= count,
            format.is_bcn(),
            block_size == format.spec_block_size_in_bytes(),
            count * block_size <= data@.len(),
            len == data@.len(),
            tiles@.len() == b,
            forall|k: int| 0 <= k < b ==> (#[trigger] tiles@[k])@.len() == 64,
            forall|k: int|
                0 <= k < b ==> (#[trigger] tiles@[k])@ == spec_tiles(
                    format,
                    data@,
                    count as int,
                )[k],
        decreases count - b,
    {
        proof {
            assert(b * block_size + block_size <= count * block_size) by (nonlinear_arith)
                requires
                    b < count,
                    block_size >= 0,
            ;
            assert(0 <= b * block_size) by (nonlinear_arith)
                requires
                    0 <= b,
                    0 <= block_size,
            ;
        }
        let start: usize = b * block_size;
        let block: &[u8] = vstd::slice::slice_subrange(data, start, start + block_size);
        let tile: Vec<u8> = decode_block(format, block);
        tiles.push(tile);
        b = b + 1;
    }
    proof {
        assert(Seq::new(tiles@.len(), |k: int| tiles@[k]@) =~= spec_tiles(
            format,
            data@,
            count as int,
        ));
    }
    Ok(assemble(&tiles, width, height, depth))
}

} // verus!
