//! Encoding RGBA pixels to the block-compressed formats.

use vstd::prelude::*;
// The encoder's kernels come with objects that need the C++ runtime when a
// program is linked.
use link_cplusplus as _;
use crate::bcn::{Bc1, Bc2, Bc3, Bc4, Bc5, Bc6, Bc7};
use crate::error::SurfaceError;
use crate::format::Quality;
use crate::mip::{
    lemma_div_round_up, lemma_round_up_of_multiple, spec_mip_size, spec_validate_length,
    validate_length,
};
use crate::unorm::{spec_unorm8_to_half, unorm8_to_half};

verus! {

/// An encoder of surfaces to blocks of one format, from channel values of type `T`.
pub trait BcnEncode<T> {
    /// Encodes the `width` x `height` pixels at the head of `rgba_data`, four
    /// values to a pixel, row by row.
    fn compress_surface(width: u32, height: u32, rgba_data: &[T], quality: Quality) -> Result<
        Vec<u8>,
        SurfaceError,
    >;
}

/// What the encoder of BC7 blocks is asked to try. Each stands for the settings
/// of that name for surfaces with alpha.
#[derive(Debug, Clone, Copy, PartialEq, Eq, Structural)]
pub enum Bc7Preset {
    AlphaUltraFast,
    AlphaVeryFast,
    AlphaFast,
}

/// The settings for each quality: BC7 loses little even at the fastest of them.
pub open spec fn spec_bc7_preset(quality: Quality) -> Bc7Preset {
    match quality {
        Quality::Fast => Bc7Preset::AlphaUltraFast,
        Quality::Normal => Bc7Preset::AlphaVeryFast,
        Quality::Slow => Bc7Preset::AlphaFast,
    }
}

/// The settings of the BC7 encoder for `quality`.
pub fn bc7_preset(quality: Quality) -> (preset: Bc7Preset)
    ensures
        preset == spec_bc7_preset(quality),
{
    match quality {
        Quality::Fast => Bc7Preset::AlphaUltraFast,
        Quality::Normal => Bc7Preset::AlphaVeryFast,
        Quality::Slow => Bc7Preset::AlphaFast,
    }
}

/// What the encoder of BC6H blocks is asked to try. Each stands for the
/// settings of that name.
#[derive(Debug, Clone, Copy, PartialEq, Eq, Structural)]
pub enum Bc6Preset {
    VeryFast,
    Basic,
    Slow,
}

/// The settings for each quality.
pub open spec fn spec_bc6_preset(quality: Quality) -> Bc6Preset {
    match quality {
        Quality::Fast => Bc6Preset::VeryFast,
        Quality::Normal => Bc6Preset::Basic,
        Quality::Slow => Bc6Preset::Slow,
    }
}

/// The settings of the BC6H encoder for `quality`.
pub fn bc6_preset(quality: Quality) -> (preset: Bc6Preset)
    ensures
        preset == spec_bc6_preset(quality),
{
    match quality {
        Quality::Fast => Bc6Preset::VeryFast,
        Quality::Normal => Bc6Preset::Basic,
        Quality::Slow => Bc6Preset::Slow,
    }
}

/// What the outside encoders can take: a surface of whole tiles, with rows of
/// `stride` bytes of which `bytes` are at hand, and with sizes that fit the
/// integers in which the encoders count.
pub open spec fn spec_encoder_takes(width: u32, height: u32, stride: int, bytes: int) -> bool {
    &&& width % 4 == 0
    &&& height % 4 == 0
    &&& width * height + 15 <= u32::MAX
    &&& height <= i32::MAX
    &&& 0 <= stride <= i32::MAX
    &&& stride * height <= bytes
}

/// Why the `width` x `height` pixels at the head of a buffer of `len` channel
/// values cannot be encoded, or `None` where they can. `bytes_per_pixel` is what
/// the encoder reads of each pixel.
pub open spec fn spec_encode_error(
    width: u32,
    height: u32,
    len: usize,
    bytes_per_pixel: int,
) -> Option<SurfaceError> {
    match spec_validate_length(width, height, 1, (4u32, 4u32, 1u32), 64, len) {
        Err(e) => Some(e),
        Ok(_) => if width % 4 != 0 || height % 4 != 0 {
            Some(
                SurfaceError::NonIntegralDimensionsInBlocks {
                    width,
                    height,
                    depth: 1,
                    block_width: 4,
                    block_height: 4,
                },
            )
        } else if width * height + 15 > u32::MAX || height > i32::MAX || width * bytes_per_pixel
            > i32::MAX {
            Some(SurfaceError::PixelCountWouldOverflow { width, height, depth: 1 })
        } else {
            None
        },
    }
}

/// What an encoder of this module answers: the error where there is one, and
/// else one block of `block_bytes` bytes for each tile.
pub open spec fn spec_encoded(
    width: u32,
    height: u32,
    len: usize,
    bytes_per_pixel: int,
    block_bytes: int,
    r: Result<Vec<u8>, SurfaceError>,
) -> bool {
    match r {
        Ok(blocks) => spec_encode_error(width, height, len, bytes_per_pixel) is None
            && blocks@.len() == (width / 4) * (height / 4) * block_bytes,
        Err(e) => spec_encode_error(width, height, len, bytes_per_pixel) == Some(e),
    }
}

/// Where nothing stands against encoding, the buffer holds every pixel and the
/// surface is one that the outside encoders can take.
pub proof fn lemma_encode_error_none(
    width: u32,
    height: u32,
    len: usize,
    bytes_per_pixel: int,
    bytes: int,
)
    requires
        spec_encode_error(width, height, len, bytes_per_pixel) is None,
        1 <= bytes_per_pixel <= 8,
    ensures
        width * height * 4 <= len,
        (width * height + 15) / 16 == (width / 4) * (height / 4),
        bytes >= (len / 4) * bytes_per_pixel ==> spec_encoder_takes(
            width,
            height,
            width * bytes_per_pixel,
            bytes,
        ),
{
    lemma_round_up_of_multiple(width as int, 4);
    lemma_round_up_of_multiple(height as int, 4);
    lemma_div_round_up(1, 1);
    let columns = width as int / 4;
    let rows = height as int / 4;
    assert(spec_mip_size(width as int, height as int, 1, 4, 4, 1, 64) == columns * rows * 1 * 64);
    assert(columns * rows * 1 * 64 == (4 * columns) * (4 * rows) * 4) by (nonlinear_arith);
    assert((4 * columns) * (4 * rows) == 16 * (columns * rows)) by (nonlinear_arith);
    assert(width * height == 16 * (columns * rows));
    if bytes >= (len / 4) * bytes_per_pixel {
        let wh = width * height;
        let quarter = len as int / 4;
        assert(wh <= quarter);
        assert(width * bytes_per_pixel * height == wh * bytes_per_pixel) by (nonlinear_arith)
            requires
                wh == width * height,
        ;
        assert(wh * bytes_per_pixel <= quarter * bytes_per_pixel) by (nonlinear_arith)
            requires
                wh <= quarter,
                bytes_per_pixel >= 1,
        ;
        assert(0 <= width * bytes_per_pixel) by (nonlinear_arith)
            requires
                bytes_per_pixel >= 1,
        ;
    }
}

/// Finds out whether the `width` x `height` pixels at the head of a buffer of
/// `len` channel values can be encoded by an encoder that reads
/// `bytes_per_pixel` bytes of each pixel, and why not.
///
/// Answers `PixelCountWouldOverflow` or `NotEnoughData` as `validate_length`
/// does for four values to each pixel of every tile; else
/// `NonIntegralDimensionsInBlocks` where the width or the height is no multiple
/// of 4; else `PixelCountWouldOverflow` where the encoder cannot count the
/// pixels in 32 bits or the bytes of a row in 31.
pub fn check_encoder_input(width: u32, height: u32, len: usize, bytes_per_pixel: u32) -> (r: Result<
    (),
    SurfaceError,
>)
    ensures
        match r {
            Ok(_) => spec_encode_error(width, height, len, bytes_per_pixel as int) is None,
            Err(e) => spec_encode_error(width, height, len, bytes_per_pixel as int) == Some(e),
        },
{
    match validate_length(width, height, 1, (4, 4, 1), 64, len) {
        Err(e) => {
            return Err(e);
        },
        Ok(_) => {},
    }
    if width % 4 != 0 || height % 4 != 0 {
        return Err(
            SurfaceError::NonIntegralDimensionsInBlocks {
                width,
                height,
                depth: 1,
                block_width: 4,
                block_height: 4,
            },
        );
    }
    proof {
        assert(width * height <= 0xffff_ffff * 0xffff_ffff) by (nonlinear_arith)
            requires
                width <= 0xffff_ffff,
                height <= 0xffff_ffff,
        ;
        assert(width * bytes_per_pixel <= 0xffff_ffff * 0xffff_ffff) by (nonlinear_arith)
            requires
                width <= 0xffff_ffff,
                bytes_per_pixel <= 0xffff_ffff,
        ;
    }
    let pixels: u64 = width as u64 * height as u64;
    let row_bytes: u64 = width as u64 * bytes_per_pixel as u64;
    if pixels + 15 > u32::MAX as u64 || height > i32::MAX as u32 || row_bytes > i32::MAX as u64 {
        return Err(SurfaceError::PixelCountWouldOverflow { width, height, depth: 1 });
    }
    Ok(())
}

/// Calls `intel_tex_2::bc1::compress_blocks` on a surface of four bytes to a
/// pixel. Of what comes back only the length is stated, as the crate's source
/// computes it: 8 bytes for every 16 pixels. The blocks themselves come from
/// kernels that were built for several instruction sets with fast floating
/// point, so they are not the same on every machine.
#[verifier::external_body]
fn bc1_compress_blocks(width: u32, height: u32, stride: u32, data: &[u8]) -> (blocks: Vec<u8>)
    requires
        spec_encoder_takes(width, height, stride as int, data@.len() as int),
        stride == 4 * width,
    ensures
        blocks@.len() == (width * height + 15) / 16 * 8,
{
    let surface = intel_tex_2::RgbaSurface { width, height, stride, data };
    intel_tex_2::bc1::compress_blocks(&surface)
}

/// Calls `intel_tex_2::bc3::compress_blocks` on a surface of four bytes to a
/// pixel. Only the length is stated: 16 bytes for every 16 pixels.
#[verifier::external_body]
fn bc3_compress_blocks(width: u32, height: u32, stride: u32, data: &[u8]) -> (blocks: Vec<u8>)
    requires
        spec_encoder_takes(width, height, stride as int, data@.len() as int),
        stride == 4 * width,
    ensures
        blocks@.len() == (width * height + 15) / 16 * 16,
{
    let surface = intel_tex_2::RgbaSurface { width, height, stride, data };
    intel_tex_2::bc3::compress_blocks(&surface)
}

/// Calls `intel_tex_2::bc4::compress_blocks` on a surface of one byte to a
/// pixel. Only the length is stated: 8 bytes for every 16 pixels.
#[verifier::external_body]
fn bc4_compress_blocks(width: u32, height: u32, stride: u32, data: &[u8]) -> (blocks: Vec<u8>)
    requires
        spec_encoder_takes(width, height, stride as int, data@.len() as int),
        stride == width,
    ensures
        blocks@.len() == (width * height + 15) / 16 * 8,
{
    let surface = intel_tex_2::RSurface { width, height, stride, data };
    intel_tex_2::bc4::compress_blocks(&surface)
}

/// Calls `intel_tex_2::bc5::compress_blocks` on a surface of two bytes to a
/// pixel. Only the length is stated: 16 bytes for every 16 pixels.
#[verifier::external_body]
fn bc5_compress_blocks(width: u32, height: u32, stride: u32, data: &[u8]) -> (blocks: Vec<u8>)
    requires
        spec_encoder_takes(width, height, stride as int, data@.len() as int),
        stride == 2 * width,
    ensures
        blocks@.len() == (width * height + 15) / 16 * 16,
{
    let surface = intel_tex_2::RgSurface { width, height, stride, data };
    intel_tex_2::bc5::compress_blocks(&surface)
}

/// Calls `intel_tex_2::bc6h::compress_blocks` on a surface of four half
/// precision numbers to a pixel, which `bytemuck::cast_slice` hands over as
/// bytes, with the settings that the crate offers under the preset's name.
/// Only the length is stated: 16 bytes for every 16 pixels.
#[verifier::external_body]
fn bc6h_compress_blocks(
    preset: Bc6Preset,
    width: u32,
    height: u32,
    stride: u32,
    data: &[u16],
) -> (blocks: Vec<u8>)
    requires
        spec_encoder_takes(width, height, stride as int, 2 * (data@.len() as int)),
        stride == 8 * width,
    ensures
        blocks@.len() == (width * height + 15) / 16 * 16,
{
    let settings = match preset {
        Bc6Preset::VeryFast => intel_tex_2::bc6h::very_fast_settings(),
        Bc6Preset::Basic => intel_tex_2::bc6h::basic_settings(),
        Bc6Preset::Slow => intel_tex_2::bc6h::slow_settings(),
    };
    let data: &[u8] = bytemuck::cast_slice(data);
    let surface = intel_tex_2::RgbaSurface { width, height, stride, data };
    intel_tex_2::bc6h::compress_blocks(&settings, &surface)
}

/// Calls `intel_tex_2::bc7::compress_blocks` on a surface of four bytes to a
/// pixel, with the settings that the crate offers under the preset's name.
/// Only the length is stated: 16 bytes for every 16 pixels.
#[verifier::external_body]
fn bc7_compress_blocks(
    preset: Bc7Preset,
    width: u32,
    height: u32,
    stride: u32,
    data: &[u8],
) -> (blocks: Vec<u8>)
    requires
        spec_encoder_takes(width, height, stride as int, data@.len() as int),
        stride == 4 * width,
    ensures
        blocks@.len() == (width * height + 15) / 16 * 16,
{
    let settings = match preset {
        Bc7Preset::AlphaUltraFast => intel_tex_2::bc7::alpha_ultra_fast_settings(),
        Bc7Preset::AlphaVeryFast => intel_tex_2::bc7::alpha_very_fast_settings(),
        Bc7Preset::AlphaFast => intel_tex_2::bc7::alpha_fast_settings(),
    };
    let surface = intel_tex_2::RgbaSurface { width, height, stride, data };
    intel_tex_2::bc7::compress_blocks(&settings, &surface)
}

/// The byte offset of the alpha value that nibble `k` of a tile's alpha block is
/// taken from. The tile's corner is at `x`, `y`; nibble `k` stands for the pixel
/// in column `k % 4` and row `k / 4` of the tile. A pixel beyond the surface's
/// last column or row is replaced by the nearest pixel inside.
pub open spec fn spec_alpha_index(x: u32, y: u32, width: u32, height: u32, k: int) -> int {
    let column = if x + k % 4 < width - 1 { x + k % 4 } else { width - 1 };
    let row = if y + k / 4 < height - 1 { y + k / 4 } else { height - 1 };
    (row * width + column) * 4 + 3
}

/// Nibble `k` of a tile's alpha block: the pixel's alpha, from 0 to 255, brought
/// down to four bits.
pub open spec fn spec_alpha_nibble(
    x: u32,
    y: u32,
    width: u32,
    height: u32,
    rgba8_data: Seq<u8>,
    k: int,
) -> u8 {
    rgba8_data[spec_alpha_index(x, y, width, height, k)] / 17
}

/// The four bits of `value` that start at bit `4 * k`.
pub open spec fn nibble_of(value: u64, k: u64) -> u64 {
    (value >> (4 * k)) & 0xf
}

/// The eight bits of `value` that start at bit `8 * i`.
pub open spec fn byte_of(value: u128, i: u128) -> u128 {
    (value >> (8 * i)) & 0xff
}

/// Zero has no bits in any of its nibbles.
proof fn lemma_zero_nibble(k: u64)
    by (bit_vector)
    requires
        k < 16,
    ensures
        (0u64 >> (4 * k)) & 0xf == 0,
{
}

/// Writing into an empty nibble sets that nibble and leaves the others.
proof fn lemma_set_nibble(alpha: u64, nibble: u64, at: u64, k: u64)
    by (bit_vector)
    requires
        nibble < 16,
        at < 16,
        k < 16,
        (alpha >> (4 * at)) & 0xf == 0,
    ensures
        ((alpha | (nibble << (4 * at))) >> (4 * k)) & 0xf == if k == at {
            nibble
        } else {
            (alpha >> (4 * k)) & 0xf
        },
{
}

/// The alpha value of every pixel of a tile is taken from inside the surface.
proof fn lemma_alpha_index_in_bounds(x: u32, y: u32, width: u32, height: u32, k: int)
    requires
        width >= 1,
        height >= 1,
        0 <= k < 16,
    ensures
        3 <= spec_alpha_index(x, y, width, height, k) < width * height * 4,
{
    let column = if x + k % 4 < width - 1 { x + k % 4 } else { width - 1 };
    let row = if y + k / 4 < height - 1 { y + k / 4 } else { height - 1 };
    assert(0 <= row * width <= (height - 1) * width) by (nonlinear_arith)
        requires
            0 <= row <= height - 1,
            width >= 1,
    ;
    assert((height - 1) * width + width == height * width) by (nonlinear_arith);
    assert(height * width * 4 == width * height * 4) by (nonlinear_arith);
}

/// The alpha block of the tile whose corner is at `x`, `y`: sixteen values of
/// four bits, the pixel in column `i` and row `j` of the tile at bits
/// `4 * (4 * j + i)` and up. Each is the pixel's alpha divided by 17. Where the
/// tile reaches beyond the surface, the nearest pixel inside is taken.
pub fn sharp_alpha_block(x: u32, y: u32, width: u32, height: u32, rgba8_data: &[u8]) -> (alpha: u64)
    requires
        width >= 1,
        height >= 1,
        width * height * 4 <= rgba8_data@.len(),
    ensures
        forall|k: u64|
            0 <= k < 16 ==> #[trigger] nibble_of(alpha, k) == spec_alpha_nibble(
                x,
                y,
                width,
                height,
                rgba8_data@,
                k as int,
            ),
{
    let mut alpha: u64 = 0;
    let mut i: u64 = 0;
    let len: usize = rgba8_data.len();
    proof {
        assert forall|k: u64| k < 16 implies #[trigger] nibble_of(0u64, k) == 0 by {
            lemma_zero_nibble(k);
        }
    }
    while i < 4
        invariant
            i <= 4,
            width >= 1,
            height >= 1,
            width * height * 4 <= rgba8_data@.len(),
            len == rgba8_data@.len(),
            forall|k: u64|
                0 <= k < 16 ==> #[trigger] nibble_of(alpha, k) == if k % 4 < i {
                    spec_alpha_nibble(x, y, width, height, rgba8_data@, k as int) as u64
                } else {
                    0
                },
        decreases 4 - i,
    {
        let mut j: u64 = 0;
        while j < 4
            invariant
                i < 4,
                j <= 4,
                width >= 1,
                height >= 1,
                width * height * 4 <= rgba8_data@.len(),
                len == rgba8_data@.len(),
                forall|k: u64|
                    0 <= k < 16 ==> #[trigger] nibble_of(alpha, k) == if k % 4 < i || (k % 4 == i
                        && k / 4 < j) {
                        spec_alpha_nibble(x, y, width, height, rgba8_data@, k as int) as u64
                    } else {
                        0
                    },
            decreases 4 - j,
        {
            let last_column: u64 = (width - 1) as u64;
            let last_row: u64 = (height - 1) as u64;
            let x_final: u64 = if x as u64 + i < last_column { x as u64 + i } else { last_column };
            let y_final: u64 = if y as u64 + j < last_row { y as u64 + j } else { last_row };
            let output_index: u64 = j * 4 + i;
            proof {
                lemma_alpha_index_in_bounds(x, y, width, height, output_index as int);
                assert(y_final * width <= (height - 1) * width) by (nonlinear_arith)
                    requires
                        0 <= y_final <= height - 1,
                        width >= 1,
                ;
                assert((height - 1) * width + width == width * height) by (nonlinear_arith);
                assert(0 <= y_final * width) by (nonlinear_arith)
                    requires
                        0 <= y_final,
                        width >= 1,
                ;
                assert(y_final * width + x_final + 1 <= width * height);
                assert((y_final * width + x_final) * 4 + 3 < width * height * 4);
                assert((y_final * width + x_final) * 4 + 3 == spec_alpha_index(
                    x,
                    y,
                    width,
                    height,
                    output_index as int,
                ));
            }
            let input_index: u64 = (y_final * width as u64 + x_final) * 4 + 3;
            let nibble: u64 = (rgba8_data[input_index as usize] / 17) as u64;
            let ghost before = alpha;
            alpha = alpha | (nibble << (output_index * 4));
            proof {
                assert(nibble_of(before, output_index) == 0);
                assert forall|k: u64| 0 <= k < 16 implies #[trigger] nibble_of(alpha, k) == if k
                    % 4 < i || (k % 4 == i && k / 4 < j + 1) {
                    spec_alpha_nibble(x, y, width, height, rgba8_data@, k as int) as u64
                } else {
                    0
                } by {
                    lemma_set_nibble(before, nibble, output_index, k);
                    assert(output_index * 4 == 4 * output_index);
                    assert(nibble_of(before, k) == (before >> (4 * k)) & 0xf);
                }
            }
            j = j + 1;
        }
        i = i + 1;
    }
    alpha
}

/// Byte `i` of a tile's alpha block, for `i` below 8: two values of four bits,
/// nibble `2 * i` in the low half and nibble `2 * i + 1` in the high half.
pub open spec fn spec_alpha_byte(
    x: u32,
    y: u32,
    width: u32,
    height: u32,
    rgba8_data: Seq<u8>,
    i: int,
) -> int {
    spec_alpha_nibble(x, y, width, height, rgba8_data, 2 * i) + 16 * spec_alpha_nibble(
        x,
        y,
        width,
        height,
        rgba8_data,
        2 * i + 1,
    )
}

/// The byte at offset `at` of a surface's alpha blocks, where each tile has a
/// block of 16 bytes and `at` falls into the first 8 of one. Tiles follow each
/// other row by row, `width / 4` of them to a row.
pub open spec fn spec_bc2_alpha_at(width: u32, height: u32, rgba8_data: Seq<u8>, at: int) -> u8 {
    let block = at / 16;
    let x = (4 * (block % (width as int / 4))) as u32;
    let y = (4 * (block / (width as int / 4))) as u32;
    spec_alpha_byte(x, y, width, height, rgba8_data, at % 16) as u8
}

/// The byte at offset `at` of the blocks made from the blocks in `bc3_data`:
/// in each block of 16 bytes, the first 8 hold the tile's alpha block and the
/// last 8 are those of the block in `bc3_data`.
pub open spec fn spec_bc2_byte(
    width: u32,
    height: u32,
    rgba8_data: Seq<u8>,
    bc3_data: Seq<u8>,
    at: int,
) -> u8 {
    if at % 16 < 8 {
        spec_bc2_alpha_at(width, height, rgba8_data, at)
    } else {
        bc3_data[at]
    }
}

/// The blocks made from the blocks in `bc3_data` and the alpha of `rgba8_data`.
pub open spec fn spec_bc2_from_bc3(
    width: u32,
    height: u32,
    rgba8_data: Seq<u8>,
    bc3_data: Seq<u8>,
) -> Seq<u8> {
    Seq::new(bc3_data.len(), |at: int| spec_bc2_byte(width, height, rgba8_data, bc3_data, at))
}

/// A byte is its low nibble and 16 times its high nibble.
proof fn lemma_byte_of_nibbles(alpha: u64, i: u64)
    by (bit_vector)
    requires
        i < 8,
    ensures
        (alpha >> (8 * i)) & 0xff == ((alpha >> (4 * (2 * i))) & 0xf) + 16 * ((alpha >> (4 * (2 * i
            + 1))) & 0xf),
{
}

/// The first 8 bytes of a block are those of its alpha.
proof fn lemma_block_low_bytes(color: u64, alpha: u64, i: u128)
    by (bit_vector)
    requires
        i < 8,
    ensures
        ((((color as u128) << 64) | (alpha as u128)) >> (8 * i)) & 0xff == ((alpha >> (8
            * i) as u64) & 0xff) as u128,
{
}

/// The last 8 bytes of a block are those of its color.
proof fn lemma_block_high_bytes(color: u64, alpha: u64, i: u128)
    by (bit_vector)
    requires
        8 <= i < 16,
    ensures
        ((((color as u128) << 64) | (alpha as u128)) >> (8 * i)) & 0xff == ((color >> (8 * (i
            - 8)) as u64) & 0xff) as u128,
{
}

/// Eight bytes put together, the first lowest, give each of them back.
proof fn lemma_gather_bytes(
    b0: u64,
    b1: u64,
    b2: u64,
    b3: u64,
    b4: u64,
    b5: u64,
    b6: u64,
    b7: u64,
    j: u64,
)
    by (bit_vector)
    requires
        b0 < 256,
        b1 < 256,
        b2 < 256,
        b3 < 256,
        b4 < 256,
        b5 < 256,
        b6 < 256,
        b7 < 256,
        j < 8,
    ensures
        ((b0 | (b1 << 8) | (b2 << 16) | (b3 << 24) | (b4 << 32) | (b5 << 40) | (b6 << 48) | (b7
            << 56)) >> (8 * j)) & 0xff == if j == 0 {
            b0
        } else if j == 1 {
            b1
        } else if j == 2 {
            b2
        } else if j == 3 {
            b3
        } else if j == 4 {
            b4
        } else if j == 5 {
            b5
        } else if j == 6 {
            b6
        } else {
            b7
        },
{
}

/// One block of 16 bytes as a number, its first byte lowest: the alpha block of
/// the tile at `x`, `y` in the first 8 bytes, and in the last 8 those of block
/// `block_index` of `bc3_data`, which hold the tile's color.
pub fn encode_bc2_block(
    x: u32,
    y: u32,
    width: u32,
    height: u32,
    rgba8_data: &[u8],
    bc3_data: &[u8],
    block_index: usize,
) -> (block: u128)
    requires
        width >= 1,
        height >= 1,
        width * height * 4 <= rgba8_data@.len(),
        (block_index + 1) * 16 <= bc3_data@.len(),
    ensures
        forall|i: u128|
            0 <= i < 8 ==> #[trigger] byte_of(block, i) == spec_alpha_byte(
                x,
                y,
                width,
                height,
                rgba8_data@,
                i as int,
            ),
        forall|i: u128|
            8 <= i < 16 ==> #[trigger] byte_of(block, i) == bc3_data@[block_index * 16 + i],
{
    let alpha: u64 = sharp_alpha_block(x, y, width, height, rgba8_data);
    let len: usize = bc3_data.len();
    let start: usize = block_index * 16 + 8;
    let b0: u64 = bc3_data[start] as u64;
    let b1: u64 = bc3_data[start + 1] as u64;
    let b2: u64 = bc3_data[start + 2] as u64;
    let b3: u64 = bc3_data[start + 3] as u64;
    let b4: u64 = bc3_data[start + 4] as u64;
    let b5: u64 = bc3_data[start + 5] as u64;
    let b6: u64 = bc3_data[start + 6] as u64;
    let b7: u64 = bc3_data[start + 7] as u64;
    let color: u64 = b0 | (b1 << 8) | (b2 << 16) | (b3 << 24) | (b4 << 32) | (b5 << 40) | (b6
        << 48) | (b7 << 56);
    let block: u128 = ((color as u128) << 64) | (alpha as u128);
    proof {
        assert forall|i: u128| 0 <= i < 8 implies #[trigger] byte_of(block, i) == spec_alpha_byte(
            x,
            y,
            width,
            height,
            rgba8_data@,
            i as int,
        ) by {
            let j = i as u64;
            lemma_block_low_bytes(color, alpha, i);
            lemma_byte_of_nibbles(alpha, j);
            assert(nibble_of(alpha, (2 * j) as u64) == spec_alpha_nibble(
                x,
                y,
                width,
                height,
                rgba8_data@,
                2 * i,
            ));
            assert(nibble_of(alpha, (2 * j + 1) as u64) == spec_alpha_nibble(
                x,
                y,
                width,
                height,
                rgba8_data@,
                2 * i + 1,
            ));
        }
        assert forall|i: u128|
            8 <= i < 16 implies #[trigger] byte_of(block, i) == bc3_data@[block_index * 16
            + i] by {
            lemma_block_high_bytes(color, alpha, i);
            lemma_gather_bytes(b0, b1, b2, b3, b4, b5, b6, b7, (i - 8) as u64);
        }
    }
    block
}

/// Eight bits are a number below 256.
proof fn lemma_byte_of_is_byte(block: u128, i: u128)
    by (bit_vector)
    requires
        i < 16,
    ensures
        (block >> (8 * i)) & 0xff < 256,
{
}

/// Blocks of 16 bytes, one per tile of 4x4 pixels, row by row: each keeps the
/// color of the block in `bc3_data` and stores the tile's alpha at four bits a
/// pixel.
pub fn bc2_from_bc3(width: u32, height: u32, rgba8_data: &[u8], bc3_data: &[u8]) -> (data: Vec<u8>)
    requires
        width % 4 == 0,
        height % 4 == 0,
        width * height * 4 <= rgba8_data@.len(),
        bc3_data@.len() == (width / 4) * (height / 4) * 16,
    ensures
        data@ == spec_bc2_from_bc3(width, height, rgba8_data@, bc3_data@),
{
    let mut data: Vec<u8> = Vec::new();
    let columns: u32 = width / 4;
    let rows: u32 = height / 4;
    let bc3_len: usize = bc3_data.len();
    let mut block_index: usize = 0;
    let mut row: u32 = 0;
    while row < rows
        invariant
            row <= rows,
            columns == width / 4,
            rows == height / 4,
            width % 4 == 0,
            height % 4 == 0,
            width * height * 4 <= rgba8_data@.len(),
            bc3_len == bc3_data@.len(),
            bc3_data@.len() == columns * rows * 16,
            block_index == row * columns,
            data@ == Seq::new(
                (16 * block_index) as nat,
                |at: int| spec_bc2_byte(width, height, rgba8_data@, bc3_data@, at),
            ),
        decreases rows - row,
    {
        let mut column: u32 = 0;
        while column < columns
            invariant
                row < rows,
                column <= columns,
                columns == width / 4,
                rows == height / 4,
                width % 4 == 0,
                height % 4 == 0,
                width * height * 4 <= rgba8_data@.len(),
                bc3_len == bc3_data@.len(),
                bc3_data@.len() == columns * rows * 16,
                block_index == row * columns + column,
                data@ == Seq::new(
                    (16 * block_index) as nat,
                    |at: int| spec_bc2_byte(width, height, rgba8_data@, bc3_data@, at),
                ),
            decreases columns - column,
        {
            proof {
                assert(row * columns + column + 1 <= rows * columns) by (nonlinear_arith)
                    requires
                        row < rows,
                        column < columns,
                ;
                assert(rows * columns * 16 == columns * rows * 16) by (nonlinear_arith);
                assert((row * columns + column) / (columns as int) == row && (row * columns
                    + column) % (columns as int) == column) by (nonlinear_arith)
                    requires
                        0 <= column < columns,
                        0 <= row,
                ;
            }
            let block: u128 = encode_bc2_block(
                4 * column,
                4 * row,
                width,
                height,
                rgba8_data,
                bc3_data,
                block_index,
            );
            let mut i: u32 = 0;
            while i < 16
                invariant
                    i <= 16,
                    columns == width / 4,
                    (block_index + 1) * 16 <= bc3_data@.len(),
                    block_index as int / (columns as int) == row,
                    block_index as int % (columns as int) == column,
                    row < rows,
                    column < columns,
                    rows == height / 4,
                    forall|k: u128|
                        0 <= k < 8 ==> #[trigger] byte_of(block, k) == spec_alpha_byte(
                            (4 * column) as u32,
                            (4 * row) as u32,
                            width,
                            height,
                            rgba8_data@,
                            k as int,
                        ),
                    forall|k: u128|
                        8 <= k < 16 ==> #[trigger] byte_of(block, k) == bc3_data@[block_index * 16
                            + k],
                    data@ == Seq::new(
                        (16 * block_index + i) as nat,
                        |at: int| spec_bc2_byte(width, height, rgba8_data@, bc3_data@, at),
                    ),
                decreases 16 - i,
            {
                let byte: u128 = (block >> (8 * i)) & 0xff;
                proof {
                    lemma_byte_of_is_byte(block, i as u128);
                    assert(byte == byte_of(block, i as u128));
                    let at = 16 * block_index + i;
                    assert(at / 16 == block_index as int && at % 16 == i as int);
                    assert(byte == spec_bc2_byte(width, height, rgba8_data@, bc3_data@, at));
                }
                data.push(byte as u8);
                i = i + 1;
            }
            block_index = block_index + 1;
            column = column + 1;
        }
        proof {
            assert((row + 1) * columns == row * columns + columns) by (nonlinear_arith);
        }
        row = row + 1;
    }
    proof {
        assert(rows * columns * 16 == columns * rows * 16) by (nonlinear_arith);
    }
    data
}

/// The first of every four values of `rgba8_data`.
pub open spec fn spec_red_channel(rgba8_data: Seq<u8>) -> Seq<u8> {
    Seq::new(rgba8_data.len() / 4, |i: int| rgba8_data[4 * i])
}

/// The first two of every four values of `rgba8_data`.
pub open spec fn spec_red_green_channels(rgba8_data: Seq<u8>) -> Seq<u8> {
    Seq::new(2 * (rgba8_data.len() / 4), |i: int| rgba8_data[4 * (i / 2) + i % 2])
}

/// The red channel of each whole pixel of `rgba8_data`.
pub fn red_channel(rgba8_data: &[u8]) -> (red: Vec<u8>)
    ensures
        red@ == spec_red_channel(rgba8_data@),
{
    let len: usize = rgba8_data.len();
    let pixels: usize = len / 4;
    let mut red: Vec<u8> = Vec::with_capacity(pixels);
    let mut i: usize = 0;
    while i < pixels
        invariant
            i <= pixels,
            len == rgba8_data@.len(),
            pixels == len / 4,
            red@ == Seq::new(i as nat, |k: int| rgba8_data@[4 * k]),
        decreases pixels - i,
    {
        red.push(rgba8_data[4 * i]);
        i = i + 1;
    }
    red
}

/// The red and green channels of each whole pixel of `rgba8_data`.
pub fn red_green_channels(rgba8_data: &[u8]) -> (red_green: Vec<u8>)
    ensures
        red_green@ == spec_red_green_channels(rgba8_data@),
{
    let len: usize = rgba8_data.len();
    let pixels: usize = len / 4;
    let mut red_green: Vec<u8> = Vec::new();
    let mut i: usize = 0;
    while i < pixels
        invariant
            i <= pixels,
            len == rgba8_data@.len(),
            pixels == len / 4,
            red_green@ == Seq::new(2 * i as nat, |k: int| rgba8_data@[4 * (k / 2) + k % 2]),
        decreases pixels - i,
    {
        red_green.push(rgba8_data[4 * i]);
        red_green.push(rgba8_data[4 * i + 1]);
        i = i + 1;
    }
    red_green
}

impl BcnEncode<u8> for Bc1 {
    /// One block of 8 bytes for each tile, from the outside encoder.
    fn compress_surface(width: u32, height: u32, rgba8_data: &[u8], quality: Quality) -> (r: Result<
        Vec<u8>,
        SurfaceError,
    >)
        ensures
            spec_encoded(width, height, rgba8_data.len(), 4, 8, r),
    {
        let len: usize = rgba8_data.len();
        match check_encoder_input(width, height, len, 4) {
            Err(e) => Err(e),
            Ok(_) => {
                proof {
                    lemma_encode_error_none(width, height, len, 4, len as int);
                }
                Ok(bc1_compress_blocks(width, height, width * 4, rgba8_data))
            },
        }
    }
}

impl BcnEncode<u8> for Bc2 {
    /// One block of 16 bytes for each tile: the alpha of each pixel at four
    /// bits in the first half, and in the second the color of the block that
    /// the outside encoder of BC3 makes of the tile.
    fn compress_surface(width: u32, height: u32, rgba8_data: &[u8], quality: Quality) -> (r: Result<
        Vec<u8>,
        SurfaceError,
    >)
        ensures
            spec_encoded(width, height, rgba8_data.len(), 4, 16, r),
            r matches Ok(blocks) ==> forall|at: int|
                0 <= at < blocks@.len() && at % 16 < 8 ==> #[trigger] blocks@[at]
                    == spec_bc2_alpha_at(width, height, rgba8_data@, at),
    {
        let len: usize = rgba8_data.len();
        match check_encoder_input(width, height, len, 4) {
            Err(e) => Err(e),
            Ok(_) => {
                proof {
                    lemma_encode_error_none(width, height, len, 4, len as int);
                }
                let bc3_data: Vec<u8> = bc3_compress_blocks(width, height, width * 4, rgba8_data);
                let blocks: Vec<u8> = bc2_from_bc3(width, height, rgba8_data, bc3_data.as_slice());
                Ok(blocks)
            },
        }
    }
}

impl BcnEncode<u8> for Bc3 {
    /// One block of 16 bytes for each tile, from the outside encoder.
    fn compress_surface(width: u32, height: u32, rgba8_data: &[u8], quality: Quality) -> (r: Result<
        Vec<u8>,
        SurfaceError,
    >)
        ensures
            spec_encoded(width, height, rgba8_data.len(), 4, 16, r),
    {
        let len: usize = rgba8_data.len();
        match check_encoder_input(width, height, len, 4) {
            Err(e) => Err(e),
            Ok(_) => {
                proof {
                    lemma_encode_error_none(width, height, len, 4, len as int);
                }
                Ok(bc3_compress_blocks(width, height, width * 4, rgba8_data))
            },
        }
    }
}

impl BcnEncode<u8> for Bc4 {
    /// One block of 8 bytes for each tile, which the outside encoder makes of
    /// the red channel.
    fn compress_surface(width: u32, height: u32, rgba8_data: &[u8], quality: Quality) -> (r: Result<
        Vec<u8>,
        SurfaceError,
    >)
        ensures
            spec_encoded(width, height, rgba8_data.len(), 1, 8, r),
    {
        let len: usize = rgba8_data.len();
        match check_encoder_input(width, height, len, 1) {
            Err(e) => Err(e),
            Ok(_) => {
                let red: Vec<u8> = red_channel(rgba8_data);
                proof {
                    lemma_encode_error_none(width, height, len, 1, red@.len() as int);
                }
                Ok(bc4_compress_blocks(width, height, width, red.as_slice()))
            },
        }
    }
}

impl BcnEncode<u8> for Bc5 {
    /// One block of 16 bytes for each tile, which the outside encoder makes of
    /// the red and green channels.
    fn compress_surface(width: u32, height: u32, rgba8_data: &[u8], quality: Quality) -> (r: Result<
        Vec<u8>,
        SurfaceError,
    >)
        ensures
            spec_encoded(width, height, rgba8_data.len(), 2, 16, r),
    {
        let len: usize = rgba8_data.len();
        match check_encoder_input(width, height, len, 2) {
            Err(e) => Err(e),
            Ok(_) => {
                let red_green: Vec<u8> = red_green_channels(rgba8_data);
                proof {
                    lemma_encode_error_none(width, height, len, 2, red_green@.len() as int);
                }
                Ok(bc5_compress_blocks(width, height, width * 2, red_green.as_slice()))
            },
        }
    }
}

/// Each value of `rgba8_data` as the bits of the half precision number nearest
/// to the value over 255.
pub open spec fn spec_halves(rgba8_data: Seq<u8>) -> Seq<u16> {
    Seq::new(rgba8_data.len(), |i: int| spec_unorm8_to_half(rgba8_data[i]))
}

/// Each value of `rgba8_data` as a half precision number from 0 to 1.
pub fn halves(rgba8_data: &[u8]) -> (halves: Vec<u16>)
    ensures
        halves@ == spec_halves(rgba8_data@),
{
    let len: usize = rgba8_data.len();
    let mut halves: Vec<u16> = Vec::with_capacity(len);
    let mut i: usize = 0;
    while i < len
        invariant
            i <= len,
            len == rgba8_data@.len(),
            halves@ == Seq::new(i as nat, |k: int| spec_unorm8_to_half(rgba8_data@[k])),
        decreases len - i,
    {
        halves.push(unorm8_to_half(rgba8_data[i]));
        i = i + 1;
    }
    halves
}

impl BcnEncode<u16> for Bc6 {
    /// One block of 16 bytes for each tile, which the outside encoder makes of
    /// channel values that are the bits of half precision numbers, with the
    /// settings that go with `quality`.
    fn compress_surface(width: u32, height: u32, rgba_data: &[u16], quality: Quality) -> (r: Result<
        Vec<u8>,
        SurfaceError,
    >)
        ensures
            spec_encoded(width, height, rgba_data.len(), 8, 16, r),
    {
        let len: usize = rgba_data.len();
        match check_encoder_input(width, height, len, 8) {
            Err(e) => Err(e),
            Ok(_) => {
                proof {
                    lemma_encode_error_none(width, height, len, 8, 2 * len);
                }
                Ok(bc6h_compress_blocks(bc6_preset(quality), width, height, width * 8, rgba_data))
            },
        }
    }
}

impl BcnEncode<u8> for Bc6 {
    /// One block of 16 bytes for each tile, which the outside encoder makes of
    /// the channel values as half precision numbers from 0 to 1, with the
    /// settings that go with `quality`.
    fn compress_surface(width: u32, height: u32, rgba8_data: &[u8], quality: Quality) -> (r: Result<
        Vec<u8>,
        SurfaceError,
    >)
        ensures
            spec_encoded(width, height, rgba8_data.len(), 8, 16, r),
    {
        let len: usize = rgba8_data.len();
        match check_encoder_input(width, height, len, 8) {
            Err(e) => Err(e),
            Ok(_) => {
                proof {
                    lemma_encode_error_none(width, height, len, 8, 2 * len);
                }
                let halves: Vec<u16> = halves(rgba8_data);
                Ok(
                    bc6h_compress_blocks(
                        bc6_preset(quality),
                        width,
                        height,
                        width * 8,
                        halves.as_slice(),
                    ),
                )
            },
        }
    }
}

impl BcnEncode<u8> for Bc7 {
    /// One block of 16 bytes for each tile, from the outside encoder with the
    /// settings that go with `quality`.
    fn compress_surface(width: u32, height: u32, rgba8_data: &[u8], quality: Quality) -> (r: Result<
        Vec<u8>,
        SurfaceError,
    >)
        ensures
            spec_encoded(width, height, rgba8_data.len(), 4, 16, r),
    {
        let len: usize = rgba8_data.len();
        match check_encoder_input(width, height, len, 4) {
            Err(e) => Err(e),
            Ok(_) => {
                proof {
                    lemma_encode_error_none(width, height, len, 4, len as int);
                }
                Ok(bc7_compress_blocks(bc7_preset(quality), width, height, width * 4, rgba8_data))
            },
        }
    }
}

/// Encodes the `width` x `height` pixels at the head of `data` with the encoder
/// `F`, once the buffer is found long enough: four values for each pixel of
/// every tile that the surface touches.
///
/// Answers `PixelCountWouldOverflow` where that number of values does not fit a
/// `usize`, `NotEnoughData` where `data` is shorter, and else what the encoder
/// answers.
pub fn encode_bcn<F, T>(width: u32, height: u32, data: &[T], quality: Quality) -> (r: Result<
    Vec<u8>,
    SurfaceError,
>) where F: BcnEncode<T>
    ensures
        match spec_validate_length(width, height, 1, (4u32, 4u32, 1u32), 64, data.len()) {
            Err(e) => r == Err::<Vec<u8>, SurfaceError>(e),
            Ok(_) => call_ensures(F::compress_surface, (width, height, data, quality), r),
        },
{
    let len: usize = data.len();
    match validate_length(width, height, 1, (4, 4, 1), 64, len) {
        Err(e) => Err(e),
        Ok(_) => F::compress_surface(width, height, data, quality),
    }
}

} // verus!
