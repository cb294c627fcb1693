//! The formats without compression: a block is a single pixel, and encoding
//! and decoding pick and place channels.

use vstd::prelude::*;
use crate::error::SurfaceError;
use crate::mip::{lemma_div_round_up, spec_mip_size, spec_validate_length, validate_length};
use crate::unorm::{
    single_to_unorm8, spec_single_to_unorm8, spec_unorm8_to_single, unorm8_to_single,
};

verus! {

/// The channel of an RGBA pixel that is stored at place `c` of a BGRA pixel,
/// and the other way round: red and blue change places.
pub open spec fn spec_swizzled(c: int) -> int {
    if c == 0 {
        2
    } else if c == 2 {
        0
    } else {
        c
    }
}

/// The red channel of each of the first `pixels` pixels.
pub open spec fn spec_r8_from_rgba8(pixels: int, data: Seq<u8>) -> Seq<u8> {
    Seq::new(pixels as nat, |i: int| data[4 * i])
}

/// The first `pixels` pixels with red and blue exchanged.
pub open spec fn spec_bgra8_from_rgba8(pixels: int, data: Seq<u8>) -> Seq<u8> {
    Seq::new((4 * pixels) as nat, |i: int| data[4 * (i / 4) + spec_swizzled(i % 4)])
}

/// The first `pixels` pixels as they are.
pub open spec fn spec_rgba8_from_rgba8(pixels: int, data: Seq<u8>) -> Seq<u8> {
    data.subrange(0, 4 * pixels)
}

/// Byte `i` of the four bytes of `bits`, the lowest first.
pub open spec fn spec_le_byte(bits: u32, i: int) -> u8 {
    if i == 0 {
        (bits % 256) as u8
    } else if i == 1 {
        (bits / 256 % 256) as u8
    } else if i == 2 {
        (bits / 65536 % 256) as u8
    } else {
        (bits / 16777216) as u8
    }
}

/// Each channel of the first `pixels` pixels as the four bytes, the lowest
/// first, of the single precision number nearest to the channel's value over
/// 255.
pub open spec fn spec_rgbaf32_from_rgba8(pixels: int, data: Seq<u8>) -> Seq<u8> {
    Seq::new(
        (16 * pixels) as nat,
        |i: int| spec_le_byte(spec_unorm8_to_single(data[i / 4]), i % 4),
    )
}

/// The number whose four bytes, the lowest first, stand at `at` in `data`.
pub open spec fn spec_le_u32(data: Seq<u8>, at: int) -> u32 {
    (data[at] + 256 * data[at + 1] + 65536 * data[at + 2] + 16777216 * data[at + 3]) as u32
}

/// The first `pixels` pixels of four single precision numbers each, every
/// channel brought to the values from 0 to 255.
pub open spec fn spec_rgba8_from_rgbaf32(pixels: int, data: Seq<u8>) -> Seq<u8> {
    Seq::new((4 * pixels) as nat, |i: int| spec_single_to_unorm8(spec_le_u32(data, 4 * i)))
}

/// Gray pixels without transparency from the first `pixels` values.
pub open spec fn spec_rgba8_from_r8(pixels: int, data: Seq<u8>) -> Seq<u8> {
    Seq::new(
        (4 * pixels) as nat,
        |i: int|
            if i % 4 == 3 {
                255u8
            } else {
                data[i / 4]
            },
    )
}

/// The number of pixels times `bytes_per_pixel` is the size that the check of
/// a buffer's length goes by, where a block is a single pixel.
pub proof fn lemma_pixel_count(width: u32, height: u32, depth: u32, bytes_per_pixel: int)
    ensures
        spec_mip_size(width as int, height as int, depth as int, 1, 1, 1, bytes_per_pixel)
            == width * height * depth * bytes_per_pixel,
        0 <= width * height * depth,
{
    lemma_div_round_up(width as int, 1);
    lemma_div_round_up(height as int, 1);
    lemma_div_round_up(depth as int, 1);
    assert(0 <= width * height * depth) by (nonlinear_arith)
        requires
            0 <= width,
            0 <= height,
            0 <= depth,
    ;
}

/// The number of pixels of a surface, once `data` is found to hold
/// `bytes_per_pixel` bytes for each of them.
fn pixel_count(
    width: u32,
    height: u32,
    depth: u32,
    bytes_per_pixel: usize,
    data: &[u8],
) -> (r: Result<usize, SurfaceError>)
    requires
        1 <= bytes_per_pixel,
    ensures
        match r {
            Ok(pixels) => spec_validate_length(
                width,
                height,
                depth,
                (1u32, 1u32, 1u32),
                bytes_per_pixel,
                data.len(),
            ) is Ok && pixels == width * height * depth && pixels * bytes_per_pixel
                <= data@.len() <= usize::MAX,
            Err(e) => spec_validate_length(
                width,
                height,
                depth,
                (1u32, 1u32, 1u32),
                bytes_per_pixel,
                data.len(),
            ) == Err::<usize, SurfaceError>(e),
        },
{
    let len: usize = data.len();
    proof {
        lemma_pixel_count(width, height, depth, bytes_per_pixel as int);
    }
    match validate_length(width, height, depth, (1, 1, 1), bytes_per_pixel, len) {
        Err(e) => Err(e),
        Ok(expected) => {
            proof {
                let pixels = width * height * depth;
                assert((pixels * bytes_per_pixel) / (bytes_per_pixel as int) == pixels)
                    by (nonlinear_arith)
                    requires
                        1 <= bytes_per_pixel,
                ;
            }
            Ok(expected / bytes_per_pixel)
        },
    }
}

/// Encodes RGBA pixels to `R8Unorm`: the red channel of each pixel.
pub fn r8_from_rgba8(width: u32, height: u32, depth: u32, data: &[u8]) -> (r: Result<
    Vec<u8>,
    SurfaceError,
>)
    ensures
        match r {
            Ok(encoded) => spec_validate_length(
                width,
                height,
                depth,
                (1u32, 1u32, 1u32),
                4,
                data.len(),
            ) is Ok && encoded@ == spec_r8_from_rgba8(width * height * depth, data@),
            Err(e) => spec_validate_length(
                width,
                height,
                depth,
                (1u32, 1u32, 1u32),
                4,
                data.len(),
            ) == Err::<usize, SurfaceError>(e),
        },
{
    let pixels: usize = match pixel_count(width, height, depth, 4, data) {
        Ok(pixels) => pixels,
        Err(e) => {
            return Err(e);
        },
    };
    let mut encoded: Vec<u8> = Vec::with_capacity(pixels);
    let mut i: usize = 0;
    while i < pixels
        invariant
            i <= pixels,
            pixels * 4 <= data@.len() <= usize::MAX,
            encoded@ == spec_r8_from_rgba8(i as int, data@),
        decreases pixels - i,
    {
        encoded.push(data[4 * i]);
        i = i + 1;
    }
    Ok(encoded)
}

/// Encodes RGBA pixels to `R8G8B8A8Unorm` or `R8G8B8A8Srgb`, and decodes them
/// from these: the pixels as they are.
pub fn encode_rgba8_from_rgba8(width: u32, height: u32, depth: u32, data: &[u8]) -> (r: Result<
    Vec<u8>,
    SurfaceError,
>)
    ensures
        match r {
            Ok(encoded) => spec_validate_length(
                width,
                height,
                depth,
                (1u32, 1u32, 1u32),
                4,
                data.len(),
            ) is Ok && encoded@ == spec_rgba8_from_rgba8(width * height * depth, data@),
            Err(e) => spec_validate_length(
                width,
                height,
                depth,
                (1u32, 1u32, 1u32),
                4,
                data.len(),
            ) == Err::<usize, SurfaceError>(e),
        },
{
    let pixels: usize = match pixel_count(width, height, depth, 4, data) {
        Ok(pixels) => pixels,
        Err(e) => {
            return Err(e);
        },
    };
    let bytes: usize = pixels * 4;
    let mut encoded: Vec<u8> = Vec::with_capacity(bytes);
    let mut i: usize = 0;
    while i < bytes
        invariant
            i <= bytes,
            bytes <= data@.len(),
            encoded@ == data@.subrange(0, i as int),
        decreases bytes - i,
    {
        encoded.push(data[i]);
        i = i + 1;
    }
    Ok(encoded)
}

/// Encodes RGBA pixels to `B8G8R8A8Unorm` or `B8G8R8A8Srgb`, and decodes them
/// from these: red and blue change places.
pub fn bgra8_from_rgba8(width: u32, height: u32, depth: u32, data: &[u8]) -> (r: Result<
    Vec<u8>,
    SurfaceError,
>)
    ensures
        match r {
            Ok(encoded) => spec_validate_length(
                width,
                height,
                depth,
                (1u32, 1u32, 1u32),
                4,
                data.len(),
            ) is Ok && encoded@ == spec_bgra8_from_rgba8(width * height * depth, data@),
            Err(e) => spec_validate_length(
                width,
                height,
                depth,
                (1u32, 1u32, 1u32),
                4,
                data.len(),
            ) == Err::<usize, SurfaceError>(e),
        },
{
    let pixels: usize = match pixel_count(width, height, depth, 4, data) {
        Ok(pixels) => pixels,
        Err(e) => {
            return Err(e);
        },
    };
    let mut encoded: Vec<u8> = Vec::with_capacity(pixels * 4);
    let mut i: usize = 0;
    while i < pixels
        invariant
            i <= pixels,
            pixels * 4 <= data@.len() <= usize::MAX,
            encoded@ == spec_bgra8_from_rgba8(i as int, data@),
        decreases pixels - i,
    {
        encoded.push(data[4 * i + 2]);
        encoded.push(data[4 * i + 1]);
        encoded.push(data[4 * i]);
        encoded.push(data[4 * i + 3]);
        i = i + 1;
    }
    Ok(encoded)
}

/// Encodes RGBA pixels to `R32G32B32A32Float`: each channel as a single
/// precision number from 0 to 1, its lowest byte first.
pub fn rgbaf32_from_rgba8(width: u32, height: u32, depth: u32, data: &[u8]) -> (r: Result<
    Vec<u8>,
    SurfaceError,
>)
    ensures
        match r {
            Ok(encoded) => spec_validate_length(
                width,
                height,
                depth,
                (1u32, 1u32, 1u32),
                4,
                data.len(),
            ) is Ok && encoded@ == spec_rgbaf32_from_rgba8(width * height * depth, data@),
            Err(e) => spec_validate_length(
                width,
                height,
                depth,
                (1u32, 1u32, 1u32),
                4,
                data.len(),
            ) == Err::<usize, SurfaceError>(e),
        },
{
    let pixels: usize = match pixel_count(width, height, depth, 4, data) {
        Ok(pixels) => pixels,
        Err(e) => {
            return Err(e);
        },
    };
    let channels: usize = pixels * 4;
    let mut encoded: Vec<u8> = Vec::new();
    let mut i: usize = 0;
    while i < channels
        invariant
            i <= channels,
            channels == pixels * 4,
            channels <= data@.len() <= usize::MAX,
            encoded@ == Seq::new(
                (4 * i) as nat,
                |k: int| spec_le_byte(spec_unorm8_to_single(data@[k / 4]), k % 4),
            ),
        decreases channels - i,
    {
        let bits: u32 = unorm8_to_single(data[i]);
        encoded.push((bits % 256) as u8);
        encoded.push((bits / 256 % 256) as u8);
        encoded.push((bits / 65536 % 256) as u8);
        encoded.push((bits / 16777216) as u8);
        i = i + 1;
    }
    Ok(encoded)
}

/// Decodes `R8Unorm` to RGBA pixels: gray, without transparency.
pub fn rgba8_from_r8(width: u32, height: u32, depth: u32, data: &[u8]) -> (r: Result<
    Vec<u8>,
    SurfaceError,
>)
    ensures
        match r {
            Ok(decoded) => spec_validate_length(
                width,
                height,
                depth,
                (1u32, 1u32, 1u32),
                1,
                data.len(),
            ) is Ok && decoded@ == spec_rgba8_from_r8(width * height * depth, data@),
            Err(e) => spec_validate_length(
                width,
                height,
                depth,
                (1u32, 1u32, 1u32),
                1,
                data.len(),
            ) == Err::<usize, SurfaceError>(e),
        },
{
    let pixels: usize = match pixel_count(width, height, depth, 1, data) {
        Ok(pixels) => pixels,
        Err(e) => {
            return Err(e);
        },
    };
    let mut decoded: Vec<u8> = Vec::new();
    let mut i: usize = 0;
    while i < pixels
        invariant
            i <= pixels,
            pixels <= data@.len(),
            decoded@ == spec_rgba8_from_r8(i as int, data@),
        decreases pixels - i,
    {
        let red: u8 = data[i];
        decoded.push(red);
        decoded.push(red);
        decoded.push(red);
        decoded.push(255);
        i = i + 1;
    }
    Ok(decoded)
}

/// Decodes `R32G32B32A32Float` to RGBA pixels: each channel is multiplied by
/// 255 and loses what follows the point; what is below 0 or no number becomes
/// 0, and what is above 255 becomes 255.
pub fn rgba8_from_rgbaf32(width: u32, height: u32, depth: u32, data: &[u8]) -> (r: Result<
    Vec<u8>,
    SurfaceError,
>)
    ensures
        match r {
            Ok(decoded) => spec_validate_length(
                width,
                height,
                depth,
                (1u32, 1u32, 1u32),
                16,
                data.len(),
            ) is Ok && decoded@ == spec_rgba8_from_rgbaf32(width * height * depth, data@),
            Err(e) => spec_validate_length(
                width,
                height,
                depth,
                (1u32, 1u32, 1u32),
                16,
                data.len(),
            ) == Err::<usize, SurfaceError>(e),
        },
{
    let pixels: usize = match pixel_count(width, height, depth, 16, data) {
        Ok(pixels) => pixels,
        Err(e) => {
            return Err(e);
        },
    };
    let channels: usize = pixels * 4;
    let mut decoded: Vec<u8> = Vec::with_capacity(channels);
    let mut i: usize = 0;
    while i < channels
        invariant
            i <= channels,
            channels == pixels * 4,
            pixels * 16 <= data@.len() <= usize::MAX,
            decoded@ == Seq::new(
                i as nat,
                |k: int| spec_single_to_unorm8(spec_le_u32(data@, 4 * k)),
            ),
        decreases channels - i,
    {
        let bits: u32 = data[4 * i] as u32 + 256 * data[4 * i + 1] as u32 + 65536 * data[4 * i
            + 2] as u32 + 16777216 * data[4 * i + 3] as u32;
        decoded.push(single_to_unorm8(bits));
        i = i + 1;
    }
    Ok(decoded)
}

/// Exchanging red and blue twice gives back the pixels.
pub proof fn lemma_bgra8_round_trip(pixels: int, data: Seq<u8>)
    requires
        0 <= pixels,
        4 * pixels <= data.len(),
    ensures
        spec_bgra8_from_rgba8(pixels, spec_bgra8_from_rgba8(pixels, data)) == data.subrange(
            0,
            4 * pixels,
        ),
{
    let once = spec_bgra8_from_rgba8(pixels, data);
    let twice = spec_bgra8_from_rgba8(pixels, once);
    assert forall|i: int| 0 <= i < 4 * pixels implies twice[i] == data[i] by {
        let j = 4 * (i / 4) + spec_swizzled(i % 4);
        assert(j / 4 == i / 4 && j % 4 == spec_swizzled(i % 4));
    }
    assert(twice =~= data.subrange(0, 4 * pixels));
}

} // verus!
