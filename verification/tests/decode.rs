use image_dds::bcn::decode::{decode_block, rgba8_from_bcn};
use image_dds::decode::{decode_rgba8, decode_surface_rgba8};
use image_dds::encode::{encode_rgba8, encode_surface_rgba8};
use image_dds::error::SurfaceError;
use image_dds::etc::decode::{decode_etc, EtcDecode};
use image_dds::format::{ImageFormat, Mipmaps, Quality};
use image_dds::rgba::{
    bgra8_from_rgba8, encode_rgba8_from_rgba8, r8_from_rgba8, rgba8_from_r8, rgba8_from_rgbaf32,
    rgbaf32_from_rgba8,
};
use image_dds::surface::{Surface, SurfaceRgba8};
use image_dds::unorm::half_to_unorm8;

const RED_BC1: [u8; 8] = [0x00, 0xf8, 0x1f, 0x00, 0, 0, 0, 0];
const BLUE_BC1: [u8; 8] = [0x00, 0xf8, 0x1f, 0x00, 0x55, 0x55, 0x55, 0x55];

fn pixels(pixel: [u8; 4], count: usize) -> Vec<u8> {
    let mut data = Vec::new();
    for _ in 0..count {
        data.extend_from_slice(&pixel);
    }
    data
}

fn bytes(count: usize, seed: u32) -> Vec<u8> {
    let mut state = seed;
    let mut data = Vec::new();
    for _ in 0..count {
        state = state.wrapping_mul(1664525).wrapping_add(1013904223);
        data.push((state >> 24) as u8);
    }
    data
}

#[test]
fn bc1_block_of_one_color() {
    assert_eq!(
        pixels([255, 0, 0, 255], 16),
        decode_block(ImageFormat::BC1Unorm, &RED_BC1)
    );
    assert_eq!(
        pixels([0, 0, 255, 255], 16),
        decode_block(ImageFormat::BC1Srgb, &BLUE_BC1)
    );
}

#[test]
fn bc1_block_pixel_by_pixel() {
    // The second pixel of the first row and the first of the last row are
    // blue.
    let block = [0x00, 0xf8, 0x1f, 0x00, 0x04, 0, 0, 0x01];
    let mut expected = pixels([255, 0, 0, 255], 16);
    expected[4..8].copy_from_slice(&[0, 0, 255, 255]);
    expected[48..52].copy_from_slice(&[0, 0, 255, 255]);
    assert_eq!(expected, decode_block(ImageFormat::BC1Unorm, &block));
}

#[test]
fn bc2_block_has_four_bits_of_alpha() {
    let mut block = vec![0x10, 0x32, 0x54, 0x76, 0x98, 0xba, 0xdc, 0xfe];
    block.extend_from_slice(&RED_BC1);
    let mut expected = Vec::new();
    for n in 0..16u8 {
        expected.extend_from_slice(&[255, 0, 0, 17 * n]);
    }
    assert_eq!(expected, decode_block(ImageFormat::BC2Unorm, &block));
}

#[test]
fn bc3_block_of_one_color() {
    let mut block = vec![255, 0, 0, 0, 0, 0, 0, 0];
    block.extend_from_slice(&BLUE_BC1);
    assert_eq!(
        pixels([0, 0, 255, 255], 16),
        decode_block(ImageFormat::BC3Unorm, &block)
    );
    let mut block = vec![0, 255, 0, 0, 0, 0, 0, 0];
    block.extend_from_slice(&RED_BC1);
    assert_eq!(
        pixels([255, 0, 0, 0], 16),
        decode_block(ImageFormat::BC3Srgb, &block)
    );
}

#[test]
fn bc4_block_is_gray() {
    assert_eq!(
        pixels([255, 255, 255, 255], 16),
        decode_block(ImageFormat::BC4Unorm, &[255, 0, 0, 0, 0, 0, 0, 0])
    );
    assert_eq!(
        pixels([7, 7, 7, 255], 16),
        decode_block(ImageFormat::BC4Unorm, &[7, 200, 0, 0, 0, 0, 0, 0])
    );
    // The signed value -128 counts as -127, which is the byte 129.
    assert_eq!(
        pixels([129, 129, 129, 255], 16),
        decode_block(ImageFormat::BC4Snorm, &[128, 0, 0, 0, 0, 0, 0, 0])
    );
}

#[test]
fn bc5_block_is_red_and_green() {
    let block = [255, 0, 0, 0, 0, 0, 0, 0, 9, 255, 0, 0, 0, 0, 0, 0];
    assert_eq!(
        pixels([255, 9, 0, 255], 16),
        decode_block(ImageFormat::BC5Unorm, &block)
    );
}

#[test]
fn bc6_block_of_zeros_is_black() {
    assert_eq!(
        pixels([0, 0, 0, 255], 16),
        decode_block(ImageFormat::BC6Ufloat, &[0u8; 16])
    );
    assert_eq!(
        pixels([0, 0, 0, 255], 16),
        decode_block(ImageFormat::BC6Sfloat, &[0u8; 16])
    );
}

#[test]
fn bc7_block_without_a_mode_is_empty() {
    assert_eq!(
        vec![0u8; 64],
        decode_block(ImageFormat::BC7Unorm, &[0u8; 16])
    );
}

#[test]
fn blocks_decode_as_the_decoder_does() {
    for seed in 0..200 {
        let block = bytes(16, seed);

        let mut expected = [0u8; 64];
        bcdec_rs::bc1(&block[..8], &mut expected, 16);
        assert_eq!(
            expected.to_vec(),
            decode_block(ImageFormat::BC1Unorm, &block[..8])
        );
        bcdec_rs::bc2(&block, &mut expected, 16);
        assert_eq!(expected.to_vec(), decode_block(ImageFormat::BC2Srgb, &block));
        bcdec_rs::bc3(&block, &mut expected, 16);
        assert_eq!(expected.to_vec(), decode_block(ImageFormat::BC3Unorm, &block));
        bcdec_rs::bc7(&block, &mut expected, 16);
        assert_eq!(expected.to_vec(), decode_block(ImageFormat::BC7Srgb, &block));

        for (format, is_signed) in [(ImageFormat::BC4Unorm, false), (ImageFormat::BC4Snorm, true)]
        {
            let mut red = [0u8; 16];
            bcdec_rs::bc4(&block[..8], &mut red, 4, is_signed);
            let tile = decode_block(format, &block[..8]);
            for n in 0..16 {
                assert_eq!([red[n], red[n], red[n], 255], tile[4 * n..4 * n + 4]);
            }
        }
        for (format, is_signed) in [(ImageFormat::BC5Unorm, false), (ImageFormat::BC5Snorm, true)]
        {
            let mut red_green = [0u8; 32];
            bcdec_rs::bc5(&block, &mut red_green, 8, is_signed);
            let tile = decode_block(format, &block);
            for n in 0..16 {
                assert_eq!(
                    [red_green[2 * n], red_green[2 * n + 1], 0, 255],
                    tile[4 * n..4 * n + 4]
                );
            }
        }
        for (format, is_signed) in [
            (ImageFormat::BC6Ufloat, false),
            (ImageFormat::BC6Sfloat, true),
        ] {
            let mut rgb = [0u16; 48];
            bcdec_rs::bc6h_half(&block, &mut rgb, 12, is_signed);
            let mut floats = [0f32; 48];
            bcdec_rs::bc6h_float(&block, &mut floats, 12, is_signed);
            let tile = decode_block(format, &block);
            for n in 0..16 {
                assert_eq!(
                    [
                        half_to_unorm8(rgb[3 * n]),
                        half_to_unorm8(rgb[3 * n + 1]),
                        half_to_unorm8(rgb[3 * n + 2]),
                        255
                    ],
                    tile[4 * n..4 * n + 4]
                );
                assert_eq!(
                    [
                        (floats[3 * n] * 255.0) as u8,
                        (floats[3 * n + 1] * 255.0) as u8,
                        (floats[3 * n + 2] * 255.0) as u8,
                        255
                    ],
                    tile[4 * n..4 * n + 4]
                );
            }
        }
    }
}

#[test]
fn surface_of_one_pixel_has_one_block() {
    assert_eq!(
        Ok(vec![255, 0, 0, 255]),
        rgba8_from_bcn(ImageFormat::BC1Unorm, 1, 1, 1, &RED_BC1)
    );
    assert_eq!(
        Ok(vec![255, 0, 0, 255]),
        decode_rgba8(1, 1, 1, &RED_BC1, ImageFormat::BC1Unorm)
    );
}

#[test]
fn surface_takes_each_pixel_from_its_tile() {
    // 5 x 5 pixels in 2 x 2 tiles: red, blue, blue, red.
    let mut data = RED_BC1.to_vec();
    data.extend_from_slice(&BLUE_BC1);
    data.extend_from_slice(&BLUE_BC1);
    data.extend_from_slice(&RED_BC1);
    let decoded = decode_rgba8(5, 5, 1, &data, ImageFormat::BC1Unorm).unwrap();
    assert_eq!(5 * 5 * 4, decoded.len());
    for y in 0..5 {
        for x in 0..5 {
            let expected = if (x < 4) == (y < 4) {
                [255, 0, 0, 255]
            } else {
                [0, 0, 255, 255]
            };
            let at = (y * 5 + x) * 4;
            assert_eq!(expected, decoded[at..at + 4], "pixel {} {}", x, y);
        }
    }
}

#[test]
fn surface_places_the_pixels_of_a_tile() {
    let block = [0x00, 0xf8, 0x1f, 0x00, 0x04, 0, 0, 0x01];
    let tile = decode_block(ImageFormat::BC1Unorm, &block);
    assert_eq!(
        Ok(tile.clone()),
        decode_rgba8(4, 4, 1, &block, ImageFormat::BC1Unorm)
    );
    // 2 x 4 pixels: the first two pixels of each row.
    let mut expected = Vec::new();
    for y in 0..4 {
        expected.extend_from_slice(&tile[16 * y..16 * y + 8]);
    }
    assert_eq!(
        Ok(expected),
        decode_rgba8(2, 4, 1, &block, ImageFormat::BC1Unorm)
    );
}

#[test]
fn surface_with_planes() {
    let mut data = RED_BC1.to_vec();
    data.extend_from_slice(&BLUE_BC1);
    let mut expected = pixels([255, 0, 0, 255], 6);
    expected.extend_from_slice(&pixels([0, 0, 255, 255], 6));
    assert_eq!(
        Ok(expected),
        decode_rgba8(3, 2, 2, &data, ImageFormat::BC1Unorm)
    );
}

#[test]
fn decode_not_enough_data() {
    assert_eq!(
        Err(SurfaceError::NotEnoughData {
            expected: 8,
            actual: 7
        }),
        decode_rgba8(1, 1, 1, &[0u8; 7], ImageFormat::BC1Unorm)
    );
    assert_eq!(
        Err(SurfaceError::NotEnoughData {
            expected: 64,
            actual: 16
        }),
        decode_rgba8(5, 5, 1, &[0u8; 16], ImageFormat::BC7Unorm)
    );
    assert_eq!(
        Err(SurfaceError::NotEnoughData {
            expected: 6,
            actual: 5
        }),
        decode_rgba8(3, 2, 1, &[0u8; 5], ImageFormat::R8Unorm)
    );
    assert_eq!(
        Err(SurfaceError::NotEnoughData {
            expected: 32,
            actual: 31
        }),
        decode_rgba8(2, 1, 1, &[0u8; 31], ImageFormat::R32G32B32A32Float)
    );
}

#[test]
fn decode_pixel_count_would_overflow() {
    assert_eq!(
        Err(SurfaceError::PixelCountWouldOverflow {
            width: u32::MAX,
            height: u32::MAX,
            depth: u32::MAX
        }),
        decode_rgba8(u32::MAX, u32::MAX, u32::MAX, &[0u8; 8], ImageFormat::BC1Unorm)
    );
}

#[test]
fn decode_nothing() {
    assert_eq!(
        Ok(Vec::new()),
        decode_rgba8(0, 0, 0, &[], ImageFormat::BC1Unorm)
    );
    assert_eq!(
        Ok(Vec::new()),
        decode_rgba8(4, 0, 1, &[], ImageFormat::R8G8B8A8Unorm)
    );
}

#[test]
fn formats_without_compression() {
    assert_eq!(
        Ok(vec![5, 5, 5, 255, 9, 9, 9, 255]),
        rgba8_from_r8(2, 1, 1, &[5, 9, 200])
    );
    assert_eq!(
        Ok(vec![5, 5, 5, 255, 9, 9, 9, 255]),
        decode_rgba8(2, 1, 1, &[5, 9, 200], ImageFormat::R8Unorm)
    );
    assert_eq!(
        Ok(vec![3, 2, 1, 4, 7, 6, 5, 8]),
        decode_rgba8(1, 2, 1, &[1, 2, 3, 4, 5, 6, 7, 8, 9], ImageFormat::B8G8R8A8Unorm)
    );
    assert_eq!(
        Ok(vec![1, 2, 3, 4, 5, 6, 7, 8]),
        decode_rgba8(1, 1, 2, &[1, 2, 3, 4, 5, 6, 7, 8, 9], ImageFormat::R8G8B8A8Srgb)
    );
    assert_eq!(Ok(vec![1, 5]), r8_from_rgba8(2, 1, 1, &[1, 2, 3, 4, 5, 6, 7, 8]));
    assert_eq!(
        Ok(vec![3, 2, 1, 4]),
        bgra8_from_rgba8(1, 1, 1, &[1, 2, 3, 4, 5])
    );
    assert_eq!(
        Ok(vec![1, 2, 3, 4]),
        encode_rgba8_from_rgba8(1, 1, 1, &[1, 2, 3, 4, 5])
    );
}

#[test]
fn single_precision_pixels() {
    let mut data = Vec::new();
    for value in [0.0f32, 0.2, 1.0, 0.5, -1.0, 2.0, f32::NAN, 0.999] {
        data.extend_from_slice(&value.to_le_bytes());
    }
    assert_eq!(
        Ok(vec![0, 51, 255, 127, 0, 255, 0, 254]),
        rgba8_from_rgbaf32(2, 1, 1, &data)
    );
    assert_eq!(
        Ok(vec![0, 51, 255, 127]),
        decode_rgba8(1, 1, 1, &data, ImageFormat::R32G32B32A32Float)
    );
    // Each channel value comes back from its single precision number.
    let all: Vec<u8> = (0..=255).collect();
    let encoded = rgbaf32_from_rgba8(64, 1, 1, &all).unwrap();
    assert_eq!(1024, encoded.len());
    assert_eq!(Ok(all), rgba8_from_rgbaf32(64, 1, 1, &encoded));
}

#[test]
fn encoded_pixels_come_back() {
    let data = bytes(3 * 5 * 2 * 4 + 3, 1);
    for format in [
        ImageFormat::R8G8B8A8Unorm,
        ImageFormat::R8G8B8A8Srgb,
        ImageFormat::B8G8R8A8Unorm,
        ImageFormat::B8G8R8A8Srgb,
    ] {
        let encoded = encode_rgba8(3, 5, 2, &data, format, Quality::Fast).unwrap();
        let decoded = decode_rgba8(3, 5, 2, &encoded, format).unwrap();
        assert_eq!(data[..3 * 5 * 2 * 4], decoded[..]);
    }
}

#[test]
fn encoded_surface_comes_back() {
    // Two layers of 3 x 2 x 2, 1 x 1 x 1 and once more 1 x 1 x 1 pixels.
    let data = bytes(2 * (12 + 1 + 1) * 4, 2);
    for format in [ImageFormat::R8G8B8A8Unorm, ImageFormat::B8G8R8A8Srgb] {
        let encoded = encode_surface_rgba8(
            SurfaceRgba8 {
                width: 3,
                height: 2,
                depth: 2,
                layers: 2,
                mipmaps: 3,
                data: &data[..],
            },
            format,
            Quality::Fast,
            Mipmaps::FromSurface,
        )
        .unwrap();
        let decoded = decode_surface_rgba8(Surface {
            width: encoded.width,
            height: encoded.height,
            depth: encoded.depth,
            layers: encoded.layers,
            mipmaps: encoded.mipmaps,
            image_format: encoded.image_format,
            data: &encoded.data[..],
        })
        .unwrap();
        assert_eq!(
            SurfaceRgba8 {
                width: 3,
                height: 2,
                depth: 2,
                layers: 2,
                mipmaps: 3,
                data: data.clone(),
            },
            decoded
        );
    }
}

#[test]
fn decode_surface_with_levels() {
    // 8 x 8 and 4 x 4 pixels for each of two layers.
    let mut data = Vec::new();
    for block in [RED_BC1, RED_BC1, RED_BC1, BLUE_BC1, BLUE_BC1] {
        data.extend_from_slice(&block);
    }
    for block in [BLUE_BC1, BLUE_BC1, BLUE_BC1, BLUE_BC1, RED_BC1] {
        data.extend_from_slice(&block);
    }
    let decoded = decode_surface_rgba8(Surface {
        width: 8,
        height: 8,
        depth: 1,
        layers: 2,
        mipmaps: 2,
        image_format: ImageFormat::BC1Unorm,
        data: &data[..],
    })
    .unwrap();
    assert_eq!(8, decoded.width);
    assert_eq!(8, decoded.height);
    assert_eq!(1, decoded.depth);
    assert_eq!(2, decoded.layers);
    assert_eq!(2, decoded.mipmaps);
    assert_eq!(2 * (64 + 16) * 4, decoded.data.len());
    let top = pixels([255, 0, 0, 255], 8 * 4);
    let mut bottom = Vec::new();
    for _ in 0..4 {
        bottom.extend_from_slice(&pixels([255, 0, 0, 255], 4));
        bottom.extend_from_slice(&pixels([0, 0, 255, 255], 4));
    }
    assert_eq!([top, bottom].concat(), decoded.get(0, 0).unwrap());
    assert_eq!(pixels([0, 0, 255, 255], 16), decoded.get(0, 1).unwrap());
    assert_eq!(pixels([0, 0, 255, 255], 64), decoded.get(1, 0).unwrap());
    assert_eq!(pixels([255, 0, 0, 255], 16), decoded.get(1, 1).unwrap());
}

#[test]
fn decode_surface_is_validated_first() {
    let surface = Surface {
        width: 8,
        height: 8,
        depth: 1,
        layers: 1,
        mipmaps: 2,
        image_format: ImageFormat::BC1Unorm,
        data: &[0u8; 39][..],
    };
    assert_eq!(
        Err(SurfaceError::NotEnoughData {
            expected: 40,
            actual: 39
        }),
        decode_surface_rgba8(surface)
    );
    let surface = Surface {
        width: 0,
        height: 8,
        depth: 1,
        layers: 1,
        mipmaps: 1,
        image_format: ImageFormat::BC1Unorm,
        data: &[0u8; 39][..],
    };
    assert_eq!(
        Err(SurfaceError::ZeroSizedSurface {
            width: 0,
            height: 8,
            depth: 1
        }),
        decode_surface_rgba8(surface)
    );
}

struct Counting;

impl EtcDecode<[u8; 4]> for Counting {
    // The values of a tile count up from the first byte of its block.
    fn decompress_block(block: &[u8; 8]) -> [[[u8; 4]; 4]; 4] {
        let mut tile = [[[0u8; 4]; 4]; 4];
        for row in 0..4 {
            for column in 0..4 {
                for channel in 0..4 {
                    tile[row][column][channel] =
                        block[0] + (row * 16 + column * 4 + channel) as u8;
                }
            }
        }
        tile
    }
}

struct Wide;

impl EtcDecode<[u16; 4]> for Wide {
    fn decompress_block(block: &[u8; 8]) -> [[[u16; 4]; 4]; 4] {
        [[[256 * block[7] as u16; 4]; 4]; 4]
    }
}

#[test]
fn decode_etc_takes_each_pixel_from_its_tile() {
    let mut data = vec![10u8; 8];
    data.extend_from_slice(&[100u8; 8]);
    assert_eq!(
        Ok((10..74).collect::<Vec<u8>>()),
        decode_etc::<Counting, u8>(4, 4, &data)
    );
    assert_eq!(
        Ok(vec![
            10, 11, 12, 13, 14, 15, 16, 17, 18, 19, 20, 21, 22, 23, 24, 25, 100, 101, 102, 103,
        ]),
        decode_etc::<Counting, u8>(5, 1, &data)
    );
    assert_eq!(
        Ok(vec![
            10, 11, 12, 13, 26, 27, 28, 29, 42, 43, 44, 45, 58, 59, 60, 61, 100, 101, 102, 103,
        ]),
        decode_etc::<Counting, u8>(1, 5, &data)
    );
    assert_eq!(
        Ok(vec![0x6400u16; 8]),
        decode_etc::<Wide, u16>(2, 1, &data[8..])
    );
}

#[test]
fn decode_etc_errors() {
    assert_eq!(
        Err(SurfaceError::NotEnoughData {
            expected: 16,
            actual: 15
        }),
        decode_etc::<Counting, u8>(5, 1, &[0u8; 15])
    );
    assert_eq!(
        Err(SurfaceError::NotEnoughData {
            expected: 8 * 65536 * 65536,
            actual: 15
        }),
        decode_etc::<Counting, u8>(4 * 65536, 4 * 65536, &[0u8; 15])
    );
    assert_eq!(Ok(Vec::new()), decode_etc::<Counting, u8>(0, 7, &[]));
}

#[test]
fn block_decoders_have_no_format_without_compression() {
    for format in [
        ImageFormat::R8Unorm,
        ImageFormat::R8G8B8A8Unorm,
        ImageFormat::R8G8B8A8Srgb,
        ImageFormat::R32G32B32A32Float,
        ImageFormat::B8G8R8A8Unorm,
        ImageFormat::B8G8R8A8Srgb,
    ] {
        assert_eq!(
            Err(SurfaceError::UnsupportedFormat { format }),
            rgba8_from_bcn(format, 1, 1, 1, &[0u8; 16])
        );
    }
}

#[test]
fn block_of_a_format_without_compression_is_a_pixel() {
    assert_eq!(vec![7, 7, 7, 255], decode_block(ImageFormat::R8Unorm, &[7]));
    assert_eq!(
        vec![1, 2, 3, 4],
        decode_block(ImageFormat::R8G8B8A8Unorm, &[1, 2, 3, 4])
    );
    assert_eq!(
        vec![1, 2, 3, 4],
        decode_block(ImageFormat::R8G8B8A8Srgb, &[1, 2, 3, 4])
    );
    assert_eq!(
        vec![3, 2, 1, 4],
        decode_block(ImageFormat::B8G8R8A8Unorm, &[1, 2, 3, 4])
    );
    assert_eq!(
        vec![3, 2, 1, 4],
        decode_block(ImageFormat::B8G8R8A8Srgb, &[1, 2, 3, 4])
    );
    let mut block = Vec::new();
    for value in [1.0f32, 0.5, 0.0, 0.25] {
        block.extend_from_slice(&value.to_le_bytes());
    }
    assert_eq!(
        vec![255, 127, 0, 63],
        decode_block(ImageFormat::R32G32B32A32Float, &block)
    );
}
