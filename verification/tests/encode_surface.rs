use image_dds::encode::{
    append, bcn_from_rgba8, encode_rgba8, encode_surface_rgba8, mipmap_count,
};
use image_dds::error::{CompressSurfaceError, SurfaceError};
use image_dds::format::{ImageFormat, Mipmaps, Quality};
use image_dds::surface::SurfaceRgba8;

#[test]
fn encode_surface_integral_dimensions() {
    // It's ok for mipmaps to not be divisible by the block width.
    let surface = encode_surface_rgba8(
        SurfaceRgba8 {
            width: 12,
            height: 12,
            depth: 1,
            layers: 1,
            mipmaps: 1,
            data: &[0u8; 12 * 12 * 4],
        },
        ImageFormat::BC7Srgb,
        Quality::Fast,
        Mipmaps::GeneratedAutomatic,
    )
    .unwrap();

    assert_eq!(12, surface.width);
    assert_eq!(12, surface.height);
    assert_eq!(1, surface.depth);
    assert_eq!(1, surface.layers);
    assert_eq!(4, surface.mipmaps);
    assert_eq!(ImageFormat::BC7Srgb, surface.image_format);
    // Each mipmap must be at least 1 block in size.
    assert_eq!((9 + 4 + 1 + 1) * 16, surface.data.len());
}

#[test]
fn encode_surface_cube_mipmaps() {
    // It's ok for mipmaps to not be divisible by the block width.
    let surface = encode_surface_rgba8(
        SurfaceRgba8 {
            width: 4,
            height: 4,
            depth: 1,
            layers: 6,
            mipmaps: 3,
            data: &[0u8; (4 * 4 + 2 * 2 + 1 * 1) * 6 * 4],
        },
        ImageFormat::BC7Srgb,
        Quality::Fast,
        Mipmaps::GeneratedAutomatic,
    )
    .unwrap();

    assert_eq!(4, surface.width);
    assert_eq!(4, surface.height);
    assert_eq!(1, surface.depth);
    assert_eq!(6, surface.layers);
    assert_eq!(3, surface.mipmaps);
    assert_eq!(ImageFormat::BC7Srgb, surface.image_format);
    // Each mipmap must be at least 1 block in size.
    assert_eq!(3 * 16 * 6, surface.data.len());
}

#[test]
fn encode_surface_disabled_mipmaps() {
    let surface = encode_surface_rgba8(
        SurfaceRgba8 {
            width: 4,
            height: 4,
            depth: 1,
            layers: 1,
            mipmaps: 3,
            data: &[0u8; 64 + 16 + 4],
        },
        ImageFormat::BC7Srgb,
        Quality::Fast,
        Mipmaps::Disabled,
    )
    .unwrap();

    assert_eq!(4, surface.width);
    assert_eq!(4, surface.height);
    assert_eq!(1, surface.depth);
    assert_eq!(1, surface.layers);
    assert_eq!(1, surface.mipmaps);
    assert_eq!(ImageFormat::BC7Srgb, surface.image_format);
    assert_eq!(16, surface.data.len());
}

#[test]
fn encode_surface_mipmaps_from_surface() {
    let surface = encode_surface_rgba8(
        SurfaceRgba8 {
            width: 4,
            height: 4,
            depth: 1,
            layers: 1,
            mipmaps: 2,
            data: &[0u8; 64 + 16],
        },
        ImageFormat::BC7Srgb,
        Quality::Fast,
        Mipmaps::FromSurface,
    )
    .unwrap();

    assert_eq!(4, surface.width);
    assert_eq!(4, surface.height);
    assert_eq!(1, surface.depth);
    assert_eq!(1, surface.layers);
    assert_eq!(2, surface.mipmaps);
    assert_eq!(ImageFormat::BC7Srgb, surface.image_format);
    assert_eq!(16 * 2, surface.data.len());
}

#[test]
fn encode_surface_non_integral_dimensions() {
    // This should still fail even though there is enough data.
    let result = encode_surface_rgba8(
        SurfaceRgba8 {
            width: 3,
            height: 5,
            depth: 2,
            layers: 1,
            mipmaps: 1,
            data: &[0u8; 256],
        },
        ImageFormat::BC7Srgb,
        Quality::Fast,
        Mipmaps::GeneratedAutomatic,
    );
    assert!(matches!(
        result,
        Err(CompressSurfaceError::NonIntegralDimensionsInBlocks {
            width: 3,
            height: 5,
            depth: 2,
            block_width: 4,
            block_height: 4
        })
    ));
}

#[test]
fn encode_surface_zero_size() {
    let result = encode_surface_rgba8(
        SurfaceRgba8 {
            width: 0,
            height: 0,
            depth: 0,
            layers: 1,
            mipmaps: 1,
            data: &[0u8; 0],
        },
        ImageFormat::BC7Srgb,
        Quality::Fast,
        Mipmaps::GeneratedAutomatic,
    );
    assert!(matches!(
        result,
        Err(CompressSurfaceError::ZeroSizedSurface {
            width: 0,
            height: 0,
            depth: 0,
        })
    ));
}

fn four_pixels() -> [u8; 16] {
    [
        10, 20, 30, 40, //
        20, 30, 40, 50, //
        30, 40, 50, 60, //
        41, 51, 61, 71,
    ]
}

#[test]
fn levels_that_are_no_whole_blocks() {
    // 20 x 12, 10 x 6, 5 x 3, 2 x 1 and 1 x 1 pixels take 15, 6, 2, 1 and 1
    // blocks.
    let surface = encode_surface_rgba8(
        SurfaceRgba8 {
            width: 20,
            height: 12,
            depth: 1,
            layers: 1,
            mipmaps: 1,
            data: &[100u8; 20 * 12 * 4],
        },
        ImageFormat::BC1Unorm,
        Quality::Fast,
        Mipmaps::GeneratedAutomatic,
    )
    .unwrap();
    assert_eq!(5, surface.mipmaps);
    assert_eq!((15 + 6 + 2 + 1 + 1) * 8, surface.data.len());
    assert_eq!(Ok(()), surface.validate());
    assert_eq!(15 * 8, surface.get(0, 0).unwrap().len());
    assert_eq!(6 * 8, surface.get(0, 1).unwrap().len());
    assert_eq!(2 * 8, surface.get(0, 2).unwrap().len());
    assert_eq!(8, surface.get(0, 3).unwrap().len());
    assert_eq!(8, surface.get(0, 4).unwrap().len());
    assert_eq!(None, surface.get(0, 5));
    assert_eq!(None, surface.get(1, 0));
}

#[test]
fn every_format_encodes() {
    for (format, block_size) in [
        (ImageFormat::BC1Unorm, 8),
        (ImageFormat::BC1Srgb, 8),
        (ImageFormat::BC2Unorm, 16),
        (ImageFormat::BC2Srgb, 16),
        (ImageFormat::BC3Unorm, 16),
        (ImageFormat::BC3Srgb, 16),
        (ImageFormat::BC4Unorm, 8),
        (ImageFormat::BC4Snorm, 8),
        (ImageFormat::BC5Unorm, 16),
        (ImageFormat::BC5Snorm, 16),
        (ImageFormat::BC6Ufloat, 16),
        (ImageFormat::BC6Sfloat, 16),
        (ImageFormat::BC7Unorm, 16),
        (ImageFormat::BC7Srgb, 16),
    ] {
        let surface = encode_surface_rgba8(
            SurfaceRgba8 {
                width: 8,
                height: 4,
                depth: 2,
                layers: 2,
                mipmaps: 1,
                data: &[77u8; 8 * 4 * 2 * 4 * 2],
            },
            format,
            Quality::Normal,
            Mipmaps::GeneratedExact(2),
        )
        .unwrap();
        assert_eq!(format, surface.image_format);
        assert_eq!(2, surface.mipmaps);
        // 2 x 1 x 2 blocks, and 1 x 1 x 1 for the level of 4 x 2 x 1 pixels.
        assert_eq!(2 * (4 + 1) * block_size, surface.data.len());
    }
    for (format, pixel_size) in [
        (ImageFormat::R8Unorm, 1),
        (ImageFormat::R8G8B8A8Unorm, 4),
        (ImageFormat::R8G8B8A8Srgb, 4),
        (ImageFormat::B8G8R8A8Unorm, 4),
        (ImageFormat::B8G8R8A8Srgb, 4),
        (ImageFormat::R32G32B32A32Float, 16),
    ] {
        let surface = encode_surface_rgba8(
            SurfaceRgba8 {
                width: 3,
                height: 5,
                depth: 2,
                layers: 1,
                mipmaps: 1,
                data: &[77u8; 3 * 5 * 2 * 4],
            },
            format,
            Quality::Normal,
            Mipmaps::GeneratedExact(2),
        )
        .unwrap();
        // 3 x 5 x 2 pixels, and 1 x 2 x 1.
        assert_eq!((30 + 2) * pixel_size, surface.data.len());
    }
}

#[test]
fn generated_level_is_the_mean_of_the_level_above() {
    let surface = encode_surface_rgba8(
        SurfaceRgba8 {
            width: 2,
            height: 2,
            depth: 1,
            layers: 1,
            mipmaps: 1,
            data: &four_pixels(),
        },
        ImageFormat::R8G8B8A8Unorm,
        Quality::Fast,
        Mipmaps::GeneratedAutomatic,
    )
    .unwrap();
    assert_eq!(2, surface.mipmaps);
    let mut expected = four_pixels().to_vec();
    expected.extend_from_slice(&[25, 35, 45, 55]);
    assert_eq!(expected, surface.data);
}

#[test]
fn levels_from_the_surface_are_taken_as_they_are() {
    let mut data = four_pixels().to_vec();
    data.extend_from_slice(&[1, 2, 3, 4]);
    let surface = encode_surface_rgba8(
        SurfaceRgba8 {
            width: 2,
            height: 2,
            depth: 1,
            layers: 1,
            mipmaps: 2,
            data: &data[..],
        },
        ImageFormat::B8G8R8A8Unorm,
        Quality::Fast,
        Mipmaps::FromSurface,
    )
    .unwrap();
    assert_eq!(2, surface.mipmaps);
    assert_eq!(
        vec![
            30, 20, 10, 40, 40, 30, 20, 50, 50, 40, 30, 60, 61, 51, 41, 71, //
            3, 2, 1, 4,
        ],
        surface.data
    );
}

#[test]
fn red_channel_of_each_layer() {
    // Two layers of 2 x 2 pixels with two levels each.
    let mut data = Vec::new();
    for n in 0..10u8 {
        data.extend_from_slice(&[n, 100, 100, 100]);
    }
    let surface = encode_surface_rgba8(
        SurfaceRgba8 {
            width: 2,
            height: 2,
            depth: 1,
            layers: 2,
            mipmaps: 2,
            data: &data[..],
        },
        ImageFormat::R8Unorm,
        Quality::Fast,
        Mipmaps::FromSurface,
    )
    .unwrap();
    assert_eq!(2, surface.layers);
    assert_eq!(vec![0, 1, 2, 3, 4, 5, 6, 7, 8, 9], surface.data);

    let surface = encode_surface_rgba8(
        SurfaceRgba8 {
            width: 2,
            height: 2,
            depth: 1,
            layers: 2,
            mipmaps: 2,
            data: &data[..],
        },
        ImageFormat::R8Unorm,
        Quality::Fast,
        Mipmaps::Disabled,
    )
    .unwrap();
    assert_eq!(1, surface.mipmaps);
    assert_eq!(vec![0, 1, 2, 3, 5, 6, 7, 8], surface.data);

    // The mean of 0, 1, 2, 3 is 1.5 and that of 5, 6, 7, 8 is 6.5.
    let surface = encode_surface_rgba8(
        SurfaceRgba8 {
            width: 2,
            height: 2,
            depth: 1,
            layers: 2,
            mipmaps: 2,
            data: &data[..],
        },
        ImageFormat::R8Unorm,
        Quality::Fast,
        Mipmaps::GeneratedExact(3),
    )
    .unwrap();
    assert_eq!(3, surface.mipmaps);
    assert_eq!(vec![0, 1, 2, 3, 1, 1, 5, 6, 7, 8, 6, 6], surface.data);
}

#[test]
fn single_precision_channels() {
    let surface = encode_surface_rgba8(
        SurfaceRgba8 {
            width: 1,
            height: 1,
            depth: 1,
            layers: 1,
            mipmaps: 1,
            data: &[0, 51, 255, 128],
        },
        ImageFormat::R32G32B32A32Float,
        Quality::Fast,
        Mipmaps::Disabled,
    )
    .unwrap();
    let mut expected = Vec::new();
    for value in [0.0f32, 0.2, 1.0, 128.0 / 255.0] {
        expected.extend_from_slice(&value.to_le_bytes());
    }
    assert_eq!(expected, surface.data);
}

#[test]
fn disabled_mipmaps_give_one_level() {
    for mipmaps in [0, 1, 2, 3, 100] {
        let surface = encode_surface_rgba8(
            SurfaceRgba8 {
                width: 4,
                height: 4,
                depth: 1,
                layers: 1,
                mipmaps,
                data: &[0u8; 4 * 4 * 4 * 100],
            },
            ImageFormat::BC1Unorm,
            Quality::Fast,
            Mipmaps::Disabled,
        )
        .unwrap();
        assert_eq!(1, surface.mipmaps);
        assert_eq!(8, surface.data.len());
    }
}

#[test]
fn exact_number_of_levels() {
    for (asked, levels) in [(0, 1), (1, 1), (2, 2), (3, 3), (5, 5)] {
        let surface = encode_surface_rgba8(
            SurfaceRgba8 {
                width: 4,
                height: 4,
                depth: 1,
                layers: 1,
                mipmaps: 1,
                data: &[0u8; 64],
            },
            ImageFormat::BC1Unorm,
            Quality::Fast,
            Mipmaps::GeneratedExact(asked),
        )
        .unwrap();
        assert_eq!(levels, surface.mipmaps);
        assert_eq!(levels as usize * 8, surface.data.len());
    }
}

#[test]
fn levels_from_a_surface_without_levels() {
    let surface = encode_surface_rgba8(
        SurfaceRgba8 {
            width: 4,
            height: 4,
            depth: 1,
            layers: 1,
            mipmaps: 0,
            data: &[0u8; 64],
        },
        ImageFormat::BC3Unorm,
        Quality::Fast,
        Mipmaps::FromSurface,
    )
    .unwrap();
    assert_eq!(1, surface.mipmaps);
    assert_eq!(16, surface.data.len());
}

#[test]
fn surface_without_layers() {
    let surface = encode_surface_rgba8(
        SurfaceRgba8 {
            width: 4,
            height: 4,
            depth: 1,
            layers: 0,
            mipmaps: 1,
            data: &[0u8; 0],
        },
        ImageFormat::BC3Unorm,
        Quality::Fast,
        Mipmaps::GeneratedAutomatic,
    )
    .unwrap();
    assert_eq!(0, surface.layers);
    assert_eq!(3, surface.mipmaps);
    assert!(surface.data.is_empty());
}

fn opaque(width: usize, height: usize) -> Vec<u8> {
    let mut data = Vec::new();
    for _ in 0..width * height {
        data.extend_from_slice(&[50, 60, 70, 255]);
    }
    data
}

#[test]
fn level_from_the_surface_is_filled_up_with_zeros() {
    // 4 x 4 pixels, 2 x 2 and 1 x 1, all of them opaque. The blocks of the
    // levels below the first store the alpha of 4 x 4 pixels: what the level
    // has no pixel for is zero.
    let mut data = opaque(4, 4);
    data.extend_from_slice(&opaque(2, 2));
    data.extend_from_slice(&opaque(1, 1));
    let surface = encode_surface_rgba8(
        SurfaceRgba8 {
            width: 4,
            height: 4,
            depth: 1,
            layers: 1,
            mipmaps: 3,
            data: &data[..],
        },
        ImageFormat::BC2Unorm,
        Quality::Fast,
        Mipmaps::FromSurface,
    )
    .unwrap();
    assert_eq!(3, surface.mipmaps);
    assert_eq!(3 * 16, surface.data.len());
    assert_eq!(vec![0xffu8; 8], surface.data[0..8]);
    assert_eq!(vec![0xff, 0, 0xff, 0, 0, 0, 0, 0], surface.data[16..24]);
    assert_eq!(vec![0x0f, 0, 0, 0, 0, 0, 0, 0], surface.data[32..40]);
}

#[test]
fn generated_level_is_filled_up_with_zeros() {
    let surface = encode_surface_rgba8(
        SurfaceRgba8 {
            width: 4,
            height: 4,
            depth: 1,
            layers: 1,
            mipmaps: 1,
            data: &opaque(4, 4)[..],
        },
        ImageFormat::BC2Unorm,
        Quality::Fast,
        Mipmaps::GeneratedAutomatic,
    )
    .unwrap();
    assert_eq!(3, surface.mipmaps);
    assert_eq!(vec![0xffu8; 8], surface.data[0..8]);
    assert_eq!(vec![0xff, 0, 0xff, 0, 0, 0, 0, 0], surface.data[16..24]);
    // The level of one pixel is halved from the stored 4 x 4 pixels of the
    // level above, of which 2 x 2 are opaque: they make the one pixel.
    assert_eq!(vec![0x0f, 0, 0, 0, 0, 0, 0, 0], surface.data[32..40]);
}

#[test]
fn encode_surface_not_enough_data() {
    let result = encode_surface_rgba8(
        SurfaceRgba8 {
            width: 4,
            height: 4,
            depth: 1,
            layers: 2,
            mipmaps: 1,
            data: &[0u8; 127],
        },
        ImageFormat::BC7Srgb,
        Quality::Fast,
        Mipmaps::GeneratedAutomatic,
    );
    assert_eq!(
        Err(CompressSurfaceError::NotEnoughData {
            expected: 128,
            actual: 127
        }),
        result
    );
}

#[test]
fn encode_surface_pixel_count_would_overflow() {
    let result = encode_surface_rgba8(
        SurfaceRgba8 {
            width: u32::MAX,
            height: u32::MAX,
            depth: u32::MAX,
            layers: 1,
            mipmaps: 1,
            data: &[0u8; 16],
        },
        ImageFormat::R8G8B8A8Unorm,
        Quality::Fast,
        Mipmaps::Disabled,
    );
    assert_eq!(
        Err(CompressSurfaceError::PixelCountWouldOverflow {
            width: u32::MAX,
            height: u32::MAX,
            depth: u32::MAX
        }),
        result
    );
}

#[test]
fn encode_surface_zero_in_one_dimension() {
    let result = encode_surface_rgba8(
        SurfaceRgba8 {
            width: 4,
            height: 4,
            depth: 0,
            layers: 1,
            mipmaps: 1,
            data: &[0u8; 64],
        },
        ImageFormat::R8G8B8A8Unorm,
        Quality::Fast,
        Mipmaps::Disabled,
    );
    assert_eq!(
        Err(CompressSurfaceError::ZeroSizedSurface {
            width: 4,
            height: 4,
            depth: 0
        }),
        result
    );
}

#[test]
fn encode_rgba8_one_level() {
    assert_eq!(
        Ok(vec![10, 20, 30, 41]),
        encode_rgba8(2, 2, 1, &four_pixels(), ImageFormat::R8Unorm, Quality::Fast)
    );
    assert_eq!(
        Ok(four_pixels().to_vec()),
        encode_rgba8(2, 2, 1, &four_pixels(), ImageFormat::R8G8B8A8Srgb, Quality::Fast)
    );
    // Only the pixels of the surface are encoded.
    assert_eq!(
        Ok(vec![30, 20, 10, 40]),
        encode_rgba8(1, 1, 1, &four_pixels(), ImageFormat::B8G8R8A8Srgb, Quality::Fast)
    );
    assert_eq!(
        Err(SurfaceError::NotEnoughData {
            expected: 20,
            actual: 16
        }),
        encode_rgba8(5, 1, 1, &four_pixels(), ImageFormat::R8Unorm, Quality::Fast)
    );
    assert_eq!(
        Err(SurfaceError::NonIntegralDimensionsInBlocks {
            width: 2,
            height: 2,
            depth: 1,
            block_width: 4,
            block_height: 4
        }),
        encode_rgba8(2, 2, 1, &[0u8; 64], ImageFormat::BC5Unorm, Quality::Fast)
    );
    assert_eq!(
        Err(SurfaceError::NotEnoughData {
            expected: 128,
            actual: 64
        }),
        encode_rgba8(4, 4, 2, &[0u8; 64], ImageFormat::BC5Unorm, Quality::Fast)
    );
    assert_eq!(
        32,
        encode_rgba8(4, 4, 2, &[0u8; 128], ImageFormat::BC5Unorm, Quality::Fast)
            .unwrap()
            .len()
    );
}

#[test]
fn mipmap_count_for_each_policy() {
    assert_eq!(1, mipmap_count(Mipmaps::Disabled, 12, 12, 1, 7));
    assert_eq!(7, mipmap_count(Mipmaps::FromSurface, 12, 12, 1, 7));
    assert_eq!(1, mipmap_count(Mipmaps::FromSurface, 12, 12, 1, 0));
    assert_eq!(9, mipmap_count(Mipmaps::GeneratedExact(9), 12, 12, 1, 7));
    assert_eq!(1, mipmap_count(Mipmaps::GeneratedExact(0), 12, 12, 1, 7));
    assert_eq!(4, mipmap_count(Mipmaps::GeneratedAutomatic, 12, 12, 1, 7));
    assert_eq!(4, mipmap_count(Mipmaps::GeneratedAutomatic, 1, 12, 1, 7));
    assert_eq!(5, mipmap_count(Mipmaps::GeneratedAutomatic, 1, 12, 16, 7));
    assert_eq!(1, mipmap_count(Mipmaps::GeneratedAutomatic, 1, 1, 1, 7));
    assert_eq!(1, mipmap_count(Mipmaps::GeneratedAutomatic, 0, 0, 0, 7));
}

#[test]
fn append_adds_to_the_end() {
    let mut target = vec![1, 2];
    append(&mut target, &[3, 4, 5]);
    append(&mut target, &[]);
    assert_eq!(vec![1, 2, 3, 4, 5], target);
}

#[test]
fn block_encoders_have_no_format_without_compression() {
    for format in [
        ImageFormat::R8Unorm,
        ImageFormat::R8G8B8A8Unorm,
        ImageFormat::R8G8B8A8Srgb,
        ImageFormat::R32G32B32A32Float,
        ImageFormat::B8G8R8A8Unorm,
        ImageFormat::B8G8R8A8Srgb,
    ] {
        assert_eq!(
            Err(SurfaceError::UnsupportedFormat { format }),
            bcn_from_rgba8(format, 4, 4, 1, &[0u8; 64], Quality::Fast)
        );
    }
    assert_eq!(
        8,
        bcn_from_rgba8(ImageFormat::BC4Snorm, 4, 4, 1, &[0u8; 64], Quality::Fast)
            .unwrap()
            .len()
    );
    assert_eq!(
        Err(SurfaceError::NotEnoughData {
            expected: 64,
            actual: 3
        }),
        bcn_from_rgba8(ImageFormat::BC4Snorm, 4, 4, 1, &[0u8; 3], Quality::Fast)
    );
}
