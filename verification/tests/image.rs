use image_dds::image::{assemble, downsample_rgba8, pad_rgba8};

#[test]
fn downsample_2x2_to_1x1() {
    let data = [
        10, 20, 30, 40, //
        20, 30, 40, 50, //
        30, 40, 50, 60, //
        41, 51, 61, 71,
    ];
    // The mean of 10, 20, 30 and 41 is 25.25.
    assert_eq!(vec![25, 35, 45, 55], downsample_rgba8(1, 1, 1, 2, 2, 1, &data));
}

#[test]
fn downsample_rounds_down() {
    let data = [255, 0, 1, 2, 254, 1, 1, 3];
    // 254.5, 0.5, 1 and 2.5
    assert_eq!(vec![254, 0, 1, 2], downsample_rgba8(1, 1, 1, 2, 1, 1, &data));
}

#[test]
fn downsample_odd_dimensions_use_what_is_inside() {
    // 3 x 3 pixels, each channel of pixel n is n.
    let mut data = Vec::new();
    for n in 0..9u8 {
        data.extend_from_slice(&[n, n, n, n]);
    }
    let result = downsample_rgba8(2, 2, 1, 3, 3, 1, &data);
    // (0 + 1 + 3 + 4) / 4, (2 + 5) / 2, (6 + 7) / 2, 8
    assert_eq!(vec![2, 2, 2, 2, 3, 3, 3, 3, 6, 6, 6, 6, 8, 8, 8, 8], result);
}

#[test]
fn downsample_fills_up_with_zeros() {
    // 2 x 2 pixels to 4 x 4: only the first pixel covers anything.
    let data = [8u8; 2 * 2 * 4];
    let result = downsample_rgba8(4, 4, 1, 2, 2, 1, &data);
    let mut expected = vec![0u8; 4 * 4 * 4];
    expected[..4].copy_from_slice(&[8, 8, 8, 8]);
    assert_eq!(expected, result);
}

#[test]
fn downsample_depth() {
    // 2 x 2 x 2 pixels, plane 0 is all 10 and plane 1 is all 20.
    let mut data = vec![10u8; 16];
    data.extend_from_slice(&[20u8; 16]);
    assert_eq!(vec![15, 15, 15, 15], downsample_rgba8(1, 1, 1, 2, 2, 2, &data));
}

#[test]
fn downsample_reads_only_the_head_of_the_data() {
    let mut data = vec![4u8; 2 * 2 * 4];
    data.extend_from_slice(&[200u8; 100]);
    assert_eq!(vec![4, 4, 4, 4], downsample_rgba8(1, 1, 1, 2, 2, 1, &data));
}

#[test]
fn downsample_to_nothing() {
    assert_eq!(Vec::<u8>::new(), downsample_rgba8(0, 0, 0, 2, 2, 1, &[1u8; 16]));
    assert_eq!(vec![0u8; 4], downsample_rgba8(1, 1, 1, 0, 0, 0, &[]));
}

#[test]
fn pad_keeps_each_pixel_in_its_place() {
    // 2 x 2 pixels to 4 x 4.
    let data = [
        1, 1, 1, 1, 2, 2, 2, 2, //
        3, 3, 3, 3, 4, 4, 4, 4,
    ];
    let result = pad_rgba8(4, 4, 1, 2, 2, 1, &data);
    let expected = vec![
        1, 1, 1, 1, 2, 2, 2, 2, 0, 0, 0, 0, 0, 0, 0, 0, //
        3, 3, 3, 3, 4, 4, 4, 4, 0, 0, 0, 0, 0, 0, 0, 0, //
        0, 0, 0, 0, 0, 0, 0, 0, 0, 0, 0, 0, 0, 0, 0, 0, //
        0, 0, 0, 0, 0, 0, 0, 0, 0, 0, 0, 0, 0, 0, 0, 0,
    ];
    assert_eq!(expected, result);
}

#[test]
fn pad_single_pixel() {
    let result = pad_rgba8(4, 4, 1, 1, 1, 1, &[9, 8, 7, 6]);
    let mut expected = vec![0u8; 64];
    expected[..4].copy_from_slice(&[9, 8, 7, 6]);
    assert_eq!(expected, result);
}

#[test]
fn pad_same_size_changes_nothing() {
    let data: Vec<u8> = (0..64).collect();
    assert_eq!(data, pad_rgba8(4, 4, 1, 4, 4, 1, &data));
}

#[test]
fn pad_reads_nothing_past_the_end() {
    // The data ends in the middle of the second pixel.
    let result = pad_rgba8(2, 2, 1, 2, 2, 1, &[1, 2, 3, 4, 5, 6]);
    assert_eq!(vec![1, 2, 3, 4, 5, 6, 0, 0, 0, 0, 0, 0, 0, 0, 0, 0], result);
    assert_eq!(vec![0u8; 16], pad_rgba8(2, 2, 1, 2, 2, 1, &[]));
}

#[test]
fn pad_planes() {
    // 1 x 1 x 2 pixels to 2 x 1 x 2.
    let result = pad_rgba8(2, 1, 2, 1, 1, 2, &[1, 1, 1, 1, 2, 2, 2, 2]);
    assert_eq!(vec![1, 1, 1, 1, 0, 0, 0, 0, 2, 2, 2, 2, 0, 0, 0, 0], result);
}

fn tile(first: u8) -> Vec<u8> {
    (0..64).map(|k| first + k).collect()
}

#[test]
fn assemble_one_tile() {
    let tiles = vec![tile(0)];
    assert_eq!(tile(0), assemble(&tiles, 4, 4, 1));
}

#[test]
fn assemble_leaves_out_what_is_beyond_the_image() {
    let tiles = vec![tile(0)];
    assert_eq!(vec![0, 1, 2, 3], assemble(&tiles, 1, 1, 1));
    // 2 x 3 pixels: two pixels of each of the first three rows.
    assert_eq!(
        vec![
            0, 1, 2, 3, 4, 5, 6, 7, //
            16, 17, 18, 19, 20, 21, 22, 23, //
            32, 33, 34, 35, 36, 37, 38, 39,
        ],
        assemble(&tiles, 2, 3, 1)
    );
}

#[test]
fn assemble_two_tiles_side_by_side() {
    let tiles = vec![tile(0), tile(100)];
    // 5 x 1 pixels: four of the first tile and one of the second.
    assert_eq!(
        vec![0, 1, 2, 3, 4, 5, 6, 7, 8, 9, 10, 11, 12, 13, 14, 15, 100, 101, 102, 103],
        assemble(&tiles, 5, 1, 1)
    );
}

#[test]
fn assemble_tiles_below_each_other_and_planes() {
    let tiles = vec![tile(0), tile(64), tile(128), tile(192)];
    // 1 x 5 x 2 pixels: each plane has two tiles below each other.
    assert_eq!(
        vec![
            0, 1, 2, 3, 16, 17, 18, 19, 32, 33, 34, 35, 48, 49, 50, 51, 64, 65, 66, 67, //
            128, 129, 130, 131, 144, 145, 146, 147, 160, 161, 162, 163, 176, 177, 178, 179, 192,
            193, 194, 195,
        ],
        assemble(&tiles, 1, 5, 2)
    );
}
