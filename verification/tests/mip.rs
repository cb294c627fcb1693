use image_dds::error::SurfaceError;
use image_dds::mip::{
    div_round_up, max_mipmap_count, mip_dimension, mip_size, round_up, validate_length,
};

#[test]
fn div_round_up_rounds_up() {
    assert_eq!(0, div_round_up(0, 4));
    assert_eq!(1, div_round_up(1, 4));
    assert_eq!(1, div_round_up(4, 4));
    assert_eq!(2, div_round_up(5, 4));
    assert_eq!(3, div_round_up(12, 4));
    assert_eq!(7, div_round_up(7, 1));
    assert_eq!(usize::MAX / 4 + 1, div_round_up(usize::MAX, 4));
}

#[test]
fn round_up_gives_the_next_multiple() {
    assert_eq!(0, round_up(0, 4));
    assert_eq!(4, round_up(1, 4));
    assert_eq!(4, round_up(3, 4));
    assert_eq!(4, round_up(4, 4));
    assert_eq!(8, round_up(6, 4));
    assert_eq!(5, round_up(5, 1));
}

#[test]
fn mip_dimension_halves_down_to_one() {
    assert_eq!(12, mip_dimension(12, 0));
    assert_eq!(6, mip_dimension(12, 1));
    assert_eq!(3, mip_dimension(12, 2));
    assert_eq!(1, mip_dimension(12, 3));
    assert_eq!(1, mip_dimension(12, 4));
    assert_eq!(1, mip_dimension(12, 31));
    assert_eq!(1, mip_dimension(12, 32));
    assert_eq!(1, mip_dimension(u32::MAX, u32::MAX));
    assert_eq!(1, mip_dimension(u32::MAX, 31));
    assert_eq!(3, mip_dimension(u32::MAX, 30));
    assert_eq!(1, mip_dimension(0, 0));
}

#[test]
fn max_mipmap_count_is_one_more_than_the_logarithm() {
    assert_eq!(0, max_mipmap_count(0));
    assert_eq!(1, max_mipmap_count(1));
    assert_eq!(2, max_mipmap_count(2));
    assert_eq!(2, max_mipmap_count(3));
    assert_eq!(3, max_mipmap_count(4));
    assert_eq!(4, max_mipmap_count(12));
    assert_eq!(4, max_mipmap_count(15));
    assert_eq!(5, max_mipmap_count(16));
    assert_eq!(32, max_mipmap_count(u32::MAX));
}

#[test]
fn mip_size_counts_whole_blocks() {
    assert_eq!(Some(9 * 16), mip_size(12, 12, 1, 4, 4, 1, 16));
    assert_eq!(Some(4 * 16), mip_size(6, 6, 1, 4, 4, 1, 16));
    assert_eq!(Some(16), mip_size(1, 1, 1, 4, 4, 1, 16));
    assert_eq!(Some(8), mip_size(3, 2, 1, 4, 4, 1, 8));
    assert_eq!(Some(3 * 5 * 2 * 4), mip_size(3, 5, 2, 1, 1, 1, 4));
    assert_eq!(Some(0), mip_size(0, 5, 2, 1, 1, 1, 4));
}

#[test]
fn mip_size_is_none_on_overflow() {
    assert_eq!(None, mip_size(usize::MAX, 2, 1, 1, 1, 1, 1));
    assert_eq!(None, mip_size(usize::MAX, 1, 1, 1, 1, 1, 2));
    assert_eq!(None, mip_size(usize::MAX, usize::MAX, usize::MAX, 1, 1, 1, 4));
    assert_eq!(Some(usize::MAX), mip_size(usize::MAX, 1, 1, 1, 1, 1, 1));
    // A factor of zero leaves nothing to overflow.
    assert_eq!(Some(0), mip_size(usize::MAX, usize::MAX, 0, 1, 1, 1, 4));
}

#[test]
fn validate_length_answers_the_number_called_for() {
    assert_eq!(Ok(64), validate_length(4, 4, 1, (4, 4, 1), 64, 64));
    assert_eq!(Ok(64), validate_length(4, 4, 1, (4, 4, 1), 64, 100));
    assert_eq!(Ok(64), validate_length(1, 1, 1, (4, 4, 1), 64, 64));
    // Pixels of whole blocks: 8 x 8 x 2 for a surface of 5 x 5 x 2.
    assert_eq!(Ok(128), validate_length(5, 5, 2, (4, 4, 1), 16, 128));
    assert_eq!(Ok(120), validate_length(3, 5, 2, (1, 1, 1), 4, 256));
}

#[test]
fn validate_length_not_enough_data() {
    assert_eq!(
        Err(SurfaceError::NotEnoughData {
            expected: 64,
            actual: 63
        }),
        validate_length(4, 4, 1, (4, 4, 1), 64, 63)
    );
    assert_eq!(
        Err(SurfaceError::NotEnoughData {
            expected: 256,
            actual: 0
        }),
        validate_length(5, 5, 1, (4, 4, 1), 64, 0)
    );
}

#[test]
fn validate_length_pixel_count_would_overflow() {
    assert_eq!(
        Err(SurfaceError::PixelCountWouldOverflow {
            width: u32::MAX,
            height: u32::MAX,
            depth: u32::MAX
        }),
        validate_length(u32::MAX, u32::MAX, u32::MAX, (1, 1, 1), 4, usize::MAX)
    );
}
