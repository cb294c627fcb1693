use image_dds::unorm::{half_to_unorm8, single_to_unorm8, unorm8_to_half, unorm8_to_single};

#[test]
fn half_of_each_value_is_the_nearest() {
    for value in 0..=255u8 {
        let expected = half::f16::from_f32(value as f32 / 255.0).to_bits();
        assert_eq!(expected, unorm8_to_half(value), "value {}", value);
    }
}

#[test]
fn single_of_each_value_is_the_nearest() {
    for value in 0..=255u8 {
        let expected = (value as f32 / 255.0).to_bits();
        assert_eq!(expected, unorm8_to_single(value), "value {}", value);
    }
}

#[test]
fn half_of_chosen_values() {
    assert_eq!(0x0000, unorm8_to_half(0));
    assert_eq!(0x3c00, unorm8_to_half(255));
    // 128 / 255 is 0.50196..., which is 1.00392... times 2^-1.
    assert_eq!(0x3804, unorm8_to_half(128));
    // 1 / 255 is 1.00392... times 2^-8.
    assert_eq!(0x1c04, unorm8_to_half(1));
}

#[test]
fn single_of_chosen_values() {
    assert_eq!(0x0000_0000, unorm8_to_single(0));
    assert_eq!(0x3f80_0000, unorm8_to_single(255));
    assert_eq!(1.0f32, f32::from_bits(unorm8_to_single(255)));
    assert_eq!(0.2f32, f32::from_bits(unorm8_to_single(51)));
}

#[test]
fn byte_of_each_half_is_the_product_with_255() {
    for bits in 0..=u16::MAX {
        let expected = (half::f16::from_bits(bits).to_f32() * 255.0) as u8;
        assert_eq!(expected, half_to_unorm8(bits), "bits {:#06x}", bits);
    }
}

#[test]
fn byte_of_chosen_halves() {
    assert_eq!(0, half_to_unorm8(0x0000));
    assert_eq!(255, half_to_unorm8(0x3c00));
    // One half: 127.5 without what follows the point.
    assert_eq!(127, half_to_unorm8(0x3800));
    // Two, infinity, minus one, not a number.
    assert_eq!(255, half_to_unorm8(0x4000));
    assert_eq!(255, half_to_unorm8(0x7c00));
    assert_eq!(0, half_to_unorm8(0xbc00));
    assert_eq!(0, half_to_unorm8(0x7e00));
    // The largest number below one: 254.87...
    assert_eq!(254, half_to_unorm8(0x3bff));
}

fn check_single(bits: u32) {
    let expected = (f32::from_bits(bits) * 255.0) as u8;
    assert_eq!(expected, single_to_unorm8(bits), "bits {:#010x}", bits);
}

#[test]
fn byte_of_singles_across_the_range() {
    let mut bits: u32 = 0;
    loop {
        check_single(bits);
        match bits.checked_add(65521) {
            Some(next) => bits = next,
            None => break,
        }
    }
}

#[test]
fn byte_of_singles_next_to_each_step() {
    for value in 0..=255u32 {
        // The numbers around value / 255, where the product is a whole number
        // or next to one.
        let near = (value as f32 / 255.0).to_bits();
        for bits in near.saturating_sub(64)..=near + 64 {
            check_single(bits);
        }
    }
}

#[test]
fn byte_of_singles_with_each_exponent() {
    for exponent in 0..=255u32 {
        for fraction in [0u32, 1, 2, 0x3f_ffff, 0x40_0000, 0x40_0001, 0x7f_fffe, 0x7f_ffff] {
            check_single(exponent << 23 | fraction);
            check_single(1 << 31 | exponent << 23 | fraction);
        }
    }
}

#[test]
fn byte_of_chosen_singles() {
    assert_eq!(0, single_to_unorm8(0.0f32.to_bits()));
    assert_eq!(255, single_to_unorm8(1.0f32.to_bits()));
    assert_eq!(127, single_to_unorm8(0.5f32.to_bits()));
    assert_eq!(51, single_to_unorm8(0.2f32.to_bits()));
    assert_eq!(255, single_to_unorm8(7.5f32.to_bits()));
    assert_eq!(255, single_to_unorm8(f32::INFINITY.to_bits()));
    assert_eq!(0, single_to_unorm8((-0.5f32).to_bits()));
    assert_eq!(0, single_to_unorm8(f32::NAN.to_bits()));
    assert_eq!(0, single_to_unorm8(f32::NEG_INFINITY.to_bits()));
}

#[test]
fn each_channel_value_comes_back_from_its_half_and_its_single() {
    for value in 0..=255u8 {
        // A half is too coarse to give every value back, a single is not.
        assert_eq!(
            (f32::from_bits(unorm8_to_single(value)) * 255.0) as u8,
            single_to_unorm8(unorm8_to_single(value))
        );
        let back = half_to_unorm8(unorm8_to_half(value)) as u32;
        assert!(back <= value as u32);
        assert!(back + 1 >= value as u32);
    }
}
