//! Channel values from 0 to 255 as binary floating point numbers from 0 to 1,
//! given by their bits. A value `v` stands for `v / 255`.

use vstd::prelude::*;
use vstd::arithmetic::power2::pow2;

verus! {

/// How often `value / 255` is to be doubled to reach 1 or more.
pub open spec fn spec_unorm8_shift(value: u8) -> int {
    if value >= 255 {
        0
    } else if value >= 128 {
        1
    } else if value >= 64 {
        2
    } else if value >= 32 {
        3
    } else if value >= 16 {
        4
    } else if value >= 8 {
        5
    } else if value >= 4 {
        6
    } else if value >= 2 {
        7
    } else {
        8
    }
}

/// `value` doubled as often as `spec_unorm8_shift` says: 255 times the
/// significand of `value / 255`.
pub open spec fn spec_unorm8_scaled(value: u8) -> int {
    if value >= 255 {
        value as int
    } else if value >= 128 {
        2 * value
    } else if value >= 64 {
        4 * value
    } else if value >= 32 {
        8 * value
    } else if value >= 16 {
        16 * value
    } else if value >= 8 {
        32 * value
    } else if value >= 4 {
        64 * value
    } else if value >= 2 {
        128 * value
    } else {
        256 * value
    }
}

/// The significand of `value / 255` in units of `1 / one`, rounded to the
/// nearest unit.
pub open spec fn spec_unorm8_significand(value: u8, one: int) -> int {
    (2 * spec_unorm8_scaled(value) * one + 255) / 510
}

/// The bits of the floating point number nearest to `value / 255`, in a format
/// whose fraction counts units of `1 / one` and whose exponent is stored with
/// `bias` added: zero for zero, and else the exponent's field above the
/// fraction's.
pub open spec fn spec_unorm8_to_float(value: u8, one: int, bias: int) -> int {
    if value == 0 {
        0
    } else {
        (bias - spec_unorm8_shift(value)) * one + (spec_unorm8_significand(value, one) - one)
    }
}

/// The bits of the half precision number nearest to `value / 255`.
pub open spec fn spec_unorm8_to_half(value: u8) -> u16 {
    spec_unorm8_to_float(value, 1024, 15) as u16
}

/// The bits of the single precision number nearest to `value / 255`.
pub open spec fn spec_unorm8_to_single(value: u8) -> u32 {
    spec_unorm8_to_float(value, 8388608, 127) as u32
}

/// What makes the bits those of the nearest number: `value / 255` has a
/// significand of 1 or more and less than 2, the significand that is stored
/// lies in that range too, and the two differ by less than half a unit.
pub proof fn lemma_unorm8_rounding(value: u8, one: int)
    requires
        value >= 1,
        one >= 256,
    ensures
        255 <= spec_unorm8_scaled(value) < 510,
        one <= spec_unorm8_significand(value, one) < 2 * one,
        -255 < 2 * (255 * spec_unorm8_significand(value, one) - spec_unorm8_scaled(value) * one)
            < 255,
{
    let scaled = spec_unorm8_scaled(value);
    let n = spec_unorm8_significand(value, one);
    let x = 2 * scaled * one + 255;
    assert(0 <= 2 * scaled * one) by (nonlinear_arith)
        requires
            0 <= scaled,
            0 <= one,
    ;
    assert(x == 510 * (x / 510) + x % 510 && 0 <= x % 510 < 510) by (nonlinear_arith)
        requires
            0 <= x,
    ;
    assert(2 * scaled * one == 2 * (scaled * one)) by (nonlinear_arith);
    // An even number and 255 differ by an odd number, so never by 510 * n.
    assert(x % 510 != 0) by {
        if x % 510 == 0 {
            assert(2 * (scaled * one) + 255 == 2 * (255 * n));
        }
    }
    assert(scaled * one >= 255 * one && scaled * one <= 509 * one) by (nonlinear_arith)
        requires
            255 <= scaled <= 509,
            0 <= one,
    ;
}

/// The bits of the floating point number nearest to `value / 255`.
fn unorm8_to_float(value: u8, one: u32, bias: u32) -> (bits: u32)
    requires
        one == 1024 && bias == 15 || one == 8388608 && bias == 127,
    ensures
        bits == spec_unorm8_to_float(value, one as int, bias as int),
        bits < 128 * one,
{
    if value == 0 {
        return 0;
    }
    let mut scaled: u64 = value as u64;
    let mut shift: u32 = 0;
    while scaled < 255
        invariant
            1 <= value,
            shift <= 8,
            scaled >= 1,
            scaled < 255 ==> shift < 8,
            shift == 0 ==> scaled == value,
            shift == 1 ==> scaled == 2 * value,
            shift == 2 ==> scaled == 4 * value,
            shift == 3 ==> scaled == 8 * value,
            shift == 4 ==> scaled == 16 * value,
            shift == 5 ==> scaled == 32 * value,
            shift == 6 ==> scaled == 64 * value,
            shift == 7 ==> scaled == 128 * value,
            shift == 8 ==> scaled == 256 * value,
            shift >= 1 ==> scaled < 510,
        decreases 8 - shift,
    {
        scaled = scaled * 2;
        shift = shift + 1;
    }
    proof {
        lemma_unorm8_rounding(value, one as int);
        assert(scaled * one <= 509 * one) by (nonlinear_arith)
            requires
                scaled <= 509,
                0 <= one,
        ;
        assert(2 * scaled * one == 2 * (scaled * one)) by (nonlinear_arith);
    }
    let significand: u64 = (2 * scaled * one as u64 + 255) / 510;
    proof {
        assert((bias - shift) * one <= bias * one) by (nonlinear_arith)
            requires
                0 <= shift <= bias,
                0 <= one,
        ;
        assert((bias - shift) * one >= 0) by (nonlinear_arith)
            requires
                0 <= shift <= bias,
                0 <= one,
        ;
    }
    ((bias - shift) as u64 * one as u64 + (significand - one as u64)) as u32
}

/// The bits of the half precision number nearest to `value / 255`.
pub fn unorm8_to_half(value: u8) -> (bits: u16)
    ensures
        bits == spec_unorm8_to_half(value),
{
    unorm8_to_float(value, 1024, 15) as u16
}

/// The bits of the single precision number nearest to `value / 255`.
pub fn unorm8_to_single(value: u8) -> (bits: u32)
    ensures
        bits == spec_unorm8_to_single(value),
{
    unorm8_to_float(value, 8388608, 127)
}

/// The number that the bits of a half precision number stand for, in units of
/// 2^-24, for bits without a sign and with an exponent below that of infinity.
pub open spec fn spec_half_scaled(bits: u16) -> int {
    let exponent = bits as int / 1024;
    let fraction = bits as int % 1024;
    if exponent == 0 {
        fraction
    } else {
        (1024 + fraction) * pow2((exponent - 1) as nat)
    }
}

/// The channel value from 0 to 255 for a half precision number: 255 times the
/// number, without what follows the point, and no more than 255. A negative
/// number and one that is not a number give 0.
///
/// This is what multiplying by 255 in single precision and converting to a
/// byte gives: a half precision number has 11 significant bits, so its product
/// with 255 is exact in single precision.
pub open spec fn spec_half_to_unorm8(bits: u16) -> u8 {
    let exponent = bits as int / 1024;
    let fraction = bits as int % 1024;
    if bits >= 0x8000 {
        0
    } else if exponent == 31 {
        if fraction == 0 {
            255
        } else {
            0
        }
    } else if exponent >= 15 {
        255
    } else {
        (255 * spec_half_scaled(bits) / 16777216) as u8
    }
}

/// `value` in units of `unit`, rounded to the nearest unit, and to the even one
/// of two that are equally near.
pub open spec fn spec_round_half_even(value: int, unit: int) -> int {
    let quotient = value / unit;
    let rest = value % unit;
    if 2 * rest > unit || (2 * rest == unit && quotient % 2 == 1) {
        quotient + 1
    } else {
        quotient
    }
}

/// The channel value from 0 to 255 for a single precision number: the product
/// of the number and 255 in single precision, without what follows the point,
/// and no more than 255. A negative number and one that is not a number give 0.
///
/// The product in single precision is the exact product rounded to 24
/// significant bits. The number's significand times 255 has 31 or 32 bits, so 7
/// or 8 of them are rounded away.
pub open spec fn spec_single_to_unorm8(bits: u32) -> u8 {
    let exponent = bits as int / 8388608 % 256;
    let fraction = bits as int % 8388608;
    let product = 255 * (8388608 + fraction);
    let dropped: nat = if product < 0x8000_0000 {
        7
    } else {
        8
    };
    if bits >= 0x8000_0000 {
        0
    } else if exponent == 255 {
        if fraction == 0 {
            255
        } else {
            0
        }
    } else if exponent >= 127 {
        255
    } else if exponent == 0 {
        0
    } else {
        (spec_round_half_even(product, pow2(dropped) as int) / (pow2(
            (150 - exponent - dropped) as nat,
        ) as int)) as u8
    }
}

/// The channel value from 0 to 255 for a half precision number.
pub fn half_to_unorm8(bits: u16) -> (value: u8)
    ensures
        value == spec_half_to_unorm8(bits),
{
    let exponent: u16 = bits / 1024;
    let fraction: u16 = bits % 1024;
    if bits >= 0x8000 {
        return 0;
    }
    if exponent == 31 {
        return if fraction == 0 {
            255
        } else {
            0
        };
    }
    if exponent >= 15 {
        return 255;
    }
    if exponent == 0 {
        assert(255 * fraction / 16777216 == 0);
        return 0;
    }
    let significand: u64 = 1024 + fraction as u64;
    let shift: u64 = (exponent - 1) as u64;
    proof {
        vstd::arithmetic::power2::lemma2_to64();
        vstd::arithmetic::power2::lemma_pow2_strictly_increases(shift as nat, 14);
        vstd::arithmetic::power2::lemma_pow2_pos(shift as nat);
        assert(significand * pow2(shift as nat) < 2048 * 16384) by (nonlinear_arith)
            requires
                significand < 2048,
                0 < pow2(shift as nat) < 16384,
        ;
        vstd::bits::lemma_u64_shl_is_mul(significand, shift);
    }
    let scaled: u64 = significand << shift;
    (255 * scaled / 16777216) as u8
}

/// The channel value from 0 to 255 for a single precision number.
pub fn single_to_unorm8(bits: u32) -> (value: u8)
    ensures
        value == spec_single_to_unorm8(bits),
{
    let exponent: u32 = bits / 8388608 % 256;
    let fraction: u32 = bits % 8388608;
    if bits >= 0x8000_0000 {
        return 0;
    }
    if exponent == 255 {
        return if fraction == 0 {
            255
        } else {
            0
        };
    }
    if exponent >= 127 {
        return 255;
    }
    if exponent == 0 {
        return 0;
    }
    let product: u64 = 255 * (8388608 + fraction as u64);
    let (dropped, unit, quotient, rest): (u32, u64, u64, u64) = if product < 0x8000_0000 {
        (7, 128, product / 128, product % 128)
    } else {
        (8, 256, product / 256, product % 256)
    };
    let rounded: u64 = if 2 * rest > unit || (2 * rest == unit && quotient % 2 == 1) {
        quotient + 1
    } else {
        quotient
    };
    let shift: u32 = 150 - exponent - dropped;
    proof {
        vstd::arithmetic::power2::lemma2_to64();
        if dropped == 7 {
            assert(product == quotient * 128 + rest);
        } else {
            assert(product == quotient * 256 + rest);
        }
        assert(rounded * unit <= product + unit) by (nonlinear_arith)
            requires
                product == quotient * unit + rest,
                rounded <= quotient + 1,
        ;
        assert(rounded <= 0x100_0000);
        if shift >= 25 {
            vstd::arithmetic::power2::lemma_pow2_strictly_increases(24, shift as nat);
            vstd::arithmetic::div_mod::lemma_basic_div(rounded as int, pow2(shift as nat) as int);
        } else {
            vstd::bits::lemma_u64_shr_is_div(rounded, shift as u64);
            // The product is below 255 times 2^(150 - exponent), so what is
            // left of it is below 256.
            vstd::arithmetic::power2::lemma_pow2_adds(dropped as nat, shift as nat);
            vstd::arithmetic::power2::lemma_pow2_strictly_increases(23, (dropped + shift) as nat);
            vstd::arithmetic::power2::lemma_pow2_pos(shift as nat);
            let whole = pow2(shift as nat) as int;
            assert(unit == pow2(dropped as nat));
            assert(unit * whole >= 0x100_0000);
            assert(rounded as int / whole <= 255) by (nonlinear_arith)
                requires
                    rounded * unit <= product + unit,
                    product < 255 * 0x100_0000,
                    unit * whole >= 0x100_0000,
                    unit == 128 || unit == 256,
                    whole >= 1,
                    rounded >= 0,
            ;
        }
    }
    if shift >= 25 {
        0
    } else {
        (rounded >> shift) as u8
    }
}

} // verus!
