//! Sizes of mip levels: dimensions per level, rounding to whole blocks, and the
//! number of bytes that a level takes.

use vstd::prelude::*;
use vstd::arithmetic::logarithm::log;
use vstd::arithmetic::power2::pow2;
use crate::error::SurfaceError;

verus! {

/// `x / d`, rounded up.
pub open spec fn spec_div_round_up(x: int, d: int) -> int {
    (x + d - 1) / d
}

/// The least multiple of `n` that is not below `x`.
pub open spec fn spec_round_up(x: int, n: int) -> int {
    spec_div_round_up(x, n) * n
}

/// The extent of mip level `mipmap` along an axis whose base extent is `dim`:
/// halved once per level, and never below one pixel.
pub open spec fn spec_mip_dimension(dim: u32, mipmap: u32) -> u32 {
    let halved = dim as nat / pow2(mipmap as nat);
    if halved == 0 {
        1u32
    } else {
        halved as u32
    }
}

/// The number of levels from `max_dimension` down to a single pixel:
/// `floor(log2(max_dimension)) + 1`, and none for an extent of zero.
pub open spec fn spec_max_mipmap_count(max_dimension: u32) -> int {
    if max_dimension == 0 {
        0
    } else {
        log(2, max_dimension as int) + 1
    }
}

/// The number of blocks of `block_width` x `block_height` x `block_depth` pixels
/// that cover `width` x `height` x `depth` pixels.
pub open spec fn spec_block_count(
    width: int,
    height: int,
    depth: int,
    block_width: int,
    block_height: int,
    block_depth: int,
) -> int {
    spec_div_round_up(width, block_width) * spec_div_round_up(height, block_height)
        * spec_div_round_up(depth, block_depth)
}

/// The size of one level: its number of blocks times the size of a block.
pub open spec fn spec_mip_size(
    width: int,
    height: int,
    depth: int,
    block_width: int,
    block_height: int,
    block_depth: int,
    block_size: int,
) -> int {
    spec_block_count(width, height, depth, block_width, block_height, block_depth) * block_size
}

/// What `validate_length` answers.
pub open spec fn spec_validate_length(
    width: u32,
    height: u32,
    depth: u32,
    block_dimensions: (u32, u32, u32),
    block_size: usize,
    available: usize,
) -> Result<usize, SurfaceError> {
    let expected = spec_mip_size(
        width as int,
        height as int,
        depth as int,
        block_dimensions.0 as int,
        block_dimensions.1 as int,
        block_dimensions.2 as int,
        block_size as int,
    );
    if expected > usize::MAX {
        Err(SurfaceError::PixelCountWouldOverflow { width, height, depth })
    } else if available < expected {
        Err(SurfaceError::NotEnoughData { expected: expected as usize, actual: available })
    } else {
        Ok(expected as usize)
    }
}

/// Rounding up a division is the quotient, plus one where a remainder is left.
pub proof fn lemma_div_round_up(x: int, d: int)
    requires
        0 <= x,
        0 < d,
    ensures
        spec_div_round_up(x, d) == x / d + if x % d == 0 { 0int } else { 1int },
        0 <= spec_div_round_up(x, d) <= x,
        x <= spec_div_round_up(x, d) * d < x + d,
        x > 0 ==> spec_div_round_up(x, d) >= 1,
{
    let q = x / d;
    let r = x % d;
    assert(x == q * d + r && 0 <= r < d) by (nonlinear_arith)
        requires
            q == x / d,
            r == x % d,
            0 < d,
    ;
    assert(0 <= q <= x) by (nonlinear_arith)
        requires
            x == q * d + r,
            0 <= r < d,
            0 <= x,
            0 < d,
    ;
    if r == 0 {
        assert((q * d + d - 1) / d == q) by (nonlinear_arith)
            requires
                0 < d,
        ;
        assert(q * d < x + d);
        assert(x > 0 ==> q >= 1) by (nonlinear_arith)
            requires
                x == q * d + r,
                r == 0,
                0 < d,
        ;
    } else {
        assert((q * d + (r + d - 1)) / d == q + 1) by (nonlinear_arith)
            requires
                0 < d,
                1 <= r < d,
        ;
        assert((q + 1) * d == q * d + d) by (nonlinear_arith);
        assert(q + 1 <= x) by (nonlinear_arith)
            requires
                x == q * d + r,
                1 <= r < d,
                0 <= q,
        ;
    }
}

/// A rounded-up division grows with the number that is divided.
pub proof fn lemma_div_round_up_ordered(x: int, y: int, d: int)
    requires
        0 <= x <= y,
        0 < d,
    ensures
        spec_div_round_up(x, d) <= spec_div_round_up(y, d),
{
    vstd::arithmetic::div_mod::lemma_div_is_ordered(x + d - 1, y + d - 1, d);
}

/// On a multiple of the divisor, rounding up changes nothing.
pub proof fn lemma_round_up_of_multiple(x: int, n: int)
    requires
        0 <= x,
        0 < n,
        x % n == 0,
    ensures
        spec_round_up(x, n) == x,
        spec_div_round_up(x, n) == x / n,
{
    lemma_div_round_up(x, n);
    assert(x == (x / n) * n + x % n) by (nonlinear_arith)
        requires
            0 < n,
    ;
}

/// A product of three factors and a size grows with each factor.
pub proof fn lemma_size_ordered(a: int, b: int, c: int, x: int, y: int, z: int, s: int)
    requires
        0 <= a <= x,
        0 <= b <= y,
        0 <= c <= z,
        0 <= s,
    ensures
        0 <= a * b * c * s <= x * y * z * s,
{
    assert(0 <= a * b <= x * y) by (nonlinear_arith)
        requires
            0 <= a <= x,
            0 <= b <= y,
    ;
    let ab = a * b;
    let xy = x * y;
    assert(0 <= ab * c <= xy * z) by (nonlinear_arith)
        requires
            0 <= ab <= xy,
            0 <= c <= z,
    ;
    let abc = ab * c;
    let xyz = xy * z;
    assert(0 <= abc * s <= xyz * s) by (nonlinear_arith)
        requires
            0 <= abc <= xyz,
            0 <= s,
    ;
}

/// Where a block counts as the pixels that it holds, the size of a level is the
/// number of pixels of its whole blocks: the product of its dimensions, each
/// brought up to a multiple of the block's.
pub proof fn lemma_pixels_of_whole_blocks(
    width: int,
    height: int,
    depth: int,
    block_width: int,
    block_height: int,
    block_depth: int,
)
    ensures
        spec_mip_size(
            width,
            height,
            depth,
            block_width,
            block_height,
            block_depth,
            block_width * block_height * block_depth,
        ) == spec_round_up(width, block_width) * spec_round_up(height, block_height)
            * spec_round_up(depth, block_depth),
{
    let x = spec_div_round_up(width, block_width);
    let y = spec_div_round_up(height, block_height);
    let z = spec_div_round_up(depth, block_depth);
    assert((x * y * z) * (block_width * block_height * block_depth) == (x * block_width) * (y
        * block_height) * (z * block_depth)) by (nonlinear_arith);
}

/// `x / d`, rounded up.
pub fn div_round_up(x: usize, d: usize) -> (q: usize)
    requires
        d > 0,
    ensures
        q == spec_div_round_up(x as int, d as int),
{
    proof {
        lemma_div_round_up(x as int, d as int);
    }
    if x % d == 0 {
        x / d
    } else {
        x / d + 1
    }
}

/// The least multiple of `n` that is not below `x`.
pub fn round_up(x: usize, n: usize) -> (r: usize)
    requires
        n > 0,
        spec_round_up(x as int, n as int) <= usize::MAX,
    ensures
        r == spec_round_up(x as int, n as int),
        r >= x,
        r % n == 0,
{
    let q: usize = div_round_up(x, n);
    proof {
        lemma_div_round_up(x as int, n as int);
        assert((q * n) % (n as int) == 0) by (nonlinear_arith)
            requires
                n > 0,
        ;
    }
    q * n
}

/// The extent of mip level `mipmap` along an axis whose base extent is `dim`.
pub fn mip_dimension(dim: u32, mipmap: u32) -> (r: u32)
    ensures
        r == spec_mip_dimension(dim, mipmap),
        1 <= r,
        dim >= 1 ==> r <= dim,
{
    proof {
        lemma_mip_dimension_bounds(dim, mipmap);
    }
    if mipmap >= 32 {
        proof {
            vstd::arithmetic::power2::lemma2_to64();
            if mipmap > 32 {
                vstd::arithmetic::power2::lemma_pow2_strictly_increases(32, mipmap as nat);
            }
            vstd::arithmetic::div_mod::lemma_basic_div(dim as int, pow2(mipmap as nat) as int);
        }
        1
    } else {
        let halved: u32 = dim >> mipmap;
        proof {
            vstd::bits::lemma_u32_shr_is_div(dim, mipmap);
        }
        if halved == 0 {
            1
        } else {
            halved
        }
    }
}

/// A level is at least one pixel wide and no wider than a base of one pixel or more.
pub proof fn lemma_mip_dimension_bounds(dim: u32, mipmap: u32)
    ensures
        1 <= spec_mip_dimension(dim, mipmap),
        dim >= 1 ==> spec_mip_dimension(dim, mipmap) <= dim,
        mipmap == 0 && dim >= 1 ==> spec_mip_dimension(dim, mipmap) == dim,
{
    vstd::arithmetic::power2::lemma_pow2_pos(mipmap as nat);
    let p = pow2(mipmap as nat) as int;
    vstd::arithmetic::div_mod::lemma_div_nonincreasing(dim as int, p);
    vstd::arithmetic::div_mod::lemma_div_pos_is_pos(dim as int, p);
    if mipmap == 0 {
        vstd::arithmetic::power2::lemma2_to64();
    }
}

/// The number of levels from `max_dimension` down to a single pixel.
pub fn max_mipmap_count(max_dimension: u32) -> (count: u32)
    ensures
        count == spec_max_mipmap_count(max_dimension),
        count <= 32,
        max_dimension >= 1 ==> count >= 1,
{
    let mut count: u32 = 0;
    let mut rest: u32 = max_dimension;
    proof {
        vstd::arithmetic::power2::lemma2_to64();
    }
    while rest > 0
        invariant
            count + spec_max_mipmap_count(rest) == spec_max_mipmap_count(max_dimension),
            count <= 32,
            rest as int * pow2(count as nat) <= u32::MAX,
            max_dimension >= 1 ==> count >= 1 || rest >= 1,
        decreases rest,
    {
        proof {
            reveal_with_fuel(log, 2);
            vstd::arithmetic::power2::lemma_pow2_unfold((count + 1) as nat);
            vstd::arithmetic::power2::lemma_pow2_pos(count as nat);
            let p = pow2(count as nat) as int;
            assert((rest / 2) as int * (2 * p) <= rest as int * p) by (nonlinear_arith)
                requires
                    0 <= rest,
                    0 < p,
            ;
            if count == 32 {
                vstd::arithmetic::power2::lemma2_to64();
                assert(rest as int * p >= p) by (nonlinear_arith)
                    requires
                        rest >= 1,
                        0 < p,
                ;
            }
        }
        rest = rest / 2;
        count = count + 1;
    }
    count
}

/// The size of one level in bytes, or `None` where it does not fit a `usize`.
pub fn mip_size(
    width: usize,
    height: usize,
    depth: usize,
    block_width: usize,
    block_height: usize,
    block_depth: usize,
    block_size_in_bytes: usize,
) -> (size: Option<usize>)
    requires
        block_width > 0,
        block_height > 0,
        block_depth > 0,
    ensures
        size == if spec_mip_size(
            width as int,
            height as int,
            depth as int,
            block_width as int,
            block_height as int,
            block_depth as int,
            block_size_in_bytes as int,
        ) <= usize::MAX {
            Some(
                spec_mip_size(
                    width as int,
                    height as int,
                    depth as int,
                    block_width as int,
                    block_height as int,
                    block_depth as int,
                    block_size_in_bytes as int,
                ) as usize,
            )
        } else {
            None
        },
{
    let x: usize = div_round_up(width, block_width);
    let y: usize = div_round_up(height, block_height);
    let z: usize = div_round_up(depth, block_depth);
    let s: usize = block_size_in_bytes;
    if x == 0 || y == 0 || z == 0 || s == 0 {
        assert(x * y * z * s == 0) by (nonlinear_arith)
            requires
                x == 0 || y == 0 || z == 0 || s == 0,
        ;
        return Some(0);
    }
    let xy: usize = match x.checked_mul(y) {
        Some(v) => v,
        None => {
            proof {
                lemma_size_ordered(x as int, y as int, 1, x as int, y as int, z as int, 1);
                lemma_size_ordered(1, 1, 1, x as int, y as int, z as int, 1);
                let xyz = x * y * z;
                assert(xyz * s >= xyz) by (nonlinear_arith)
                    requires
                        xyz >= 0,
                        s >= 1,
                ;
                assert(x * y * 1 * 1 == x * y) by (nonlinear_arith);
                assert(x * y * z * 1 == x * y * z) by (nonlinear_arith);
            }
            return None;
        },
    };
    let xyz: usize = match xy.checked_mul(z) {
        Some(v) => v,
        None => {
            proof {
                let xyz = xy * z;
                assert(xyz * s >= xyz) by (nonlinear_arith)
                    requires
                        xyz >= 0,
                        s >= 1,
                ;
            }
            return None;
        },
    };
    xyz.checked_mul(s)
}

/// Holds the number of elements that a buffer has against the number that a
/// surface of `width` x `height` x `depth` pixels calls for: each block that the
/// surface touches, partly or wholly, counts `block_size` elements.
///
/// Answers the number called for, `PixelCountWouldOverflow` where that number
/// does not fit a `usize`, and `NotEnoughData` where the buffer is shorter.
pub fn validate_length(
    width: u32,
    height: u32,
    depth: u32,
    block_dimensions: (u32, u32, u32),
    block_size: usize,
    available: usize,
) -> (r: Result<usize, SurfaceError>)
    requires
        block_dimensions.0 > 0,
        block_dimensions.1 > 0,
        block_dimensions.2 > 0,
    ensures
        r == spec_validate_length(width, height, depth, block_dimensions, block_size, available),
{
    let size: Option<usize> = mip_size(
        width as usize,
        height as usize,
        depth as usize,
        block_dimensions.0 as usize,
        block_dimensions.1 as usize,
        block_dimensions.2 as usize,
        block_size,
    );
    match size {
        None => Err(SurfaceError::PixelCountWouldOverflow { width, height, depth }),
        Some(expected) => {
            if available < expected {
                Err(SurfaceError::NotEnoughData { expected, actual: available })
            } else {
                Ok(expected)
            }
        },
    }
}

} // verus!
