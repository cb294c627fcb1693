//! Images of RGBA pixels, a byte to a channel, as the levels of a mip chain
//! need them: halved from the level above, or brought to whole blocks with
//! zeros. Pixels follow each other row by row and plane by plane.

use vstd::prelude::*;
use crate::mip::{div_round_up, lemma_div_round_up, spec_div_round_up};

verus! {

/// The number of the pixel at column `x`, row `y` and plane `z` of an image that
/// is `width` pixels wide and `height` pixels high.
pub open spec fn spec_pixel_index(width: int, height: int, x: int, y: int, z: int) -> int {
    (z * height + y) * width + x
}

/// The column of pixel number `pixel` in an image `width` pixels wide.
pub open spec fn spec_pixel_x(width: int, pixel: int) -> int {
    pixel % width
}

/// The row of pixel number `pixel` in an image of `width` x `height` pixels.
pub open spec fn spec_pixel_y(width: int, height: int, pixel: int) -> int {
    (pixel / width) % height
}

/// The plane of pixel number `pixel` in an image of `width` x `height` pixels.
pub open spec fn spec_pixel_z(width: int, height: int, pixel: int) -> int {
    (pixel / width) / height
}

/// A quotient and a remainder below the divisor give back both.
pub proof fn lemma_div_mod_unique(quotient: int, remainder: int, divisor: int)
    by (nonlinear_arith)
    requires
        0 <= remainder < divisor,
    ensures
        (quotient * divisor + remainder) / divisor == quotient,
        (quotient * divisor + remainder) % divisor == remainder,
{
}

/// A pixel's number gives back its column, its row and its plane.
pub proof fn lemma_pixel_position(width: int, height: int, x: int, y: int, z: int)
    requires
        0 <= x < width,
        0 <= y < height,
    ensures
        spec_pixel_x(width, spec_pixel_index(width, height, x, y, z)) == x,
        spec_pixel_y(width, height, spec_pixel_index(width, height, x, y, z)) == y,
        spec_pixel_z(width, height, spec_pixel_index(width, height, x, y, z)) == z,
{
    lemma_div_mod_unique(z * height + y, x, width);
    lemma_div_mod_unique(z, y, height);
}

/// The pixels inside an image are numbered below its number of pixels.
pub proof fn lemma_pixel_index_bounds(width: int, height: int, depth: int, x: int, y: int, z: int)
    requires
        0 <= x < width,
        0 <= y < height,
        0 <= z < depth,
    ensures
        0 <= spec_pixel_index(width, height, x, y, z) < width * height * depth,
        0 <= z * height + y < height * depth,
{
    assert(0 <= z * height <= (depth - 1) * height) by (nonlinear_arith)
        requires
            0 <= z <= depth - 1,
            0 < height,
    ;
    assert((depth - 1) * height + height == height * depth) by (nonlinear_arith);
    let row = z * height + y;
    assert(0 <= row * width <= (height * depth - 1) * width) by (nonlinear_arith)
        requires
            0 <= row <= height * depth - 1,
            0 < width,
    ;
    assert((height * depth - 1) * width + width == width * height * depth) by (nonlinear_arith);
}

/// Past the last pixel of a row comes the first of the next row, and past the
/// last row of a plane the first row of the next plane.
pub proof fn lemma_next_row(width: int, height: int, y: int, z: int)
    ensures
        spec_pixel_index(width, height, width, y, z) == spec_pixel_index(
            width,
            height,
            0,
            y + 1,
            z,
        ),
        spec_pixel_index(width, height, 0, height, z) == spec_pixel_index(
            width,
            height,
            0,
            0,
            z + 1,
        ),
        spec_pixel_index(width, height, 0, 0, 0) == 0,
        spec_pixel_index(width, height, 0, 0, z) == width * height * z,
{
    assert((z * height + y) * width + width == (z * height + (y + 1)) * width)
        by (nonlinear_arith);
    assert(z * height + height == (z + 1) * height) by (nonlinear_arith);
    assert((0 * height + 0) * width == 0) by (nonlinear_arith);
    assert((z * height + 0) * width == width * height * z) by (nonlinear_arith);
}

/// One channel of one pixel of the image above, and whether there is such a
/// pixel: the value and 1, or 0 and 0 for a position outside the image.
pub open spec fn spec_sample(
    width: int,
    height: int,
    depth: int,
    data: Seq<u8>,
    x: int,
    y: int,
    z: int,
    c: int,
) -> (int, int) {
    if x < width && y < height && z < depth {
        (data[spec_pixel_index(width, height, x, y, z) * 4 + c] as int, 1)
    } else {
        (0, 0)
    }
}

/// What is read of the image above lies inside it: a sample either counts no
/// pixel and is zero, or is the value at a place before the end of the image's
/// `width` x `height` x `depth` pixels.
pub proof fn lemma_sample_in_bounds(
    width: int,
    height: int,
    depth: int,
    data: Seq<u8>,
    x: int,
    y: int,
    z: int,
    c: int,
)
    requires
        0 <= x,
        0 <= y,
        0 <= z,
        0 <= c < 4,
    ensures
        spec_sample(width, height, depth, data, x, y, z, c).1 == 0 ==> spec_sample(
            width,
            height,
            depth,
            data,
            x,
            y,
            z,
            c,
        ).0 == 0,
        spec_sample(width, height, depth, data, x, y, z, c).1 != 0 ==> {
            &&& x < width && y < height && z < depth
            &&& 0 <= spec_pixel_index(width, height, x, y, z) * 4 + c < width * height * depth * 4
            &&& spec_sample(width, height, depth, data, x, y, z, c).0 == data[spec_pixel_index(
                width,
                height,
                x,
                y,
                z,
            ) * 4 + c]
        },
{
    if x < width && y < height && z < depth {
        lemma_pixel_index_bounds(width, height, depth, x, y, z);
    }
}

/// The sum of channel `c` over the pixels of the image above that the pixel at
/// `x`, `y`, `z` of the halved image covers, and the number of those pixels:
/// two in each direction, less where the image above ends.
pub open spec fn spec_box(
    width: int,
    height: int,
    depth: int,
    data: Seq<u8>,
    x: int,
    y: int,
    z: int,
    c: int,
) -> (int, int) {
    let s000 = spec_sample(width, height, depth, data, 2 * x, 2 * y, 2 * z, c);
    let s100 = spec_sample(width, height, depth, data, 2 * x + 1, 2 * y, 2 * z, c);
    let s010 = spec_sample(width, height, depth, data, 2 * x, 2 * y + 1, 2 * z, c);
    let s110 = spec_sample(width, height, depth, data, 2 * x + 1, 2 * y + 1, 2 * z, c);
    let s001 = spec_sample(width, height, depth, data, 2 * x, 2 * y, 2 * z + 1, c);
    let s101 = spec_sample(width, height, depth, data, 2 * x + 1, 2 * y, 2 * z + 1, c);
    let s011 = spec_sample(width, height, depth, data, 2 * x, 2 * y + 1, 2 * z + 1, c);
    let s111 = spec_sample(width, height, depth, data, 2 * x + 1, 2 * y + 1, 2 * z + 1, c);
    (
        s000.0 + s100.0 + s010.0 + s110.0 + s001.0 + s101.0 + s011.0 + s111.0,
        s000.1 + s100.1 + s010.1 + s110.1 + s001.1 + s101.1 + s011.1 + s111.1,
    )
}

/// Channel `c` of the pixel at `x`, `y`, `z` of the halved image: the mean,
/// rounded down, of the pixels that it covers, and zero where it covers none.
pub open spec fn spec_downsampled(
    width: int,
    height: int,
    depth: int,
    data: Seq<u8>,
    x: int,
    y: int,
    z: int,
    c: int,
) -> int {
    let (sum, count) = spec_box(width, height, depth, data, x, y, z, c);
    if count == 0 {
        0
    } else {
        sum / count
    }
}

/// Channel `c` of the pixel at `x`, `y`, `z` of an image that is filled up with
/// zeros: the value that `data` holds for that position of the image of
/// `width` x `height` x `depth` pixels, and zero for a position outside that
/// image or past the end of `data`.
pub open spec fn spec_copied(
    width: int,
    height: int,
    depth: int,
    data: Seq<u8>,
    x: int,
    y: int,
    z: int,
    c: int,
) -> int {
    if x < width && y < height && z < depth && spec_pixel_index(width, height, x, y, z) * 4 + c
        < data.len() {
        data[spec_pixel_index(width, height, x, y, z) * 4 + c] as int
    } else {
        0
    }
}

/// How the pixels of a new image are made from those of another.
#[derive(Debug, Clone, Copy, PartialEq, Eq, Structural)]
pub enum Resampling {
    /// Each pixel is the mean of the pixels that it covers in an image of twice
    /// the resolution.
    Halved,
    /// Each pixel is the pixel at the same position, or zero.
    Padded,
}

/// Channel `c` of the pixel at `x`, `y`, `z` of the new image.
pub open spec fn spec_channel(
    resampling: Resampling,
    width: int,
    height: int,
    depth: int,
    data: Seq<u8>,
    x: int,
    y: int,
    z: int,
    c: int,
) -> int {
    match resampling {
        Resampling::Halved => spec_downsampled(width, height, depth, data, x, y, z, c),
        Resampling::Padded => spec_copied(width, height, depth, data, x, y, z, c),
    }
}

/// The image of `new_width` x `new_height` x `new_depth` pixels that is made
/// from the image of `width` x `height` x `depth` pixels in `data`.
pub open spec fn spec_resampled(
    resampling: Resampling,
    new_width: int,
    new_height: int,
    new_depth: int,
    width: int,
    height: int,
    depth: int,
    data: Seq<u8>,
) -> Seq<u8> {
    Seq::new(
        (new_width * new_height * new_depth * 4) as nat,
        |i: int|
            spec_channel(
                resampling,
                width,
                height,
                depth,
                data,
                spec_pixel_x(new_width, i / 4),
                spec_pixel_y(new_width, new_height, i / 4),
                spec_pixel_z(new_width, new_height, i / 4),
                i % 4,
            ) as u8,
    )
}

/// The image of `new_width` x `new_height` x `new_depth` pixels that halves the
/// image of `width` x `height` x `depth` pixels at the head of `data`.
pub open spec fn spec_downsample_rgba8(
    new_width: int,
    new_height: int,
    new_depth: int,
    width: int,
    height: int,
    depth: int,
    data: Seq<u8>,
) -> Seq<u8> {
    spec_resampled(
        Resampling::Halved,
        new_width,
        new_height,
        new_depth,
        width,
        height,
        depth,
        data,
    )
}

/// The image of `new_width` x `new_height` x `new_depth` pixels that holds the
/// image of `width` x `height` x `depth` pixels in `data` and zeros around it.
pub open spec fn spec_pad_rgba8(
    new_width: int,
    new_height: int,
    new_depth: int,
    width: int,
    height: int,
    depth: int,
    data: Seq<u8>,
) -> Seq<u8> {
    spec_resampled(
        Resampling::Padded,
        new_width,
        new_height,
        new_depth,
        width,
        height,
        depth,
        data,
    )
}

/// The position `2 * base + offset` where it lies inside `extent`.
fn sample_position(base: usize, offset: usize, extent: usize) -> (position: Option<usize>)
    requires
        offset <= 1,
    ensures
        position == if 2 * base + offset < extent {
            Some((2 * base + offset) as usize)
        } else {
            None
        },
{
    if base >= extent {
        None
    } else if base + offset < extent - base {
        Some(2 * base + offset)
    } else {
        None
    }
}

/// One channel of the pixel at `2 * x + dx`, `2 * y + dy`, `2 * z + dz`, and 1,
/// or twice 0 where the image has no such pixel.
fn sample(
    width: usize,
    height: usize,
    depth: usize,
    data: &[u8],
    x: usize,
    dx: usize,
    y: usize,
    dy: usize,
    z: usize,
    dz: usize,
    c: usize,
) -> (s: (u32, u32))
    requires
        width * height * depth * 4 <= data@.len(),
        dx <= 1,
        dy <= 1,
        dz <= 1,
        c < 4,
    ensures
        (s.0 as int, s.1 as int) == spec_sample(
            width as int,
            height as int,
            depth as int,
            data@,
            2 * x + dx,
            2 * y + dy,
            2 * z + dz,
            c as int,
        ),
        s.0 <= 255 * s.1,
        s.1 <= 1,
{
    let len: usize = data.len();
    let sampled_x: usize = match sample_position(x, dx, width) {
        Some(position) => position,
        None => {
            return (0, 0);
        },
    };
    let sampled_y: usize = match sample_position(y, dy, height) {
        Some(position) => position,
        None => {
            return (0, 0);
        },
    };
    let sampled_z: usize = match sample_position(z, dz, depth) {
        Some(position) => position,
        None => {
            return (0, 0);
        },
    };
    proof {
        lemma_pixel_index_bounds(
            width as int,
            height as int,
            depth as int,
            sampled_x as int,
            sampled_y as int,
            sampled_z as int,
        );
        assert(sampled_z * height >= 0) by (nonlinear_arith)
            requires
                sampled_z >= 0,
                height >= 0,
        ;
        assert((sampled_z * height + sampled_y) * width >= 0) by (nonlinear_arith)
            requires
                sampled_z * height + sampled_y >= 0,
                width >= 0,
        ;
        assert(height * depth <= width * height * depth) by (nonlinear_arith)
            requires
                width >= 1,
                height >= 0,
                depth >= 0,
        ;
    }
    let index: usize = ((sampled_z * height + sampled_y) * width + sampled_x) * 4 + c;
    (data[index] as u32, 1)
}

/// Channel `c` of the pixel at `x`, `y`, `z` of the halved image.
fn halved(
    width: usize,
    height: usize,
    depth: usize,
    data: &[u8],
    x: usize,
    y: usize,
    z: usize,
    c: usize,
) -> (value: u8)
    requires
        width * height * depth * 4 <= data@.len(),
        c < 4,
    ensures
        value == spec_downsampled(
            width as int,
            height as int,
            depth as int,
            data@,
            x as int,
            y as int,
            z as int,
            c as int,
        ),
{
    let s000 = sample(width, height, depth, data, x, 0, y, 0, z, 0, c);
    let s100 = sample(width, height, depth, data, x, 1, y, 0, z, 0, c);
    let s010 = sample(width, height, depth, data, x, 0, y, 1, z, 0, c);
    let s110 = sample(width, height, depth, data, x, 1, y, 1, z, 0, c);
    let s001 = sample(width, height, depth, data, x, 0, y, 0, z, 1, c);
    let s101 = sample(width, height, depth, data, x, 1, y, 0, z, 1, c);
    let s011 = sample(width, height, depth, data, x, 0, y, 1, z, 1, c);
    let s111 = sample(width, height, depth, data, x, 1, y, 1, z, 1, c);
    let sum: u32 = s000.0 + s100.0 + s010.0 + s110.0 + s001.0 + s101.0 + s011.0 + s111.0;
    let count: u32 = s000.1 + s100.1 + s010.1 + s110.1 + s001.1 + s101.1 + s011.1 + s111.1;
    if count == 0 {
        0
    } else {
        proof {
            assert(sum / count <= 255) by (nonlinear_arith)
                requires
                    sum <= 255 * count,
                    count > 0,
            ;
        }
        (sum / count) as u8
    }
}

/// Channel `c` of the pixel at `x`, `y`, `z` of the image in `data`, or zero
/// where `data` holds no such value.
fn copied(
    width: usize,
    height: usize,
    depth: usize,
    data: &[u8],
    x: usize,
    y: usize,
    z: usize,
    c: usize,
) -> (value: u8)
    requires
        c < 4,
    ensures
        value == spec_copied(
            width as int,
            height as int,
            depth as int,
            data@,
            x as int,
            y as int,
            z as int,
            c as int,
        ),
{
    let len: usize = data.len();
    if x >= width || y >= height || z >= depth {
        return 0;
    }
    proof {
        let row = z * height + y;
        assert(0 <= z * height) by (nonlinear_arith)
            requires
                0 <= z,
                0 <= height,
        ;
        assert(z * height <= row * width) by (nonlinear_arith)
            requires
                0 <= z * height <= row,
                1 <= width,
        ;
        assert(row <= row * width) by (nonlinear_arith)
            requires
                0 <= row,
                1 <= width,
        ;
    }
    let planes: usize = match z.checked_mul(height) {
        Some(v) => v,
        None => {
            return 0;
        },
    };
    let row: usize = match planes.checked_add(y) {
        Some(v) => v,
        None => {
            return 0;
        },
    };
    let rows: usize = match row.checked_mul(width) {
        Some(v) => v,
        None => {
            return 0;
        },
    };
    let pixel: usize = match rows.checked_add(x) {
        Some(v) => v,
        None => {
            return 0;
        },
    };
    let channels: usize = match pixel.checked_mul(4) {
        Some(v) => v,
        None => {
            return 0;
        },
    };
    let index: usize = match channels.checked_add(c) {
        Some(v) => v,
        None => {
            return 0;
        },
    };
    if index < len {
        data[index]
    } else {
        0
    }
}

/// Makes the image of `new_width` x `new_height` x `new_depth` pixels, channel
/// by channel in the order in which it is stored.
fn resample(
    resampling: Resampling,
    new_width: usize,
    new_height: usize,
    new_depth: usize,
    width: usize,
    height: usize,
    depth: usize,
    data: &[u8],
) -> (new_data: Vec<u8>)
    requires
        resampling is Halved ==> width * height * depth * 4 <= data@.len(),
    ensures
        new_data@ == spec_resampled(
            resampling,
            new_width as int,
            new_height as int,
            new_depth as int,
            width as int,
            height as int,
            depth as int,
            data@,
        ),
{
    let mut new_data: Vec<u8> = Vec::new();
    let mut z: usize = 0;
    proof {
        lemma_next_row(new_width as int, new_height as int, 0, 0);
    }
    while z < new_depth
        invariant
            z <= new_depth,
            resampling is Halved ==> width * height * depth * 4 <= data@.len(),
            new_data@ == Seq::new(
                (spec_pixel_index(new_width as int, new_height as int, 0, 0, z as int) * 4) as nat,
                |i: int|
                    spec_channel(
                        resampling,
                        width as int,
                        height as int,
                        depth as int,
                        data@,
                        spec_pixel_x(new_width as int, i / 4),
                        spec_pixel_y(new_width as int, new_height as int, i / 4),
                        spec_pixel_z(new_width as int, new_height as int, i / 4),
                        i % 4,
                    ) as u8,
            ),
        decreases new_depth - z,
    {
        let mut y: usize = 0;
        while y < new_height
            invariant
                z < new_depth,
                y <= new_height,
                resampling is Halved ==> width * height * depth * 4 <= data@.len(),
                new_data@ == Seq::new(
                    (spec_pixel_index(new_width as int, new_height as int, 0, y as int, z as int)
                        * 4) as nat,
                    |i: int|
                        spec_channel(
                            resampling,
                            width as int,
                            height as int,
                            depth as int,
                            data@,
                            spec_pixel_x(new_width as int, i / 4),
                            spec_pixel_y(new_width as int, new_height as int, i / 4),
                            spec_pixel_z(new_width as int, new_height as int, i / 4),
                            i % 4,
                        ) as u8,
                ),
            decreases new_height - y,
        {
            let mut x: usize = 0;
            while x < new_width
                invariant
                    z < new_depth,
                    y < new_height,
                    x <= new_width,
                    resampling is Halved ==> width * height * depth * 4 <= data@.len(),
                    new_data@ == Seq::new(
                        (spec_pixel_index(
                            new_width as int,
                            new_height as int,
                            x as int,
                            y as int,
                            z as int,
                        ) * 4) as nat,
                        |i: int|
                            spec_channel(
                                resampling,
                                width as int,
                                height as int,
                                depth as int,
                                data@,
                                spec_pixel_x(new_width as int, i / 4),
                                spec_pixel_y(new_width as int, new_height as int, i / 4),
                                spec_pixel_z(new_width as int, new_height as int, i / 4),
                                i % 4,
                            ) as u8,
                    ),
                decreases new_width - x,
            {
                let ghost pixel = spec_pixel_index(
                    new_width as int,
                    new_height as int,
                    x as int,
                    y as int,
                    z as int,
                );
                proof {
                    lemma_pixel_position(
                        new_width as int,
                        new_height as int,
                        x as int,
                        y as int,
                        z as int,
                    );
                    lemma_pixel_index_bounds(
                        new_width as int,
                        new_height as int,
                        new_depth as int,
                        x as int,
                        y as int,
                        z as int,
                    );
                }
                let mut c: usize = 0;
                while c < 4
                    invariant
                        c <= 4,
                        0 <= pixel,
                        spec_pixel_x(new_width as int, pixel) == x,
                        spec_pixel_y(new_width as int, new_height as int, pixel) == y,
                        spec_pixel_z(new_width as int, new_height as int, pixel) == z,
                        resampling is Halved ==> width * height * depth * 4 <= data@.len(),
                        new_data@ == Seq::new(
                            (pixel * 4 + c) as nat,
                            |i: int|
                                spec_channel(
                                    resampling,
                                    width as int,
                                    height as int,
                                    depth as int,
                                    data@,
                                    spec_pixel_x(new_width as int, i / 4),
                                    spec_pixel_y(new_width as int, new_height as int, i / 4),
                                    spec_pixel_z(new_width as int, new_height as int, i / 4),
                                    i % 4,
                                ) as u8,
                        ),
                    decreases 4 - c,
                {
                    let value: u8 = match resampling {
                        Resampling::Halved => halved(width, height, depth, data, x, y, z, c),
                        Resampling::Padded => copied(width, height, depth, data, x, y, z, c),
                    };
                    proof {
                        assert((pixel * 4 + c) / 4 == pixel && (pixel * 4 + c) % 4 == c);
                    }
                    new_data.push(value);
                    c = c + 1;
                }
                x = x + 1;
            }
            proof {
                lemma_next_row(new_width as int, new_height as int, y as int, z as int);
            }
            y = y + 1;
        }
        proof {
            lemma_next_row(new_width as int, new_height as int, y as int, z as int);
        }
        z = z + 1;
    }
    proof {
        lemma_next_row(new_width as int, new_height as int, 0, new_depth as int);
    }
    new_data
}

/// Halves an image: each pixel of the new image is the mean, rounded down, of
/// the pixels of the image above that it covers, two in each direction. Where
/// the image above ends, only the pixels inside it count, and a pixel of the
/// new image that covers none is zero. So an image whose new dimensions are
/// more than half the old ones comes out filled up with zeros.
///
/// Read are only the `width` x `height` x `depth` pixels at the head of `data`.
pub fn downsample_rgba8(
    new_width: usize,
    new_height: usize,
    new_depth: usize,
    width: usize,
    height: usize,
    depth: usize,
    data: &[u8],
) -> (new_data: Vec<u8>)
    requires
        width * height * depth * 4 <= data@.len(),
    ensures
        new_data@ == spec_downsample_rgba8(
            new_width as int,
            new_height as int,
            new_depth as int,
            width as int,
            height as int,
            depth as int,
            data@,
        ),
{
    resample(Resampling::Halved, new_width, new_height, new_depth, width, height, depth, data)
}

/// Brings an image to `new_width` x `new_height` x `new_depth` pixels: each
/// pixel keeps its column, row and plane, and what `data` holds no pixel for is
/// zero. Nothing is read past the end of `data`, however short it is.
pub fn pad_rgba8(
    new_width: usize,
    new_height: usize,
    new_depth: usize,
    width: usize,
    height: usize,
    depth: usize,
    data: &[u8],
) -> (new_data: Vec<u8>)
    ensures
        new_data@ == spec_pad_rgba8(
            new_width as int,
            new_height as int,
            new_depth as int,
            width as int,
            height as int,
            depth as int,
            data@,
        ),
{
    resample(Resampling::Padded, new_width, new_height, new_depth, width, height, depth, data)
}

/// The number of the tile of 4x4 pixels that holds the pixel at `x`, `y`, `z`,
/// in an image `width` pixels wide and `height` pixels high. Tiles follow each
/// other row by row and plane by plane, and the last tile of a row or a plane
/// may reach beyond the image.
pub open spec fn spec_tile_index(width: int, height: int, x: int, y: int, z: int) -> int {
    spec_pixel_index(spec_div_round_up(width, 4), spec_div_round_up(height, 4), x / 4, y / 4, z)
}

/// Where channel `c` of the pixel at `x`, `y` stands in its tile, which holds
/// its pixels row by row with four values to a pixel.
pub open spec fn spec_index_in_tile(x: int, y: int, c: int) -> int {
    ((y % 4) * 4 + x % 4) * 4 + c
}

/// The image of `width` x `height` x `depth` pixels that the tiles make up:
/// each pixel is taken from its place in its tile, and what a tile holds beyond
/// the image is left out.
pub open spec fn spec_assembled<T>(tiles: Seq<Seq<T>>, width: int, height: int, depth: int) -> Seq<
    T,
> {
    Seq::new(
        (width * height * depth * 4) as nat,
        |i: int|
            tiles[spec_tile_index(
                width,
                height,
                spec_pixel_x(width, i / 4),
                spec_pixel_y(width, height, i / 4),
                spec_pixel_z(width, height, i / 4),
            )][spec_index_in_tile(
                spec_pixel_x(width, i / 4),
                spec_pixel_y(width, height, i / 4),
                i % 4,
            )],
    )
}

/// The tile of a pixel inside the image is one of the image's tiles.
pub proof fn lemma_tile_index_bounds(width: int, height: int, depth: int, x: int, y: int, z: int)
    requires
        0 <= x < width,
        0 <= y < height,
        0 <= z < depth,
    ensures
        0 <= spec_tile_index(width, height, x, y, z) < spec_div_round_up(width, 4)
            * spec_div_round_up(height, 4) * depth,
{
    lemma_div_round_up(width, 4);
    lemma_div_round_up(height, 4);
    lemma_pixel_index_bounds(
        spec_div_round_up(width, 4),
        spec_div_round_up(height, 4),
        depth,
        x / 4,
        y / 4,
        z,
    );
}

/// Makes an image of `width` x `height` x `depth` pixels from tiles of 4x4
/// pixels: each pixel is taken from its place in its tile, and what a tile
/// holds beyond the image is left out.
pub fn assemble<T: Copy>(tiles: &Vec<Vec<T>>, width: u32, height: u32, depth: u32) -> (image: Vec<
    T,
>)
    requires
        tiles@.len() == spec_div_round_up(width as int, 4) * spec_div_round_up(height as int, 4)
            * depth,
        forall|b: int| 0 <= b < tiles@.len() ==> (#[trigger] tiles@[b])@.len() == 64,
    ensures
        image@ == spec_assembled(
            Seq::new(tiles@.len(), |b: int| tiles@[b]@),
            width as int,
            height as int,
            depth as int,
        ),
{
    let ghost views = Seq::new(tiles@.len(), |b: int| tiles@[b]@);
    let columns: usize = div_round_up(width as usize, 4);
    let rows: usize = div_round_up(height as usize, 4);
    let count: usize = tiles.len();
    let mut image: Vec<T> = Vec::new();
    let mut z: u32 = 0;
    proof {
        lemma_next_row(width as int, height as int, 0, 0);
    }
    while z < depth
        invariant
            z <= depth,
            columns == spec_div_round_up(width as int, 4),
            rows == spec_div_round_up(height as int, 4),
            count == tiles@.len(),
            tiles@.len() == columns * rows * depth,
            forall|b: int| 0 <= b < tiles@.len() ==> (#[trigger] tiles@[b])@.len() == 64,
            views == Seq::new(tiles@.len(), |b: int| tiles@[b]@),
            image@ == Seq::new(
                (spec_pixel_index(width as int, height as int, 0, 0, z as int) * 4) as nat,
                |i: int|
                    views[spec_tile_index(
                        width as int,
                        height as int,
                        spec_pixel_x(width as int, i / 4),
                        spec_pixel_y(width as int, height as int, i / 4),
                        spec_pixel_z(width as int, height as int, i / 4),
                    )][spec_index_in_tile(
                        spec_pixel_x(width as int, i / 4),
                        spec_pixel_y(width as int, height as int, i / 4),
                        i % 4,
                    )],
            ),
        decreases depth - z,
    {
        let mut y: u32 = 0;
        while y < height
            invariant
                z < depth,
                y <= height,
                columns == spec_div_round_up(width as int, 4),
                rows == spec_div_round_up(height as int, 4),
                count == tiles@.len(),
                tiles@.len() == columns * rows * depth,
                forall|b: int| 0 <= b < tiles@.len() ==> (#[trigger] tiles@[b])@.len() == 64,
                views == Seq::new(tiles@.len(), |b: int| tiles@[b]@),
                image@ == Seq::new(
                    (spec_pixel_index(width as int, height as int, 0, y as int, z as int)
                        * 4) as nat,
                    |i: int|
                        views[spec_tile_index(
                            width as int,
                            height as int,
                            spec_pixel_x(width as int, i / 4),
                            spec_pixel_y(width as int, height as int, i / 4),
                            spec_pixel_z(width as int, height as int, i / 4),
                        )][spec_index_in_tile(
                            spec_pixel_x(width as int, i / 4),
                            spec_pixel_y(width as int, height as int, i / 4),
                            i % 4,
                        )],
                ),
            decreases height - y,
        {
            let mut x: u32 = 0;
            while x < width
                invariant
                    z < depth,
                    y < height,
                    x <= width,
                    columns == spec_div_round_up(width as int, 4),
                    rows == spec_div_round_up(height as int, 4),
                    count == tiles@.len(),
                    tiles@.len() == columns * rows * depth,
                    forall|b: int| 0 <= b < tiles@.len() ==> (#[trigger] tiles@[b])@.len() == 64,
                    views == Seq::new(tiles@.len(), |b: int| tiles@[b]@),
                    image@ == Seq::new(
                        (spec_pixel_index(
                            width as int,
                            height as int,
                            x as int,
                            y as int,
                            z as int,
                        ) * 4) as nat,
                        |i: int|
                            views[spec_tile_index(
                                width as int,
                                height as int,
                                spec_pixel_x(width as int, i / 4),
                                spec_pixel_y(width as int, height as int, i / 4),
                                spec_pixel_z(width as int, height as int, i / 4),
                            )][spec_index_in_tile(
                                spec_pixel_x(width as int, i / 4),
                                spec_pixel_y(width as int, height as int, i / 4),
                                i % 4,
                            )],
                    ),
                decreases width - x,
            {
                let ghost pixel = spec_pixel_index(
                    width as int,
                    height as int,
                    x as int,
                    y as int,
                    z as int,
                );
                proof {
                    lemma_pixel_position(width as int, height as int, x as int, y as int, z as int);
                    lemma_pixel_index_bounds(
                        width as int,
                        height as int,
                        depth as int,
                        x as int,
                        y as int,
                        z as int,
                    );
                    lemma_tile_index_bounds(
                        width as int,
                        height as int,
                        depth as int,
                        x as int,
                        y as int,
                        z as int,
                    );
                    lemma_pixel_index_bounds(
                        columns as int,
                        rows as int,
                        depth as int,
                        x as int / 4,
                        y as int / 4,
                        z as int,
                    );
                    assert(z * rows >= 0) by (nonlinear_arith)
                        requires
                            z >= 0,
                            rows >= 0,
                    ;
                    assert((z * rows + y / 4) * columns >= 0) by (nonlinear_arith)
                        requires
                            z * rows + y / 4 >= 0,
                            columns >= 0,
                    ;
                    assert(rows * depth <= columns * rows * depth) by (nonlinear_arith)
                        requires
                            columns >= 1,
                            rows >= 0,
                            depth >= 0,
                    ;
                }
                let tile_index: usize = (z as usize * rows + (y / 4) as usize) * columns + (x
                    / 4) as usize;
                let tile: &Vec<T> = &tiles[tile_index];
                let first: usize = (((y % 4) * 4 + x % 4) * 4) as usize;
                let mut c: usize = 0;
                while c < 4
                    invariant
                        c <= 4,
                        0 <= pixel,
                        spec_pixel_x(width as int, pixel) == x,
                        spec_pixel_y(width as int, height as int, pixel) == y,
                        spec_pixel_z(width as int, height as int, pixel) == z,
                        tile_index == spec_tile_index(
                            width as int,
                            height as int,
                            x as int,
                            y as int,
                            z as int,
                        ),
                        0 <= tile_index < tiles@.len(),
                        tile@ == views[tile_index as int],
                        tile@.len() == 64,
                        first == spec_index_in_tile(x as int, y as int, 0),
                        views == Seq::new(tiles@.len(), |b: int| tiles@[b]@),
                        image@ == Seq::new(
                            (pixel * 4 + c) as nat,
                            |i: int|
                                views[spec_tile_index(
                                    width as int,
                                    height as int,
                                    spec_pixel_x(width as int, i / 4),
                                    spec_pixel_y(width as int, height as int, i / 4),
                                    spec_pixel_z(width as int, height as int, i / 4),
                                )][spec_index_in_tile(
                                    spec_pixel_x(width as int, i / 4),
                                    spec_pixel_y(width as int, height as int, i / 4),
                                    i % 4,
                                )],
                        ),
                    decreases 4 - c,
                {
                    proof {
                        assert((pixel * 4 + c) / 4 == pixel && (pixel * 4 + c) % 4 == c);
                    }
                    image.push(tile[first + c]);
                    c = c + 1;
                }
                x = x + 1;
            }
            proof {
                lemma_next_row(width as int, height as int, y as int, z as int);
            }
            y = y + 1;
        }
        proof {
            lemma_next_row(width as int, height as int, y as int, z as int);
        }
        z = z + 1;
    }
    proof {
        lemma_next_row(width as int, height as int, 0, depth as int);
    }
    image
}

} // verus!
