//! Decoding surfaces of ETC blocks with a decoder of single blocks.

use vstd::prelude::*;
use crate::error::SurfaceError;
use crate::image::{assemble, spec_assembled};
use crate::mip::{lemma_div_round_up, spec_div_round_up, spec_validate_length, validate_length};

verus! {

/// A decoder of single ETC blocks to tiles of 4x4 pixels.
pub trait EtcDecode<Pixel> {
    /// Decodes a block to its tile. The rows follow each other from the top,
    /// and so do the pixels of a row from the left.
    fn decompress_block(block: &[u8; 8]) -> [[Pixel; 4]; 4];
}

/// Whether `flat` holds, row by row and with four values to a pixel, a tile
/// that the decoder `F` gives for the 8 bytes of `block`.
pub open spec fn spec_is_etc_tile<F: EtcDecode<[T; 4]>, T>(block: Seq<u8>, flat: Seq<T>) -> bool {
    exists|bytes: [u8; 8], tile: [[[T; 4]; 4]; 4]|
        bytes@ == block && #[trigger] call_ensures(F::decompress_block, (&bytes,), tile) && flat
            == Seq::new(64, |k: int| tile@[k / 16]@[(k / 4) % 4]@[k % 4])
}

/// Whether `pixels` are the pixels of the surface of `width` x `height` pixels
/// whose blocks stand at the head of `data`, tile after tile and row by row:
/// each pixel is taken from its place in its tile, and the tile of each block
/// is one that the decoder `F` gives for it.
pub open spec fn spec_is_decoded_etc<F: EtcDecode<[T; 4]>, T>(
    width: u32,
    height: u32,
    data: Seq<u8>,
    pixels: Seq<T>,
) -> bool {
    exists|tiles: Seq<Seq<T>>|
        {
            &&& tiles.len() == spec_div_round_up(width as int, 4) * spec_div_round_up(
                height as int,
                4,
            ) * 1
            &&& forall|b: int|
                0 <= b < tiles.len() ==> spec_is_etc_tile::<F, T>(
                    data.subrange(8 * b, 8 * b + 8),
                    #[trigger] tiles[b],
                )
            &&& pixels == spec_assembled(tiles, width as int, height as int, 1)
        }
}

/// The 64 values of a tile, row by row.
fn flat_tile<T: Copy>(tile: &[[[T; 4]; 4]; 4]) -> (flat: Vec<T>)
    ensures
        flat@ == Seq::new(64, |k: int| tile@[k / 16]@[(k / 4) % 4]@[k % 4]),
{
    let mut flat: Vec<T> = Vec::with_capacity(64);
    let mut k: usize = 0;
    while k < 64
        invariant
            k <= 64,
            flat@ == Seq::new(k as nat, |i: int| tile@[i / 16]@[(i / 4) % 4]@[i % 4]),
        decreases 64 - k,
    {
        flat.push(tile[k / 16][(k / 4) % 4][k % 4]);
        k = k + 1;
    }
    flat
}

/// Decodes the blocks in `data` to the pixels of a surface of `width` x
/// `height` pixels, with the values of type `T` that the decoder `F` gives: each
/// block is decoded to its tile, and the pixels of the tiles that lie inside
/// the surface are kept, row by row. The width and the height need not be
/// multiples of 4.
///
/// Answers `PixelCountWouldOverflow` where the size of the blocks does not fit
/// a `usize`, and `NotEnoughData` where `data` is shorter than that.
pub fn decode_etc<F, T>(width: u32, height: u32, data: &[u8]) -> (r: Result<
    Vec<T>,
    SurfaceError,
>) where T: Copy, F: EtcDecode<[T; 4]>
    ensures
        match r {
            Ok(pixels) => spec_validate_length(
                width,
                height,
                1,
                (4u32, 4u32, 1u32),
                8,
                data.len(),
            ) is Ok && spec_is_decoded_etc::<F, T>(width, height, data@, pixels@),
            Err(e) => spec_validate_length(width, height, 1, (4u32, 4u32, 1u32), 8, data.len())
                == Err::<usize, SurfaceError>(e),
        },
{
    let len: usize = data.len();
    let size: usize = match validate_length(width, height, 1, (4, 4, 1), 8, len) {
        Ok(size) => size,
        Err(e) => {
            return Err(e);
        },
    };
    let count: usize = size / 8;
    proof {
        lemma_div_round_up(width as int, 4);
        lemma_div_round_up(height as int, 4);
        lemma_div_round_up(1, 1);
    }
    let mut tiles: Vec<Vec<T>> = Vec::with_capacity(count);
    let mut b: usize = 0;
    while b < count
        invariant
            b <= count,
            count * 8 <= data@.len(),
            len == data@.len(),
            tiles@.len() == b,
            forall|k: int| 0 <= k < b ==> (#[trigger] tiles@[k])@.len() == 64,
            forall|k: int|
                0 <= k < b ==> spec_is_etc_tile::<F, T>(
                    data@.subrange(8 * k, 8 * k + 8),
                    (#[trigger] tiles@[k])@,
                ),
        decreases count - b,
    {
        let start: usize = b * 8;
        let block: [u8; 8] = [
            data[start],
            data[start + 1],
            data[start + 2],
            data[start + 3],
            data[start + 4],
            data[start + 5],
            data[start + 6],
            data[start + 7],
        ];
        proof {
            assert(block@ =~= data@.subrange(8 * b, 8 * b + 8));
        }
        let tile: [[[T; 4]; 4]; 4] = F::decompress_block(&block);
        let flat: Vec<T> = flat_tile(&tile);
        proof {
            assert(spec_is_etc_tile::<F, T>(data@.subrange(8 * b, 8 * b + 8), flat@));
        }
        tiles.push(flat);
        b = b + 1;
    }
    let image: Vec<T> = assemble(&tiles, width, height, 1);
    proof {
        let views = Seq::new(tiles@.len(), |k: int| tiles@[k]@);
        assert forall|k: int| 0 <= k < views.len() implies spec_is_etc_tile::<F, T>(
            data@.subrange(8 * k, 8 * k + 8),
            #[trigger] views[k],
        ) by {
            assert(views[k] == tiles@[k]@);
        }
    }
    Ok(image)
}

} // verus!
