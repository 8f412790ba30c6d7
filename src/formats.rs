//! The five block formats, each a fixed combination of the color and alpha
//! decoders over the halves of its block.
use crate::alpha::{
    decode_sharp_alpha_block, decode_smooth_alpha_block, decode_smooth_alpha_channel,
    sharp_values, smooth_values,
};
use crate::color::{color_block_written, color_texel, decode_color_block};
use crate::tile::{channel_written, lemma_channels_disjoint, lemma_texel_bounds, on_channel, texel, tile_fits};
use vstd::prelude::*;

verus! {

/// What decoding an RGBA block leaves: the color channels of every pixel from
/// the color block `color` (four-color mode forced), its alpha byte from
/// `alpha` (row-major), every other byte as it was.
pub open spec fn rgba_block_written(
    color: Seq<u8>,
    alpha: Seq<u8>,
    pitch: int,
    before: Seq<u8>,
    after: Seq<u8>,
) -> bool {
    &&& after.len() == before.len()
    &&& forall|row: int, col: int, c: int|
        0 <= row < 4 && 0 <= col < 4 && 0 <= c < 3 ==> after[texel(pitch, 4, c, row, col)] as int
            == color_texel(color, true, 4 * row + col, c)
    &&& forall|row: int, col: int|
        0 <= row < 4 && 0 <= col < 4 ==> after[texel(pitch, 4, 3, row, col)] == alpha[4 * row
            + col]
    &&& forall|p: int|
        0 <= p < before.len() && (forall|c: int| 0 <= c < 4 ==> !on_channel(pitch, 4, c, p))
            ==> after[p] == before[p]
}

/// What decoding a two-channel block leaves: the first byte of every 2-byte
/// pixel from the first half of `b`, the second byte from the second half,
/// every other byte as it was.
pub open spec fn two_channel_block_written(
    b: Seq<u8>,
    pitch: int,
    before: Seq<u8>,
    after: Seq<u8>,
) -> bool {
    &&& after.len() == before.len()
    &&& forall|row: int, col: int|
        0 <= row < 4 && 0 <= col < 4 ==> after[texel(pitch, 2, 0, row, col)] == smooth_values(
            b,
        )[4 * row + col]
    &&& forall|row: int, col: int|
        0 <= row < 4 && 0 <= col < 4 ==> after[texel(pitch, 2, 1, row, col)] == smooth_values(
            b.subrange(8, 16),
        )[4 * row + col]
    &&& forall|p: int|
        0 <= p < before.len() && !on_channel(pitch, 2, 0, p) && !on_channel(pitch, 2, 1, p)
            ==> after[p] == before[p]
}

/// An alpha channel written over a decoded color block gives the RGBA block.
proof fn lemma_alpha_over_color(
    color: Seq<u8>,
    alpha: Seq<u8>,
    pitch: int,
    before: Seq<u8>,
    mid: Seq<u8>,
    after: Seq<u8>,
)
    requires
        tile_fits(before.len() as int, pitch, 4, 3),
        color_block_written(color, true, pitch, before, mid),
        channel_written(mid, after, pitch, 4, 3, alpha),
    ensures
        rgba_block_written(color, alpha, pitch, before, after),
{
    assert forall|row: int, col: int, c: int|
        0 <= row < 4 && 0 <= col < 4 && 0 <= c < 3 implies after[texel(pitch, 4, c, row, col)] as int
            == color_texel(color, true, 4 * row + col, c) by {
        let p = texel(pitch, 4, c, row, col);
        lemma_texel_bounds(pitch, 4, c, row, col);
        if on_channel(pitch, 4, 3, p) {
            assert(on_channel(pitch, 4, c, p));
            lemma_channels_disjoint(pitch, 4, c, 3, p);
        }
    }
}

/// Decoding an RGBA block is deterministic: from the same block and raster
/// there is exactly one result.
pub proof fn lemma_rgba_block_written_unique(
    color: Seq<u8>,
    alpha: Seq<u8>,
    pitch: int,
    before: Seq<u8>,
    a1: Seq<u8>,
    a2: Seq<u8>,
)
    requires
        rgba_block_written(color, alpha, pitch, before, a1),
        rgba_block_written(color, alpha, pitch, before, a2),
    ensures
        a1 == a2,
{
    assert forall|p: int| 0 <= p < a1.len() implies a1[p] == a2[p] by {
        if exists|c: int| 0 <= c < 4 && on_channel(pitch, 4, c, p) {
            let c = choose|c: int| 0 <= c < 4 && on_channel(pitch, 4, c, p);
            let (row, col) = choose|row: int, col: int|
                0 <= row < 4 && 0 <= col < 4 && p == #[trigger] texel(pitch, 4, c, row, col);
            if c < 3 {
                assert(a1[texel(pitch, 4, c, row, col)] as int == color_texel(color, true, 4 * row + col, c));
            } else {
                assert(a1[texel(pitch, 4, 3, row, col)] == alpha[4 * row + col]);
            }
        }
    }
    assert(a1 =~= a2);
}

/// Decoding a two-channel block is deterministic: from the same block and
/// raster there is exactly one result.
pub proof fn lemma_two_channel_block_written_unique(
    b: Seq<u8>,
    pitch: int,
    before: Seq<u8>,
    a1: Seq<u8>,
    a2: Seq<u8>,
)
    requires
        two_channel_block_written(b, pitch, before, a1),
        two_channel_block_written(b, pitch, before, a2),
    ensures
        a1 == a2,
{
    assert forall|p: int| 0 <= p < a1.len() implies a1[p] == a2[p] by {
        if on_channel(pitch, 2, 0, p) {
            let (row, col) = choose|row: int, col: int|
                0 <= row < 4 && 0 <= col < 4 && p == #[trigger] texel(pitch, 2, 0, row, col);
            assert(a1[texel(pitch, 2, 0, row, col)] == smooth_values(b)[4 * row + col]);
        } else if on_channel(pitch, 2, 1, p) {
            let (row, col) = choose|row: int, col: int|
                0 <= row < 4 && 0 <= col < 4 && p == #[trigger] texel(pitch, 2, 1, row, col);
            assert(a1[texel(pitch, 2, 1, row, col)] == smooth_values(b.subrange(8, 16))[4 * row + col]);
        }
    }
    assert(a1 =~= a2);
}

/// Decodes a 3-channel color block (8 bytes, four-color opaque mode forced)
/// into the 4x4 RGBA tile at the start of `decompressed_block`.
pub fn decode_block_bc1(
    compressed_block: &[u8],
    decompressed_block: &mut [u8],
    destination_pitch: usize,
)
    requires
        compressed_block@.len() >= 8,
        tile_fits(old(decompressed_block)@.len() as int, destination_pitch as int, 4, 3),
    ensures
        color_block_written(
            compressed_block@,
            true,
            destination_pitch as int,
            old(decompressed_block)@,
            final(decompressed_block)@,
        ),
{
    decode_color_block::<true>(compressed_block, decompressed_block, destination_pitch);
}

/// Decodes a 16-byte block of explicit 4-bit alpha (first half) and opaque
/// color (second half) into the 4x4 RGBA tile at the start of
/// `decompressed_block`.
pub fn decode_block_bc2(
    compressed_block: &[u8],
    decompressed_block: &mut [u8],
    destination_pitch: usize,
)
    requires
        compressed_block@.len() >= 16,
        tile_fits(old(decompressed_block)@.len() as int, destination_pitch as int, 4, 3),
    ensures
        rgba_block_written(
            compressed_block@.subrange(8, 16),
            sharp_values(compressed_block@),
            destination_pitch as int,
            old(decompressed_block)@,
            final(decompressed_block)@,
        ),
{
    let ghost before = decompressed_block@;
    decode_color_block::<true>(&compressed_block[8..16], decompressed_block, destination_pitch);
    let ghost mid = decompressed_block@;
    decode_sharp_alpha_block(compressed_block, decompressed_block, destination_pitch);
    proof {
        lemma_alpha_over_color(
            compressed_block@.subrange(8, 16),
            sharp_values(compressed_block@),
            destination_pitch as int,
            before,
            mid,
            decompressed_block@,
        );
    }
}

/// Decodes a 16-byte block of interpolated alpha (first half) and opaque
/// color (second half) into the 4x4 RGBA tile at the start of
/// `decompressed_block`.
pub fn decode_block_bc3(
    compressed_block: &[u8],
    decompressed_block: &mut [u8],
    destination_pitch: usize,
)
    requires
        compressed_block@.len() >= 16,
        tile_fits(old(decompressed_block)@.len() as int, destination_pitch as int, 4, 3),
    ensures
        rgba_block_written(
            compressed_block@.subrange(8, 16),
            smooth_values(compressed_block@),
            destination_pitch as int,
            old(decompressed_block)@,
            final(decompressed_block)@,
        ),
{
    let ghost before = decompressed_block@;
    decode_color_block::<true>(&compressed_block[8..16], decompressed_block, destination_pitch);
    let ghost mid = decompressed_block@;
    decode_smooth_alpha_channel(compressed_block, decompressed_block, destination_pitch, 4, 3);
    proof {
        lemma_alpha_over_color(
            compressed_block@.subrange(8, 16),
            smooth_values(compressed_block@),
            destination_pitch as int,
            before,
            mid,
            decompressed_block@,
        );
    }
}

/// Decodes an 8-byte single-channel interpolated block into the 4x4 tile of
/// one byte per pixel at the start of `decompressed_block`.
pub fn decode_block_bc4(
    compressed_block: &[u8],
    decompressed_block: &mut [u8],
    destination_pitch: usize,
)
    requires
        compressed_block@.len() >= 8,
        tile_fits(old(decompressed_block)@.len() as int, destination_pitch as int, 1, 0),
    ensures
        channel_written(
            old(decompressed_block)@,
            final(decompressed_block)@,
            destination_pitch as int,
            1,
            0,
            smooth_values(compressed_block@),
        ),
{
    decode_smooth_alpha_block::<1>(compressed_block, decompressed_block, destination_pitch);
}

/// Decodes a 16-byte two-channel block (one interpolated block per channel)
/// into the 4x4 tile of two bytes per pixel at the start of
/// `decompressed_block`.
pub fn decode_block_bc5(
    compressed_block: &[u8],
    decompressed_block: &mut [u8],
    destination_pitch: usize,
)
    requires
        compressed_block@.len() >= 16,
        tile_fits(old(decompressed_block)@.len() as int, destination_pitch as int, 2, 1),
    ensures
        two_channel_block_written(
            compressed_block@,
            destination_pitch as int,
            old(decompressed_block)@,
            final(decompressed_block)@,
        ),
{
    let ghost before = decompressed_block@;
    let ghost pitch = destination_pitch as int;
    decode_smooth_alpha_channel(compressed_block, decompressed_block, destination_pitch, 2, 0);
    decode_smooth_alpha_channel(
        &compressed_block[8..16],
        decompressed_block,
        destination_pitch,
        2,
        1,
    );
    proof {
        let after = decompressed_block@;
        assert forall|row: int, col: int| 0 <= row < 4 && 0 <= col < 4 implies after[texel(
            pitch,
            2,
            0,
            row,
            col,
        )] == smooth_values(compressed_block@)[4 * row + col] by {
            let p = texel(pitch, 2, 0, row, col);
            lemma_texel_bounds(pitch, 2, 0, row, col);
            if on_channel(pitch, 2, 1, p) {
                assert(on_channel(pitch, 2, 0, p));
                lemma_channels_disjoint(pitch, 2, 0, 1, p);
            }
        }
    }
}

} // verus!
