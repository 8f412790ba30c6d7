//! The color half of a block: two 5:6:5 reference colors and sixteen 2-bit
//! palette indices.
use crate::tile::{
    lemma_channels_disjoint, lemma_texel_bounds, on_channel, texel, tile_fits, write_channel,
};
use vstd::prelude::*;

verus! {

/// The `i`-th little-endian 16-bit word of `b`.
pub open spec fn word16(b: Seq<u8>, i: int) -> int {
    b[2 * i] as int + 256 * b[2 * i + 1] as int
}

/// Channel `c` (0 red, 1 green, 2 blue) of a packed 5:6:5 color word.
pub open spec fn packed_channel(w: int, c: int) -> int {
    if c == 0 {
        w / 2048
    } else if c == 1 {
        (w / 32) % 64
    } else {
        w % 32
    }
}

/// A 5-bit (or, for `six`, 6-bit) channel widened to 8 bits, rounded to nearest.
pub open spec fn widen(x: int, six: bool) -> int {
    if six {
        (x * 259 + 33) / 64
    } else {
        (x * 527 + 23) / 64
    }
}

/// `s / 3` of a sum of three narrow channel values, widened to 8 bits.
pub open spec fn third_of(s: int, six: bool) -> int {
    if six {
        (s * 2763 + 1039) / 2048
    } else {
        (s * 351 + 61) / 128
    }
}

/// `s / 2` of a sum of two narrow channel values, widened to 8 bits.
pub open spec fn half_of(s: int, six: bool) -> int {
    if six {
        (s * 4145 + 1019) / 2048
    } else {
        (s * 1053 + 125) / 256
    }
}

/// Whether the block uses four opaque colors: always when `opaque` is forced,
/// otherwise when the first reference word is the greater.
pub open spec fn four_color_mode(w0: int, w1: int, opaque: bool) -> bool {
    opaque || w0 > w1
}

/// Channel `c` (0 red, 1 green, 2 blue, 3 alpha) of palette entry `idx` for the
/// reference words `w0` and `w1`.
pub open spec fn palette_value(w0: int, w1: int, opaque: bool, idx: int, c: int) -> int {
    if c == 3 {
        if idx == 3 && !four_color_mode(w0, w1, opaque) {
            0
        } else {
            255
        }
    } else {
        let six = c == 1;
        let x0 = packed_channel(w0, c);
        let x1 = packed_channel(w1, c);
        if idx == 0 {
            widen(x0, six)
        } else if idx == 1 {
            widen(x1, six)
        } else if four_color_mode(w0, w1, opaque) {
            if idx == 2 {
                third_of(2 * x0 + x1, six)
            } else {
                third_of(x0 + 2 * x1, six)
            }
        } else if idx == 2 {
            half_of(x0 + x1, six)
        } else {
            0
        }
    }
}

/// The palette index of pixel `k` (row-major) of a color block: two bits of
/// byte `4 + k / 4`, least significant first.
pub open spec fn color_index(b: Seq<u8>, k: int) -> int {
    ((b[4 + k / 4] >> ((2 * (k % 4)) as u8)) & 3u8) as int
}

/// Channel `c` of pixel `k` of the color block `b`.
pub open spec fn color_texel(b: Seq<u8>, opaque: bool, k: int, c: int) -> int {
    palette_value(word16(b, 0), word16(b, 1), opaque, color_index(b, k), c)
}

/// What decoding the color block `b` into a raster of pitch `pitch` leaves:
/// all four channels of every pixel written, every other byte as it was.
pub open spec fn color_block_written(
    b: Seq<u8>,
    opaque: bool,
    pitch: int,
    before: Seq<u8>,
    after: Seq<u8>,
) -> bool {
    &&& after.len() == before.len()
    &&& forall|row: int, col: int, c: int|
        0 <= row < 4 && 0 <= col < 4 && 0 <= c < 4 ==> after[texel(pitch, 4, c, row, col)] as int
            == color_texel(b, opaque, 4 * row + col, c)
    &&& forall|p: int|
        0 <= p < before.len() && (forall|c: int| 0 <= c < 4 ==> !on_channel(pitch, 4, c, p))
            ==> after[p] == before[p]
}

fn widen_channel(x: u32, six: bool) -> (r: u8)
    requires
        x < if six { 64u32 } else { 32u32 },
    ensures
        r as int == widen(x as int, six),
{
    if six {
        ((x * 259 + 33) / 64) as u8
    } else {
        ((x * 527 + 23) / 64) as u8
    }
}

/// The four palette entries of channel `c` for the reference words `w0`, `w1`.
fn channel_palette(w0: u16, w1: u16, opaque: bool, c: usize) -> (r: [u8; 4])
    requires
        c < 4,
    ensures
        forall|i: int| 0 <= i < 4 ==> r@[i] as int == palette_value(w0 as int, w1 as int, opaque, i, c as int),
{
    let four = opaque || w0 > w1;
    if c == 3 {
        return [255u8, 255u8, 255u8, if four { 255u8 } else { 0u8 }];
    }
    let six = c == 1;
    let (x0, x1) = if c == 0 {
        ((w0 / 2048) as u32, (w1 / 2048) as u32)
    } else if c == 1 {
        (((w0 / 32) % 64) as u32, ((w1 / 32) % 64) as u32)
    } else {
        ((w0 % 32) as u32, (w1 % 32) as u32)
    };
    let e0 = widen_channel(x0, six);
    let e1 = widen_channel(x1, six);
    if four {
        if six {
            [e0, e1, (((2 * x0 + x1) * 2763 + 1039) / 2048) as u8, (((x0 + 2 * x1) * 2763 + 1039) / 2048) as u8]
        } else {
            [e0, e1, (((2 * x0 + x1) * 351 + 61) / 128) as u8, (((x0 + 2 * x1) * 351 + 61) / 128) as u8]
        }
    } else if six {
        [e0, e1, (((x0 + x1) * 4145 + 1019) / 2048) as u8, 0u8]
    } else {
        [e0, e1, (((x0 + x1) * 1053 + 125) / 256) as u8, 0u8]
    }
}

/// Row-major palette indices of the 16 pixels of the color block `b`.
fn color_indices(b: &[u8]) -> (r: [u8; 16])
    requires
        b@.len() >= 8,
    ensures
        forall|k: int| 0 <= k < 16 ==> r@[k] as int == color_index(b@, k),
        forall|k: int| 0 <= k < 16 ==> r@[k] < 4,
{
    let mut r: [u8; 16] = [0u8; 16];
    let mut k: usize = 0;
    while k < 16
        invariant
            b@.len() >= 8,
            k <= 16,
            r@.len() == 16,
            forall|m: int| 0 <= m < k ==> r@[m] as int == color_index(b@, m) && r@[m] < 4,
        decreases 16 - k,
    {
        let byte = b[4 + k / 4];
        let shift = (2 * (k % 4)) as u8;
        let v = (byte >> shift) & 3u8;
        assert(v < 4) by (bit_vector)
            requires
                v == (byte >> shift) & 3u8,
        ;
        r[k] = v;
        k = k + 1;
    }
    r
}

/// Channel `c` of each of the 16 pixels, picked from the channel's palette.
fn channel_values(palette: &[u8; 4], indices: &[u8; 16]) -> (r: [u8; 16])
    requires
        forall|k: int| 0 <= k < 16 ==> indices@[k] < 4,
    ensures
        forall|k: int| 0 <= k < 16 ==> r@[k] == palette@[indices@[k] as int],
{
    let mut r: [u8; 16] = [0u8; 16];
    let mut k: usize = 0;
    while k < 16
        invariant
            k <= 16,
            r@.len() == 16,
            forall|m: int| 0 <= m < 16 ==> indices@[m] < 4,
            forall|m: int| 0 <= m < k ==> r@[m] == palette@[indices@[m] as int],
        decreases 16 - k,
    {
        r[k] = palette[indices[k] as usize];
        k = k + 1;
    }
    r
}

/// Decodes an 8-byte color block into the 4x4 RGBA tile at the start of
/// `decompressed_block`. With `OPAQUE_MODE` the four-color mode is used
/// whatever the order of the reference colors.
pub fn decode_color_block<const OPAQUE_MODE: bool>(
    compressed_block: &[u8],
    decompressed_block: &mut [u8],
    destination_pitch: usize,
)
    requires
        compressed_block@.len() >= 8,
        tile_fits(old(decompressed_block)@.len() as int, destination_pitch as int, 4, 3),
    ensures
        color_block_written(
            compressed_block@,
            OPAQUE_MODE,
            destination_pitch as int,
            old(decompressed_block)@,
            final(decompressed_block)@,
        ),
{
    let ghost b = compressed_block@;
    let ghost before = decompressed_block@;
    let ghost pitch = destination_pitch as int;
    let w0: u16 = compressed_block[0] as u16 + 256 * compressed_block[1] as u16;
    let w1: u16 = compressed_block[2] as u16 + 256 * compressed_block[3] as u16;
    let indices = color_indices(compressed_block);
    let mut c: usize = 0;
    while c < 4
        invariant
            b == compressed_block@,
            c <= 4,
            w0 as int == word16(b, 0),
            w1 as int == word16(b, 1),
            forall|k: int| 0 <= k < 16 ==> indices@[k] as int == color_index(b, k),
            forall|k: int| 0 <= k < 16 ==> indices@[k] < 4,
            pitch == destination_pitch as int,
            tile_fits(before.len() as int, pitch, 4, 3),
            decompressed_block@.len() == before.len(),
            forall|row: int, col: int, d: int|
                0 <= row < 4 && 0 <= col < 4 && 0 <= d < c ==> decompressed_block@[texel(pitch, 4, d, row, col)] as int
                    == color_texel(b, OPAQUE_MODE, 4 * row + col, d),
            forall|p: int|
                0 <= p < before.len() && (forall|d: int| 0 <= d < c ==> !on_channel(pitch, 4, d, p))
                    ==> decompressed_block@[p] == before[p],
        decreases 4 - c,
    {
        let palette = channel_palette(w0, w1, OPAQUE_MODE, c);
        let values = channel_values(&palette, &indices);
        write_channel(decompressed_block, destination_pitch, 4, c, &values);
        proof {
            assert forall|row: int, col: int, d: int|
                0 <= row < 4 && 0 <= col < 4 && 0 <= d <= c implies decompressed_block@[texel(pitch, 4, d, row, col)] as int
                    == color_texel(b, OPAQUE_MODE, 4 * row + col, d) by {
                if d < c {
                    if on_channel(pitch, 4, c as int, texel(pitch, 4, d, row, col)) {
                        assert(on_channel(pitch, 4, d, texel(pitch, 4, d, row, col)));
                        lemma_channels_disjoint(pitch, 4, d, c as int, texel(pitch, 4, d, row, col));
                    }
                    lemma_texel_bounds(pitch, 4, d, row, col);
                }
            }
        }
        c = c + 1;
    }
}

/// In four-color mode every decoded pixel is fully opaque.
pub proof fn lemma_four_color_mode_opaque(
    b: Seq<u8>,
    opaque: bool,
    pitch: int,
    before: Seq<u8>,
    after: Seq<u8>,
)
    requires
        b.len() >= 8,
        color_block_written(b, opaque, pitch, before, after),
        four_color_mode(word16(b, 0), word16(b, 1), opaque),
    ensures
        forall|row: int, col: int|
            0 <= row < 4 && 0 <= col < 4 ==> after[texel(pitch, 4, 3, row, col)] == 255,
{
    assert forall|row: int, col: int| 0 <= row < 4 && 0 <= col < 4 implies after[texel(
        pitch,
        4,
        3,
        row,
        col,
    )] == 255 by {
        assert(color_texel(b, opaque, 4 * row + col, 3) == 255);
    }
}

/// In three-color mode every pixel that selects palette entry 3 decodes to
/// transparent black: all four of its bytes are zero.
pub proof fn lemma_three_color_mode_transparent(
    b: Seq<u8>,
    opaque: bool,
    pitch: int,
    before: Seq<u8>,
    after: Seq<u8>,
)
    requires
        b.len() >= 8,
        color_block_written(b, opaque, pitch, before, after),
        !four_color_mode(word16(b, 0), word16(b, 1), opaque),
    ensures
        forall|row: int, col: int, c: int|
            0 <= row < 4 && 0 <= col < 4 && 0 <= c < 4 && color_index(b, 4 * row + col) == 3
                ==> after[texel(pitch, 4, c, row, col)] == 0,
{
    assert forall|row: int, col: int, c: int|
        0 <= row < 4 && 0 <= col < 4 && 0 <= c < 4 && color_index(b, 4 * row + col)
            == 3 implies after[texel(pitch, 4, c, row, col)] == 0 by {
        assert(color_texel(b, opaque, 4 * row + col, c) == 0);
    }
}

/// Decoding a color block is deterministic: from the same block and raster
/// there is exactly one result.
pub proof fn lemma_color_block_written_unique(
    b: Seq<u8>,
    opaque: bool,
    pitch: int,
    before: Seq<u8>,
    a1: Seq<u8>,
    a2: Seq<u8>,
)
    requires
        color_block_written(b, opaque, pitch, before, a1),
        color_block_written(b, opaque, pitch, before, a2),
    ensures
        a1 == a2,
{
    assert forall|p: int| 0 <= p < a1.len() implies a1[p] == a2[p] by {
        if exists|c: int| 0 <= c < 4 && on_channel(pitch, 4, c, p) {
            let c = choose|c: int| 0 <= c < 4 && on_channel(pitch, 4, c, p);
            let (row, col) = choose|row: int, col: int|
                0 <= row < 4 && 0 <= col < 4 && p == #[trigger] texel(pitch, 4, c, row, col);
            assert(a1[texel(pitch, 4, c, row, col)] as int == color_texel(b, opaque, 4 * row + col, c));
        }
    }
    assert(a1 =~= a2);
}

} // verus!
