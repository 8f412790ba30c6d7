//! Alpha and single-channel blocks: explicit 4-bit samples, and interpolated
//! ramps between two 8-bit endpoints.
use crate::color::word16;
use crate::tile::{channel_written, texel, tile_fits, write_channel};
use vstd::arithmetic::div_mod::lemma_div_is_ordered;
use vstd::prelude::*;

verus! {

/// The 4-bit sample of pixel `k` (row-major) of an explicit-alpha block: word
/// `k / 4`, low nibble first.
pub open spec fn sharp_sample(b: Seq<u8>, k: int) -> int {
    ((word16(b, k / 4) as u16 >> ((4 * (k % 4)) as u16)) & 15u16) as int
}

/// The alpha bytes of an explicit-alpha block, each sample scaled by 17.
pub open spec fn sharp_values(b: Seq<u8>) -> Seq<u8> {
    Seq::new(16, |k: int| (sharp_sample(b, k) * 17) as u8)
}

/// The first 8 bytes of `b` read as one little-endian 64-bit word.
pub open spec fn block_word(b: Seq<u8>) -> u64 {
    (b[0] as int + b[1] as int * 0x100 + b[2] as int * 0x1_0000 + b[3] as int * 0x100_0000
        + b[4] as int * 0x1_0000_0000 + b[5] as int * 0x100_0000_0000 + b[6] as int
        * 0x1_0000_0000_0000 + b[7] as int * 0x100_0000_0000_0000) as u64
}

/// The 3-bit ramp index of pixel `k` (row-major): bits `16 + 3k ..` of the
/// block word.
pub open spec fn ramp_index(b: Seq<u8>, k: int) -> int {
    ((block_word(b) >> ((16 + 3 * k) as u64)) & 7u64) as int
}

/// Entry `idx` of the ramp between endpoints `e0` and `e1`: six interpolated
/// steps when `e0 > e1`, otherwise four steps followed by 0 and 255. Each
/// interpolation divides with truncation.
pub open spec fn ramp(e0: int, e1: int, idx: int) -> int {
    if idx == 0 {
        e0
    } else if idx == 1 {
        e1
    } else if e0 > e1 {
        ((8 - idx) * e0 + (idx - 1) * e1) / 7
    } else if idx <= 5 {
        ((6 - idx) * e0 + (idx - 1) * e1) / 5
    } else if idx == 6 {
        0
    } else {
        255
    }
}

/// The bytes an interpolated block decodes to, row-major.
pub open spec fn smooth_values(b: Seq<u8>) -> Seq<u8> {
    Seq::new(16, |k: int| ramp(b[0] as int, b[1] as int, ramp_index(b, k)) as u8)
}

/// Decodes an 8-byte explicit-alpha block into the alpha byte (offset 3) of
/// each pixel of the 4x4 RGBA tile at the start of `decompressed_block`.
pub fn decode_sharp_alpha_block(
    compressed_block: &[u8],
    decompressed_block: &mut [u8],
    destination_pitch: usize,
)
    requires
        compressed_block@.len() >= 8,
        tile_fits(old(decompressed_block)@.len() as int, destination_pitch as int, 4, 3),
    ensures
        channel_written(
            old(decompressed_block)@,
            final(decompressed_block)@,
            destination_pitch as int,
            4,
            3,
            sharp_values(compressed_block@),
        ),
{
    let mut values: [u8; 16] = [0u8; 16];
    let mut k: usize = 0;
    while k < 16
        invariant
            compressed_block@.len() >= 8,
            k <= 16,
            values@.len() == 16,
            forall|m: int| 0 <= m < k ==> values@[m] == sharp_values(compressed_block@)[m],
        decreases 16 - k,
    {
        let i = k / 4;
        let word: u16 = compressed_block[2 * i] as u16 + 256 * compressed_block[2 * i + 1] as u16;
        let shift = (4 * (k % 4)) as u16;
        let sample = (word >> shift) & 15u16;
        assert(sample < 16) by (bit_vector)
            requires
                sample == (word >> shift) & 15u16,
        ;
        values[k] = (sample as u8) * 17;
        k = k + 1;
    }
    assert(values@ =~= sharp_values(compressed_block@));
    write_channel(decompressed_block, destination_pitch, 4, 3, &values);
}

/// The eight ramp entries between endpoints `e0` and `e1`.
fn ramp_palette(e0: u8, e1: u8) -> (r: [u8; 8])
    ensures
        forall|i: int| 0 <= i < 8 ==> r@[i] as int == ramp(e0 as int, e1 as int, i),
{
    let a = e0 as u16;
    let c = e1 as u16;
    let mut r: [u8; 8] = [0u8; 8];
    r[0] = e0;
    r[1] = e1;
    if e0 > e1 {
        r[2] = ((6 * a + c) / 7) as u8;
        r[3] = ((5 * a + 2 * c) / 7) as u8;
        r[4] = ((4 * a + 3 * c) / 7) as u8;
        r[5] = ((3 * a + 4 * c) / 7) as u8;
        r[6] = ((2 * a + 5 * c) / 7) as u8;
        r[7] = ((a + 6 * c) / 7) as u8;
    } else {
        r[2] = ((4 * a + c) / 5) as u8;
        r[3] = ((3 * a + 2 * c) / 5) as u8;
        r[4] = ((2 * a + 3 * c) / 5) as u8;
        r[5] = ((a + 4 * c) / 5) as u8;
        r[6] = 0u8;
        r[7] = 255u8;
    }
    let ghost (x, y) = (e0 as int, e1 as int);
    assert(r@[2] as int == ramp(x, y, 2));
    assert(r@[3] as int == ramp(x, y, 3));
    assert(r@[4] as int == ramp(x, y, 4));
    assert(r@[5] as int == ramp(x, y, 5));
    assert(r@[6] as int == ramp(x, y, 6));
    assert(r@[7] as int == ramp(x, y, 7));
    assert forall|i: int| 0 <= i < 8 implies r@[i] as int == ramp(x, y, i) by {
        if i == 0 {
        } else if i == 1 {
        } else if i == 2 {
        } else if i == 3 {
        } else if i == 4 {
        } else if i == 5 {
        } else if i == 6 {
        }
    }
    r
}

/// Decodes an 8-byte interpolated block into channel `channel` of a tile whose
/// pixels are `stride` bytes apart.
pub(crate) fn decode_smooth_alpha_channel(
    compressed_block: &[u8],
    decompressed_block: &mut [u8],
    destination_pitch: usize,
    stride: usize,
    channel: usize,
)
    requires
        compressed_block@.len() >= 8,
        tile_fits(
            old(decompressed_block)@.len() as int,
            destination_pitch as int,
            stride as int,
            channel as int,
        ),
    ensures
        channel_written(
            old(decompressed_block)@,
            final(decompressed_block)@,
            destination_pitch as int,
            stride as int,
            channel as int,
            smooth_values(compressed_block@),
        ),
{
    let b = compressed_block;
    let block: u64 = b[0] as u64 + b[1] as u64 * 0x100 + b[2] as u64 * 0x1_0000 + b[3] as u64
        * 0x100_0000 + b[4] as u64 * 0x1_0000_0000 + b[5] as u64 * 0x100_0000_0000 + b[6] as u64
        * 0x1_0000_0000_0000 + b[7] as u64 * 0x100_0000_0000_0000;
    assert(block == block_word(b@));
    let palette = ramp_palette(b[0], b[1]);
    let mut values: [u8; 16] = [0u8; 16];
    let mut k: usize = 0;
    while k < 16
        invariant
            b@.len() >= 8,
            block == block_word(b@),
            forall|i: int| 0 <= i < 8 ==> palette@[i] as int == ramp(b@[0] as int, b@[1] as int, i),
            k <= 16,
            values@.len() == 16,
            forall|m: int| 0 <= m < k ==> values@[m] == smooth_values(b@)[m],
        decreases 16 - k,
    {
        let shift = (16 + 3 * k) as u64;
        let idx = (block >> shift) & 7u64;
        assert(idx < 8) by (bit_vector)
            requires
                idx == (block >> shift) & 7u64,
        ;
        values[k] = palette[idx as usize];
        k = k + 1;
    }
    assert(values@ =~= smooth_values(b@));
    write_channel(decompressed_block, destination_pitch, stride, channel, &values);
}

/// Decodes an 8-byte interpolated block into the first byte of each pixel of
/// a tile whose pixels are `PIXEL_SIZE` bytes apart.
pub fn decode_smooth_alpha_block<const PIXEL_SIZE: usize>(
    compressed_block: &[u8],
    decompressed_block: &mut [u8],
    destination_pitch: usize,
)
    requires
        compressed_block@.len() >= 8,
        tile_fits(
            old(decompressed_block)@.len() as int,
            destination_pitch as int,
            PIXEL_SIZE as int,
            0,
        ),
    ensures
        channel_written(
            old(decompressed_block)@,
            final(decompressed_block)@,
            destination_pitch as int,
            PIXEL_SIZE as int,
            0,
            smooth_values(compressed_block@),
        ),
{
    decode_smooth_alpha_channel(compressed_block, decompressed_block, destination_pitch, PIXEL_SIZE, 0);
}

/// The ramp's shape: with `e0 > e1` its six interpolated entries never
/// increase from entry 2 to entry 7; otherwise entry 6 is 0 and entry 7 is
/// 255.
pub proof fn lemma_ramp_shape(e0: u8, e1: u8)
    ensures
        e0 > e1 ==> {
            let (x, y) = (e0 as int, e1 as int);
            &&& ramp(x, y, 2) >= ramp(x, y, 3)
            &&& ramp(x, y, 3) >= ramp(x, y, 4)
            &&& ramp(x, y, 4) >= ramp(x, y, 5)
            &&& ramp(x, y, 5) >= ramp(x, y, 6)
            &&& ramp(x, y, 6) >= ramp(x, y, 7)
        },
        e0 <= e1 ==> ramp(e0 as int, e1 as int, 6) == 0 && ramp(e0 as int, e1 as int, 7) == 255,
{
    let (x, y) = (e0 as int, e1 as int);
    if x > y {
        lemma_div_is_ordered(5 * x + 2 * y, 6 * x + y, 7);
        lemma_div_is_ordered(4 * x + 3 * y, 5 * x + 2 * y, 7);
        lemma_div_is_ordered(3 * x + 4 * y, 4 * x + 3 * y, 7);
        lemma_div_is_ordered(2 * x + 5 * y, 3 * x + 4 * y, 7);
        lemma_div_is_ordered(x + 6 * y, 2 * x + 5 * y, 7);
    }
}

/// Three bits taken from a word are below 8.
proof fn lemma_three_bits(w: u64, shift: u64)
    ensures
        (w >> shift) & 7u64 < 8,
{
    assert((w >> shift) & 7u64 < 8) by (bit_vector);
}

/// Every ramp entry fits in a byte.
pub proof fn lemma_ramp_in_byte(e0: u8, e1: u8, idx: int)
    requires
        0 <= idx < 8,
    ensures
        0 <= ramp(e0 as int, e1 as int, idx) <= 255,
{
    let (x, y) = (e0 as int, e1 as int);
    if 2 <= idx && x > y {
        assert(0 <= ((8 - idx) * x + (idx - 1) * y) / 7 <= 255) by (nonlinear_arith)
            requires
                2 <= idx < 8,
                0 <= x < 256,
                0 <= y < 256,
        ;
    } else if 2 <= idx <= 5 {
        assert(0 <= ((6 - idx) * x + (idx - 1) * y) / 5 <= 255) by (nonlinear_arith)
            requires
                2 <= idx <= 5,
                0 <= x < 256,
                0 <= y < 256,
        ;
    }
}

/// The ramp's shape, seen in a decoded tile: with `b[0] > b[1]` a pixel on a
/// later interpolated entry (2 to 7) never holds a greater value than one on
/// an earlier entry; otherwise pixels on entry 6 hold 0 and pixels on entry 7
/// hold 255.
pub proof fn lemma_decoded_ramp_shape(
    b: Seq<u8>,
    pitch: int,
    stride: int,
    channel: int,
    before: Seq<u8>,
    after: Seq<u8>,
)
    requires
        b.len() >= 8,
        channel_written(before, after, pitch, stride, channel, smooth_values(b)),
    ensures
        b[0] > b[1] ==> forall|r1: int, c1: int, r2: int, c2: int|
            0 <= r1 < 4 && 0 <= c1 < 4 && 0 <= r2 < 4 && 0 <= c2 < 4 && 2 <= ramp_index(
                b,
                4 * r1 + c1,
            ) <= ramp_index(b, 4 * r2 + c2) ==> after[texel(pitch, stride, channel, r1, c1)]
                >= after[texel(pitch, stride, channel, r2, c2)],
        b[0] <= b[1] ==> forall|r: int, c: int|
            0 <= r < 4 && 0 <= c < 4 ==> (ramp_index(b, 4 * r + c) == 6 ==> after[texel(
                pitch,
                stride,
                channel,
                r,
                c,
            )] == 0) && (ramp_index(b, 4 * r + c) == 7 ==> after[texel(
                pitch,
                stride,
                channel,
                r,
                c,
            )] == 255),
{
    let (x, y) = (b[0] as int, b[1] as int);
    lemma_ramp_shape(b[0], b[1]);
    if x > y {
        assert forall|r1: int, c1: int, r2: int, c2: int|
            0 <= r1 < 4 && 0 <= c1 < 4 && 0 <= r2 < 4 && 0 <= c2 < 4 && 2 <= ramp_index(
                b,
                4 * r1 + c1,
            ) <= ramp_index(b, 4 * r2 + c2) implies after[texel(pitch, stride, channel, r1, c1)]
            >= after[texel(pitch, stride, channel, r2, c2)] by {
            let i = ramp_index(b, 4 * r1 + c1);
            let j = ramp_index(b, 4 * r2 + c2);
            lemma_three_bits(block_word(b), (16 + 3 * (4 * r2 + c2)) as u64);
            assert(i == 2 || i == 3 || i == 4 || i == 5 || i == 6 || i == 7);
            assert(j == 2 || j == 3 || j == 4 || j == 5 || j == 6 || j == 7);
            assert(ramp(x, y, i) >= ramp(x, y, j));
            lemma_ramp_in_byte(b[0], b[1], i);
            lemma_ramp_in_byte(b[0], b[1], j);
            assert(smooth_values(b)[4 * r1 + c1] as int == ramp(x, y, i));
            assert(smooth_values(b)[4 * r2 + c2] as int == ramp(x, y, j));
        }
    } else {
        assert forall|r: int, c: int| 0 <= r < 4 && 0 <= c < 4 implies (ramp_index(b, 4 * r + c)
            == 6 ==> after[texel(pitch, stride, channel, r, c)] == 0) && (ramp_index(b, 4 * r + c)
            == 7 ==> after[texel(pitch, stride, channel, r, c)] == 255) by {
            assert(smooth_values(b)[4 * r + c] == ramp(x, y, ramp_index(b, 4 * r + c)) as u8);
        }
    }
}

} // verus!
