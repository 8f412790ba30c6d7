//! Geometry of a 4x4 tile inside a caller-owned raster, and the one routine
//! that writes a channel of it.
use vstd::arithmetic::div_mod::lemma_fundamental_div_mod_converse;
use vstd::prelude::*;

verus! {

/// Byte offset of channel `channel` of the pixel at (`row`, `col`) in a raster
/// with `pitch` bytes per row and `stride` bytes per pixel.
pub open spec fn texel(pitch: int, stride: int, channel: int, row: int, col: int) -> int {
    row * pitch + col * stride + channel
}

/// Whether byte `p` is channel `channel` of one of the 16 pixels of the tile.
pub open spec fn on_channel(pitch: int, stride: int, channel: int, p: int) -> bool {
    exists|row: int, col: int|
        0 <= row < 4 && 0 <= col < 4 && p == #[trigger] texel(pitch, stride, channel, row, col)
}

/// The raster layout a decoder is given: pixels of `stride` bytes, the tile's
/// four pixels fit in a row, and the last byte written lies inside `len`.
pub open spec fn tile_fits(len: int, pitch: int, stride: int, channel: int) -> bool {
    &&& 1 <= stride
    &&& 0 <= channel < stride
    &&& 4 * stride <= pitch
    &&& 3 * pitch + 3 * stride + channel < len
}

/// A byte of the tile determines its row, its column and its channel.
pub proof fn lemma_texel_unique(pitch: int, stride: int, channel: int, row: int, col: int)
    requires
        1 <= stride,
        0 <= channel < stride,
        4 * stride <= pitch,
        0 <= row < 4,
        0 <= col < 4,
    ensures
        texel(pitch, stride, channel, row, col) / pitch == row,
        texel(pitch, stride, channel, row, col) % pitch == col * stride + channel,
        (col * stride + channel) / stride == col,
        (col * stride + channel) % stride == channel,
{
    assert(col * stride <= 3 * stride) by (nonlinear_arith)
        requires
            col < 4,
            1 <= stride,
    ;
    lemma_fundamental_div_mod_converse(
        texel(pitch, stride, channel, row, col),
        pitch,
        row,
        col * stride + channel,
    );
    lemma_fundamental_div_mod_converse(col * stride + channel, stride, col, channel);
}

/// No byte of the tile lies past its last one, that of the bottom-right pixel.
pub proof fn lemma_texel_bounds(pitch: int, stride: int, channel: int, row: int, col: int)
    requires
        1 <= stride,
        0 <= channel < stride,
        4 * stride <= pitch,
        0 <= row < 4,
        0 <= col < 4,
    ensures
        0 <= texel(pitch, stride, channel, row, col) <= 3 * pitch + 3 * stride + channel,
{
    assert(0 <= row * pitch <= 3 * pitch) by (nonlinear_arith)
        requires
            0 <= row < 4,
            0 <= pitch,
    ;
    assert(0 <= col * stride <= 3 * stride) by (nonlinear_arith)
        requires
            0 <= col < 4,
            1 <= stride,
    ;
}

/// Two channels of the tile never share a byte.
pub proof fn lemma_channels_disjoint(pitch: int, stride: int, c1: int, c2: int, p: int)
    requires
        1 <= stride,
        0 <= c1 < stride,
        0 <= c2 < stride,
        4 * stride <= pitch,
        on_channel(pitch, stride, c1, p),
        on_channel(pitch, stride, c2, p),
    ensures
        c1 == c2,
{
    let (r1, k1) = choose|row: int, col: int|
        0 <= row < 4 && 0 <= col < 4 && p == #[trigger] texel(pitch, stride, c1, row, col);
    let (r2, k2) = choose|row: int, col: int|
        0 <= row < 4 && 0 <= col < 4 && p == #[trigger] texel(pitch, stride, c2, row, col);
    lemma_texel_unique(pitch, stride, c1, r1, k1);
    lemma_texel_unique(pitch, stride, c2, r2, k2);
}

/// Distinct pixels of one channel never share a byte.
pub proof fn lemma_pixels_disjoint(
    pitch: int,
    stride: int,
    channel: int,
    r1: int,
    k1: int,
    r2: int,
    k2: int,
)
    requires
        1 <= stride,
        0 <= channel < stride,
        4 * stride <= pitch,
        0 <= r1 < 4,
        0 <= k1 < 4,
        0 <= r2 < 4,
        0 <= k2 < 4,
        texel(pitch, stride, channel, r1, k1) == texel(pitch, stride, channel, r2, k2),
    ensures
        r1 == r2,
        k1 == k2,
{
    lemma_texel_unique(pitch, stride, channel, r1, k1);
    lemma_texel_unique(pitch, stride, channel, r2, k2);
}

/// What writing `values` (row-major, 16 entries) into one channel of the tile
/// leaves in the raster: each pixel's byte holds its value, every other byte
/// is as it was.
pub open spec fn channel_written(
    before: Seq<u8>,
    after: Seq<u8>,
    pitch: int,
    stride: int,
    channel: int,
    values: Seq<u8>,
) -> bool {
    &&& after.len() == before.len()
    &&& forall|row: int, col: int|
        0 <= row < 4 && 0 <= col < 4 ==> after[texel(pitch, stride, channel, row, col)]
            == values[4 * row + col]
    &&& forall|p: int|
        0 <= p < before.len() && !on_channel(pitch, stride, channel, p) ==> after[p] == before[p]
}

/// Writing one channel of the tile leaves every byte of every other channel
/// of the tile as it was.
pub proof fn lemma_other_channels_kept(
    before: Seq<u8>,
    after: Seq<u8>,
    pitch: int,
    stride: int,
    channel: int,
    values: Seq<u8>,
    other: int,
)
    requires
        1 <= stride,
        0 <= channel < stride,
        0 <= other < stride,
        other != channel,
        4 * stride <= pitch,
        channel_written(before, after, pitch, stride, channel, values),
    ensures
        forall|p: int|
            0 <= p < before.len() && on_channel(pitch, stride, other, p) ==> after[p] == before[p],
{
    assert forall|p: int| 0 <= p < before.len() && on_channel(pitch, stride, other, p) implies after[p]
        == before[p] by {
        if on_channel(pitch, stride, channel, p) {
            lemma_channels_disjoint(pitch, stride, channel, other, p);
        }
    }
}

/// Writing one channel is deterministic: from the same raster and values
/// there is exactly one result.
pub proof fn lemma_channel_written_unique(
    before: Seq<u8>,
    a1: Seq<u8>,
    a2: Seq<u8>,
    pitch: int,
    stride: int,
    channel: int,
    values: Seq<u8>,
)
    requires
        channel_written(before, a1, pitch, stride, channel, values),
        channel_written(before, a2, pitch, stride, channel, values),
    ensures
        a1 == a2,
{
    assert forall|p: int| 0 <= p < a1.len() implies a1[p] == a2[p] by {
        if on_channel(pitch, stride, channel, p) {
            let (row, col) = choose|row: int, col: int|
                0 <= row < 4 && 0 <= col < 4 && p == #[trigger] texel(
                    pitch,
                    stride,
                    channel,
                    row,
                    col,
                );
            assert(a1[texel(pitch, stride, channel, row, col)] == values[4 * row + col]);
        }
    }
    assert(a1 =~= a2);
}

/// The bytes a channel write leaves in the tile depend on the values alone,
/// not on what the raster held before.
pub proof fn lemma_channel_written_agrees(
    b1: Seq<u8>,
    a1: Seq<u8>,
    b2: Seq<u8>,
    a2: Seq<u8>,
    pitch: int,
    stride: int,
    channel: int,
    values: Seq<u8>,
)
    requires
        channel_written(b1, a1, pitch, stride, channel, values),
        channel_written(b2, a2, pitch, stride, channel, values),
    ensures
        forall|row: int, col: int|
            0 <= row < 4 && 0 <= col < 4 ==> a1[texel(pitch, stride, channel, row, col)]
                == a2[texel(pitch, stride, channel, row, col)],
{
}

/// Writes `values` into channel `channel` of the tile, one byte per pixel.
pub fn write_channel(
    out: &mut [u8],
    pitch: usize,
    stride: usize,
    channel: usize,
    values: &[u8; 16],
)
    requires
        tile_fits(old(out)@.len() as int, pitch as int, stride as int, channel as int),
    ensures
        channel_written(
            old(out)@,
            final(out)@,
            pitch as int,
            stride as int,
            channel as int,
            values@,
        ),
{
    let ghost before = out@;
    let len = out.len();
    let mut row_start: usize = 0;
    let mut row: usize = 0;
    while row < 4
        invariant
            tile_fits(before.len() as int, pitch as int, stride as int, channel as int),
            out@.len() == before.len(),
            len == before.len(),
            values@.len() == 16,
            row <= 4,
            row < 4 ==> row_start == row * pitch,
            forall|r: int, k: int|
                0 <= r < row && 0 <= k < 4 ==> out@[texel(
                    pitch as int,
                    stride as int,
                    channel as int,
                    r,
                    k,
                )] == values@[4 * r + k],
            forall|p: int|
                0 <= p < before.len() && !(exists|r: int, k: int|
                    0 <= r < row && 0 <= k < 4 && p == #[trigger] texel(
                        pitch as int,
                        stride as int,
                        channel as int,
                        r,
                        k,
                    )) ==> out@[p] == before[p],
        decreases 4 - row,
    {
        assert(row_start + 3 * stride + channel < before.len()) by (nonlinear_arith)
            requires
                row_start == row * pitch,
                row < 4,
                3 * pitch + 3 * stride + channel < before.len(),
        ;
        let mut col: usize = 0;
        while col < 4
            invariant
                tile_fits(before.len() as int, pitch as int, stride as int, channel as int),
                out@.len() == before.len(),
                values@.len() == 16,
                row < 4,
                row_start == row * pitch,
                len == before.len(),
                row_start + 3 * stride + channel < before.len(),
                col <= 4,
                forall|r: int, k: int|
                    0 <= r < row && 0 <= k < 4 ==> out@[texel(
                        pitch as int,
                        stride as int,
                        channel as int,
                        r,
                        k,
                    )] == values@[4 * r + k],
                forall|k: int|
                    0 <= k < col ==> out@[texel(
                        pitch as int,
                        stride as int,
                        channel as int,
                        row as int,
                        k,
                    )] == values@[4 * row + k],
                forall|p: int|
                    0 <= p < before.len() && !(exists|r: int, k: int|
                        0 <= r < row && 0 <= k < 4 && p == #[trigger] texel(
                            pitch as int,
                            stride as int,
                            channel as int,
                            r,
                            k,
                        )) && !(exists|k: int|
                        0 <= k < col && p == #[trigger] texel(
                            pitch as int,
                            stride as int,
                            channel as int,
                            row as int,
                            k,
                        )) ==> out@[p] == before[p],
            decreases 4 - col,
        {
            assert(col * stride <= 3 * stride) by (nonlinear_arith)
                requires
                    col < 4,
            ;
            let at: usize = row_start + col * stride + channel;
            assert(at == texel(pitch as int, stride as int, channel as int, row as int, col as int));
            out[at] = values[4 * row + col];
            proof {
                let (p, s, c) = (pitch as int, stride as int, channel as int);
                assert forall|r: int, k: int| 0 <= r < row && 0 <= k < 4 implies out@[texel(
                    p,
                    s,
                    c,
                    r,
                    k,
                )] == values@[4 * r + k] by {
                    lemma_texel_bounds(p, s, c, r, k);
                    if texel(p, s, c, r, k) == at {
                        lemma_pixels_disjoint(p, s, c, r, k, row as int, col as int);
                    }
                }
                assert forall|k: int| 0 <= k <= col implies out@[texel(
                    p,
                    s,
                    c,
                    row as int,
                    k,
                )] == values@[4 * row + k] by {
                    lemma_texel_bounds(p, s, c, row as int, k);
                    if k < col && texel(p, s, c, row as int, k) == at {
                        lemma_pixels_disjoint(p, s, c, row as int, k, row as int, col as int);
                    }
                }
            }
            col = col + 1;
        }
        proof {
            assert forall|p: int|
                0 <= p < before.len() && !(exists|r: int, k: int|
                    0 <= r < row + 1 && 0 <= k < 4 && p == #[trigger] texel(
                        pitch as int,
                        stride as int,
                        channel as int,
                        r,
                        k,
                    )) implies out@[p] == before[p] by {
                assert(!(exists|k: int|
                    0 <= k < 4 && p == #[trigger] texel(
                        pitch as int,
                        stride as int,
                        channel as int,
                        row as int,
                        k,
                    )));
            }
            assert((row + 1) * pitch == row * pitch + pitch) by (nonlinear_arith);
        }
        row = row + 1;
        if row < 4 {
            assert(row * pitch <= 3 * pitch) by (nonlinear_arith)
                requires
                    row < 4,
            ;
            row_start = row_start + pitch;
        }
    }
}

} // verus!
