//! Texture packing: voxel grids flattened into channel records, and 32-bit
//! words (such as the bit patterns of `f32` texels) serialized into the
//! little-endian byte stream that texture uploads take.
use crate::grid::{Voxel, VoxelGrid};
use vstd::prelude::*;

verus! {

/// Byte `k` (`0..4`, least significant first) of a word.
pub open spec fn byte_of(w: u32, k: int) -> u8 {
    if k == 0 {
        (w & 0xff) as u8
    } else if k == 1 {
        ((w >> 8u32) & 0xff) as u8
    } else if k == 2 {
        ((w >> 16u32) & 0xff) as u8
    } else {
        (w >> 24u32) as u8
    }
}

/// The word whose little-endian bytes are `b0, b1, b2, b3`.
pub open spec fn word_of(b0: u8, b1: u8, b2: u8, b3: u8) -> u32 {
    (b0 as u32) | ((b1 as u32) << 8u32) | ((b2 as u32) << 16u32) | ((b3 as u32) << 24u32)
}

/// The bytes of a word sequence, four per word.
pub open spec fn pack_spec(words: Seq<u32>) -> Seq<u8> {
    Seq::new(4 * words.len(), |j: int| byte_of(words[j / 4], j % 4))
}

/// The words of a byte sequence, one per four bytes.
pub open spec fn unpack_spec(bytes: Seq<u8>) -> Seq<u32> {
    Seq::new(bytes.len() / 4, |i: int| word_of(bytes[4 * i], bytes[4 * i + 1], bytes[4 * i + 2], bytes[4 * i + 3]))
}

proof fn lemma_word_bytes(w: u32)
    ensures
        word_of(byte_of(w, 0), byte_of(w, 1), byte_of(w, 2), byte_of(w, 3)) == w,
{
    assert(((w & 0xff) as u8 as u32) | ((((w >> 8u32) & 0xff) as u8 as u32) << 8u32) | ((((w >> 16u32) & 0xff) as u8 as u32) << 16u32) | (((w >> 24u32) as u8 as u32) << 24u32) == w) by (bit_vector);
}

/// Packing words into bytes and reading them back gives the same words.
pub proof fn lemma_pack_round_trip(words: Seq<u32>)
    ensures
        unpack_spec(pack_spec(words)) == words,
{
    let b = pack_spec(words);
    assert(b.len() / 4 == words.len());
    assert forall|i: int| 0 <= i < words.len() implies #[trigger] unpack_spec(b)[i] == words[i] by {
        assert((4 * i) / 4 == i && (4 * i + 1) / 4 == i && (4 * i + 2) / 4 == i && (4 * i + 3) / 4 == i);
        assert((4 * i) % 4 == 0 && (4 * i + 1) % 4 == 1 && (4 * i + 2) % 4 == 2 && (4 * i + 3) % 4 == 3);
        lemma_word_bytes(words[i]);
    }
    assert(unpack_spec(b) =~= words);
}

/// Serializes words into bytes, least significant byte first.
pub fn pack_words(words: &Vec<u32>) -> (r: Vec<u8>)
    requires
        4 * words@.len() <= usize::MAX,
    ensures
        r@ == pack_spec(words@),
{
    let mut out: Vec<u8> = Vec::new();
    let mut i: usize = 0;
    while i < words.len()
        invariant
            i <= words@.len(),
            4 * words@.len() <= usize::MAX,
            out@.len() == 4 * i,
            forall|j: int| 0 <= j < 4 * i ==> #[trigger] out@[j] == byte_of(words@[j / 4], j % 4),
        decreases words@.len() - i,
    {
        let w = words[i];
        out.push((w & 0xff) as u8);
        out.push(((w >> 8u32) & 0xff) as u8);
        out.push(((w >> 16u32) & 0xff) as u8);
        out.push((w >> 24u32) as u8);
        assert forall|j: int| 4 * i <= j < 4 * (i + 1) implies #[trigger] out@[j] == byte_of(words@[j / 4], j % 4) by {
            assert(j / 4 == i);
        }
        i = i + 1;
    }
    assert(out@ =~= pack_spec(words@));
    out
}

/// Reads little-endian words back from bytes; the byte count must be a
/// multiple of four.
pub fn unpack_words(bytes: &Vec<u8>) -> (r: Vec<u32>)
    requires
        bytes@.len() % 4 == 0,
    ensures
        r@ == unpack_spec(bytes@),
{
    let mut out: Vec<u32> = Vec::new();
    let n = bytes.len() / 4;
    assert(4 * n == bytes@.len());
    let mut i: usize = 0;
    while i < n
        invariant
            n == bytes@.len() / 4,
            4 * n == bytes@.len(),
            bytes@.len() <= usize::MAX,
            i <= n,
            out@.len() == i,
            forall|j: int|
                0 <= j < i ==> #[trigger] out@[j] == word_of(
                    bytes@[4 * j],
                    bytes@[4 * j + 1],
                    bytes@[4 * j + 2],
                    bytes@[4 * j + 3],
                ),
        decreases n - i,
    {
        let b0 = bytes[4 * i] as u32;
        let b1 = bytes[4 * i + 1] as u32;
        let b2 = bytes[4 * i + 2] as u32;
        let b3 = bytes[4 * i + 3] as u32;
        out.push(b0 | (b1 << 8u32) | (b2 << 16u32) | (b3 << 24u32));
        i = i + 1;
    }
    assert(out@ =~= unpack_spec(bytes@));
    out
}

/// The four channels of every voxel in the grid's linear order:
/// distance, light, noise, extra.
pub open spec fn channels_spec(cells: Seq<Voxel>) -> Seq<i64> {
    Seq::new(
        4 * cells.len(),
        |j: int|
            {
                let v = cells[j / 4];
                if j % 4 == 0 {
                    v.distance
                } else if j % 4 == 1 {
                    v.light
                } else if j % 4 == 2 {
                    v.noise
                } else {
                    v.extra
                }
            },
    )
}

/// Flattens a grid into its texel records, four channels per voxel, in the
/// grid's own linear order (x fastest, then y, then z).
pub fn grid_channels(g: &VoxelGrid) -> (r: Vec<i64>)
    requires
        4 * g.cells@.len() <= usize::MAX,
    ensures
        r@ == channels_spec(g.cells@),
{
    let mut out: Vec<i64> = Vec::new();
    let mut i: usize = 0;
    while i < g.cells.len()
        invariant
            i <= g.cells@.len(),
            4 * g.cells@.len() <= usize::MAX,
            out@.len() == 4 * i,
            forall|j: int| 0 <= j < 4 * i ==> #[trigger] out@[j] == channels_spec(g.cells@)[j],
        decreases g.cells@.len() - i,
    {
        let v = g.cells[i];
        out.push(v.distance);
        out.push(v.light);
        out.push(v.noise);
        out.push(v.extra);
        assert forall|j: int| 4 * i <= j < 4 * (i + 1) implies #[trigger] out@[j] == channels_spec(g.cells@)[j] by {
            assert(j / 4 == i);
        }
        i = i + 1;
    }
    assert(out@ =~= channels_spec(g.cells@));
    out
}

} // verus!
