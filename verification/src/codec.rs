//! Lossless binary serialization of a [`TerrainChunk`].
//!
//! Layout, little-endian, in order: `min` (three 32-bit words), `max`
//! (three 32-bit words), `size` (one 64-bit word), then `size * size`
//! height samples (32-bit words) and `size * size` packed RGBA colors
//! (32-bit words). No arithmetic touches the sample values, so encoding
//! and decoding are bit-exact inverses.

use vstd::bytes::*;
use vstd::prelude::*;
use vstd::slice::slice_subrange;

use crate::patch::ChunkView;
use crate::patch::TerrainChunk;
use crate::patch::Vec3Bits;

verus! {

/// Why a byte stream could not be decoded.
#[derive(Clone, Copy, PartialEq, Eq, Structural, Debug)]
pub enum DecodeError {
    /// The stream ends before every field declared by its header is read.
    TruncatedInput,
    /// The stream's length is inconsistent with its declared `size`
    /// (trailing bytes after the last declared field).
    MalformedHeader,
}

/// Little-endian bytes of a sequence of 32-bit words, in order.
pub open spec fn words_le_bytes(ws: Seq<u32>) -> Seq<u8>
    decreases ws.len(),
{
    if ws.len() == 0 {
        Seq::empty()
    } else {
        words_le_bytes(ws.drop_last()) + spec_u32_to_le_bytes(ws.last())
    }
}

/// Little-endian bytes of one vector: x, then y, then z.
pub open spec fn vec3_le_bytes(v: Vec3Bits) -> Seq<u8> {
    spec_u32_to_le_bytes(v.x) + spec_u32_to_le_bytes(v.y) + spec_u32_to_le_bytes(v.z)
}

/// The byte stream that encodes a patch.
pub open spec fn spec_encode(c: ChunkView) -> Seq<u8> {
    vec3_le_bytes(c.min) + vec3_le_bytes(c.max) + spec_u64_to_le_bytes(c.size as u64)
        + words_le_bytes(c.points) + words_le_bytes(c.color)
}

/// Total length a stream must have for a declared grid side `size`.
pub open spec fn required_len(size: int) -> int {
    32 + 8 * (size * size)
}

/// The vector whose components sit at byte offset `at` of `bytes`.
pub open spec fn vec3_at(bytes: Seq<u8>, at: int) -> Vec3Bits {
    Vec3Bits {
        x: spec_u32_from_le_bytes(bytes.subrange(at, at + 4)),
        y: spec_u32_from_le_bytes(bytes.subrange(at + 4, at + 8)),
        z: spec_u32_from_le_bytes(bytes.subrange(at + 8, at + 12)),
    }
}

/// What decoding a byte stream yields: the unique patch the stream encodes,
/// or the error that rules one out. A stream shorter than its declared
/// fields need is truncated; a longer one is inconsistent with its header.
pub open spec fn spec_decode(bytes: Seq<u8>) -> Result<ChunkView, DecodeError> {
    if bytes.len() < 32 {
        Err(DecodeError::TruncatedInput)
    } else {
        let size = spec_u64_from_le_bytes(bytes.subrange(24, 32)) as int;
        if bytes.len() < required_len(size) {
            Err(DecodeError::TruncatedInput)
        } else if bytes.len() > required_len(size) {
            Err(DecodeError::MalformedHeader)
        } else {
            Ok(
                ChunkView {
                    size: size as nat,
                    points: Seq::new(
                        (size * size) as nat,
                        |i: int| spec_u32_from_le_bytes(bytes.subrange(32 + 4 * i, 36 + 4 * i)),
                    ),
                    color: Seq::new(
                        (size * size) as nat,
                        |i: int|
                            spec_u32_from_le_bytes(
                                bytes.subrange(
                                    32 + 4 * (size * size) + 4 * i,
                                    36 + 4 * (size * size) + 4 * i,
                                ),
                            ),
                    ),
                    min: vec3_at(bytes, 0),
                    max: vec3_at(bytes, 12),
                    mesh: None,
                },
            )
        }
    }
}

/// Appending one word appends its four bytes.
pub proof fn lemma_words_le_bytes_push(ws: Seq<u32>, w: u32)
    ensures
        words_le_bytes(ws.push(w)) == words_le_bytes(ws) + spec_u32_to_le_bytes(w),
{
    assert(ws.push(w).drop_last() =~= ws);
    assert(ws.push(w).last() == w);
}

/// A word sequence encodes to four bytes per word.
pub proof fn lemma_words_le_bytes_len(ws: Seq<u32>)
    ensures
        words_le_bytes(ws).len() == 4 * ws.len(),
    decreases ws.len(),
{
    lemma_auto_spec_u32_to_from_le_bytes();
    if ws.len() > 0 {
        lemma_words_le_bytes_len(ws.drop_last());
    }
}

/// The word at index `i` occupies bytes `4 * i .. 4 * i + 4` of the encoding.
pub proof fn lemma_words_le_bytes_index(ws: Seq<u32>, i: int)
    requires
        0 <= i < ws.len(),
    ensures
        words_le_bytes(ws).subrange(4 * i, 4 * i + 4) == spec_u32_to_le_bytes(ws[i]),
    decreases ws.len(),
{
    lemma_words_le_bytes_len(ws);
    lemma_words_le_bytes_len(ws.drop_last());
    lemma_auto_spec_u32_to_from_le_bytes();
    if i == ws.len() - 1 {
        assert(words_le_bytes(ws).subrange(4 * i, 4 * i + 4) =~= spec_u32_to_le_bytes(ws.last()));
    } else {
        lemma_words_le_bytes_index(ws.drop_last(), i);
        assert(words_le_bytes(ws).subrange(4 * i, 4 * i + 4) =~= words_le_bytes(
            ws.drop_last(),
        ).subrange(4 * i, 4 * i + 4));
    }
}

/// The encoding of a well-formed patch has exactly the required length.
pub proof fn lemma_encode_len(c: ChunkView)
    requires
        c.wf(),
    ensures
        spec_encode(c).len() == required_len(c.size as int),
{
    lemma_auto_spec_u32_to_from_le_bytes();
    lemma_auto_spec_u64_to_from_le_bytes();
    lemma_words_le_bytes_len(c.points);
    lemma_words_le_bytes_len(c.color);
    assert(spec_encode(c).len() == 32 + 4 * c.points.len() + 4 * c.color.len());
}

/// Law: the codec round-trips losslessly. Decoding the encoding of any
/// well-formed patch reproduces `size`, `points`, `color`, `min` and `max`
/// exactly, with no mesh attached.
pub proof fn lemma_round_trip(c: ChunkView)
    requires
        c.wf(),
        c.size <= u64::MAX,
    ensures
        spec_decode(spec_encode(c)) == Ok::<ChunkView, DecodeError>(
            ChunkView { mesh: None, ..c },
        ),
{
    lemma_auto_spec_u32_to_from_le_bytes();
    lemma_auto_spec_u64_to_from_le_bytes();
    lemma_words_le_bytes_len(c.points);
    lemma_words_le_bytes_len(c.color);
    lemma_encode_len(c);
    let bytes = spec_encode(c);
    let n = (c.size * c.size) as int;
    assert(bytes.subrange(24, 32) =~= spec_u64_to_le_bytes(c.size as u64));
    let size = spec_u64_from_le_bytes(bytes.subrange(24, 32)) as int;
    assert(size == c.size);
    assert(bytes.len() == required_len(size));
    let d = spec_decode(bytes)->Ok_0;
    assert(bytes.subrange(0, 4) =~= spec_u32_to_le_bytes(c.min.x));
    assert(bytes.subrange(4, 8) =~= spec_u32_to_le_bytes(c.min.y));
    assert(bytes.subrange(8, 12) =~= spec_u32_to_le_bytes(c.min.z));
    assert(bytes.subrange(12, 16) =~= spec_u32_to_le_bytes(c.max.x));
    assert(bytes.subrange(16, 20) =~= spec_u32_to_le_bytes(c.max.y));
    assert(bytes.subrange(20, 24) =~= spec_u32_to_le_bytes(c.max.z));
    assert(d.min == c.min);
    assert(d.max == c.max);
    assert forall|i: int| 0 <= i < n implies d.points[i] == c.points[i] by {
        lemma_words_le_bytes_index(c.points, i);
        assert(bytes.subrange(32 + 4 * i, 36 + 4 * i) =~= words_le_bytes(c.points).subrange(
            4 * i,
            4 * i + 4,
        ));
    }
    assert(d.points =~= c.points);
    assert forall|i: int| 0 <= i < n implies d.color[i] == c.color[i] by {
        lemma_words_le_bytes_index(c.color, i);
        assert(bytes.subrange(32 + 4 * (size * size) + 4 * i, 36 + 4 * (size * size) + 4 * i)
            =~= words_le_bytes(c.color).subrange(4 * i, 4 * i + 4));
    }
    assert(d.color =~= c.color);
    assert(d =~= ChunkView { mesh: None, ..c });
}

/// Law: a stream shorter than the length its declared `size` requires is
/// always rejected as truncated; decoding never reads outside the stream.
pub proof fn lemma_short_input_truncated(bytes: Seq<u8>)
    requires
        bytes.len() >= 32 ==> bytes.len() < required_len(
            spec_u64_from_le_bytes(bytes.subrange(24, 32)) as int,
        ),
    ensures
        spec_decode(bytes) == Err::<ChunkView, DecodeError>(DecodeError::TruncatedInput),
{
}

/// Reads the three words of a vector at byte offset `at`.
fn read_vec3(bytes: &[u8], at: usize) -> (v: Vec3Bits)
    requires
        at + 12 <= bytes@.len(),
    ensures
        v == vec3_at(bytes@, at as int),
{
    // Reading the length pins it to a machine word, so the offset
    // arithmetic below cannot overflow.
    let _n: usize = bytes.len();
    let x = u32_from_le_bytes(slice_subrange(bytes, at, at + 4));
    let y = u32_from_le_bytes(slice_subrange(bytes, at + 4, at + 8));
    let z = u32_from_le_bytes(slice_subrange(bytes, at + 8, at + 12));
    Vec3Bits { x, y, z }
}

/// Appends the three words of a vector.
fn write_vec3(out: &mut Vec<u8>, v: Vec3Bits)
    ensures
        final(out)@ == old(out)@ + vec3_le_bytes(v),
{
    write_u32(out, v.x);
    write_u32(out, v.y);
    write_u32(out, v.z);
    proof {
        assert(final(out)@ =~= old(out)@ + vec3_le_bytes(v));
    }
}

/// Appends one 32-bit word, little-endian.
fn write_u32(out: &mut Vec<u8>, w: u32)
    ensures
        final(out)@ == old(out)@ + spec_u32_to_le_bytes(w),
{
    let bs = u32_to_le_bytes(w);
    let mut k: usize = 0;
    while k < bs.len()
        invariant
            bs@.len() == 4,
            bs@ == spec_u32_to_le_bytes(w),
            k <= 4,
            out@ == old(out)@ + bs@.take(k as int),
        decreases 4 - k,
    {
        let b = bs[k];
        out.push(b);
        proof {
            assert(old(out)@ + bs@.take(k as int) + seq![bs@[k as int]] =~= old(out)@ + bs@.take(
                k + 1 as int,
            ));
        }
        k = k + 1;
    }
    proof {
        assert(bs@.take(4) =~= bs@);
    }
}

/// Encoder and decoder for the on-disk chunk format.
pub struct TerrainLoader {}

impl TerrainLoader {
    /// Encodes a patch into its byte stream. The mesh reference is not
    /// part of the format: only geometry and colors are written.
    pub fn write_chunk(&self, chunk: &TerrainChunk) -> (out: Vec<u8>)
        requires
            chunk.wf(),
        ensures
            out@ == spec_encode(chunk@),
            out@.len() == required_len(chunk@.size as int),
    {
        proof {
            lemma_encode_len(chunk@);
        }
        let mut out: Vec<u8> = Vec::new();
        write_vec3(&mut out, chunk.min);
        write_vec3(&mut out, chunk.max);
        let sz = u64_to_le_bytes(chunk.size as u64);
        let mut k: usize = 0;
        let ghost head: Seq<u8> = vec3_le_bytes(chunk.min) + vec3_le_bytes(chunk.max);
        while k < sz.len()
            invariant
                sz@.len() == 8,
                sz@ == spec_u64_to_le_bytes(chunk.size as u64),
                k <= 8,
                out@ == head + sz@.take(k as int),
            decreases 8 - k,
        {
            let b = sz[k];
            out.push(b);
            proof {
                assert(head + sz@.take(k as int) + seq![sz@[k as int]] =~= head + sz@.take(
                    k + 1 as int,
                ));
            }
            k = k + 1;
        }
        proof {
            assert(sz@.take(8) =~= sz@);
        }
        let ghost head2: Seq<u8> = head + spec_u64_to_le_bytes(chunk.size as u64);
        let mut i: usize = 0;
        while i < chunk.points.len()
            invariant
                i <= chunk.points@.len(),
                out@ == head2 + words_le_bytes(chunk.points@.take(i as int)),
            decreases chunk.points@.len() - i,
        {
            let w = chunk.points[i];
            write_u32(&mut out, w);
            proof {
                lemma_words_le_bytes_push(chunk.points@.take(i as int), w);
                assert(chunk.points@.take(i as int).push(w) =~= chunk.points@.take(i + 1 as int));
                assert(out@ =~= head2 + words_le_bytes(chunk.points@.take(i + 1 as int)));
            }
            i = i + 1;
        }
        proof {
            assert(chunk.points@.take(chunk.points@.len() as int) =~= chunk.points@);
        }
        let ghost head3: Seq<u8> = head2 + words_le_bytes(chunk.points@);
        let mut i: usize = 0;
        while i < chunk.color.len()
            invariant
                i <= chunk.color@.len(),
                out@ == head3 + words_le_bytes(chunk.color@.take(i as int)),
            decreases chunk.color@.len() - i,
        {
            let w = chunk.color[i];
            write_u32(&mut out, w);
            proof {
                lemma_words_le_bytes_push(chunk.color@.take(i as int), w);
                assert(chunk.color@.take(i as int).push(w) =~= chunk.color@.take(i + 1 as int));
                assert(out@ =~= head3 + words_le_bytes(chunk.color@.take(i + 1 as int)));
            }
            i = i + 1;
        }
        proof {
            assert(chunk.color@.take(chunk.color@.len() as int) =~= chunk.color@);
            assert(out@ =~= spec_encode(chunk@));
        }
        out
    }

    /// Decodes a byte stream into the patch it encodes, or reports how the
    /// stream fails to encode one. Never reads outside `bytes`.
    pub fn load_chunk(&self, bytes: &[u8]) -> (r: Result<TerrainChunk, DecodeError>)
        ensures
            match r {
                Ok(c) => {
                    &&& c.wf()
                    &&& spec_decode(bytes@) == Ok::<ChunkView, DecodeError>(c@)
                },
                Err(e) => spec_decode(bytes@) == Err::<ChunkView, DecodeError>(e),
            },
    {
        if bytes.len() < 32 {
            return Err(DecodeError::TruncatedInput);
        }
        let size64 = u64_from_le_bytes(slice_subrange(bytes, 24, 32));
        let ghost size: int = size64 as int;
        // A grid side of 2^32 or more needs more bytes than any slice can
        // hold, so such a stream is certainly truncated.
        if size64 >= 0x1_0000_0000u64 {
            proof {
                assert(bytes@.len() < required_len(size)) by (nonlinear_arith)
                    requires
                        size >= 0x1_0000_0000,
                        bytes@.len() <= usize::MAX,
                ;
            }
            return Err(DecodeError::TruncatedInput);
        }
        proof {
            assert((size64 as u128) * (size64 as u128) == size * size && size * size
                < 0x1_0000_0000_0000_0000) by (nonlinear_arith)
                requires
                    size == size64 as int,
                    0 <= size64 < 0x1_0000_0000u64,
            ;
        }
        let n128: u128 = (size64 as u128) * (size64 as u128);
        let need: u128 = 32 + 8 * n128;
        if (bytes.len() as u128) < need {
            return Err(DecodeError::TruncatedInput);
        }
        if (bytes.len() as u128) > need {
            return Err(DecodeError::MalformedHeader);
        }
        proof {
            assert(bytes@.len() == 32 + 8 * (size * size));
            assert(size <= size * size) by (nonlinear_arith)
                requires
                    0 <= size,
            ;
        }
        let min = read_vec3(bytes, 0);
        let max = read_vec3(bytes, 12);
        let side: usize = size64 as usize;
        let count: usize = side * side;
        let mut points: Vec<u32> = Vec::new();
        let ghost pts: Seq<u32> = spec_decode(bytes@)->Ok_0.points;
        let mut i: usize = 0;
        while i < count
            invariant
                count == size * size,
                32 + 8 * count == bytes@.len(),
                bytes@.len() <= usize::MAX,
                i <= count,
                pts.len() == count,
                forall|j: int|
                    0 <= j < count ==> pts[j] == spec_u32_from_le_bytes(
                        bytes@.subrange(32 + 4 * j, 36 + 4 * j),
                    ),
                points@ =~= pts.take(i as int),
            decreases count - i,
        {
            let at = 32 + 4 * i;
            let w = u32_from_le_bytes(slice_subrange(bytes, at, at + 4));
            points.push(w);
            i = i + 1;
        }
        let mut color: Vec<u32> = Vec::new();
        let ghost cols: Seq<u32> = spec_decode(bytes@)->Ok_0.color;
        let base: usize = 32 + 4 * count;
        let mut i: usize = 0;
        while i < count
            invariant
                count == size * size,
                base == 32 + 4 * count,
                32 + 8 * count == bytes@.len(),
                bytes@.len() <= usize::MAX,
                i <= count,
                cols.len() == count,
                forall|j: int|
                    0 <= j < count ==> cols[j] == spec_u32_from_le_bytes(
                        bytes@.subrange(base + 4 * j, base + 4 * j + 4),
                    ),
                color@ =~= cols.take(i as int),
            decreases count - i,
        {
            let at = base + 4 * i;
            let w = u32_from_le_bytes(slice_subrange(bytes, at, at + 4));
            color.push(w);
            i = i + 1;
        }
        let c = TerrainChunk { size: side, points, color, min, max, mesh: None };
        proof {
            assert(c@.points =~= pts);
            assert(c@.color =~= cols);
            assert(spec_decode(bytes@) is Ok);
        }
        Ok(c)
    }
}

} // verus!
