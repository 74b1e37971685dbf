//! Content-defined chunking: one pass over a buffer with a single
//! rolling checksum splits it into non-overlapping chunks that tile the
//! buffer exactly.
//!
//! A chunk ends at the first candidate boundary of the rolling checksum
//! at or after its start, or after `MAX_CHUNK` bytes, whichever comes
//! first; the final chunk ends at the buffer's end. Boundaries depend
//! only on the byte stream, so chunking is deterministic.

use vstd::prelude::*;

use crate::rollsum::{is_split_boundary, rollsum_after, Rollsum, BUP_BLOBMASK};

verus! {

/// Hard cap on a chunk's size in bytes: four times the expected chunk
/// size, bounding degenerate inputs that never hit a boundary.
pub const MAX_CHUNK: usize = 32768;

/// A chunk of some buffer: a byte offset and a length. Chunks never
/// copy their payload; the owning buffer is re-sliced on demand.
#[derive(Clone, Copy, PartialEq, Eq, Structural, Debug)]
pub struct ChunkMeta {
    pub start: usize,
    pub len: usize,
}

/// Mathematical counterpart of `ChunkMeta`.
pub struct ChunkSpec {
    pub start: int,
    pub len: int,
}

impl View for ChunkMeta {
    type V = ChunkSpec;

    open spec fn view(&self) -> ChunkSpec {
        ChunkSpec { start: self.start as int, len: self.len as int }
    }
}

/// The bytes a chunk denotes within its buffer.
pub open spec fn chunk_bytes(bytes: Seq<u8>, c: ChunkSpec) -> Seq<u8> {
    bytes.subrange(c.start, c.start + c.len)
}

/// A chunk lies inside a buffer of length `n` and is non-empty.
pub open spec fn chunk_in_bounds(c: ChunkSpec, n: int) -> bool {
    0 <= c.start && 1 <= c.len && c.start + c.len <= n
}

/// Position where the chunk that began at `start` ends, given that the
/// scan has reached position `i` without cutting: the first candidate
/// boundary at or after `i`, the cap, or the end of the buffer.
pub open spec fn chunk_cut_from(bytes: Seq<u8>, start: int, i: int) -> int
    decreases bytes.len() - i,
{
    if i < start || i >= bytes.len() {
        bytes.len() as int
    } else if is_split_boundary(bytes, i) || i + 1 - start >= MAX_CHUNK {
        i + 1
    } else {
        chunk_cut_from(bytes, start, i + 1)
    }
}

/// End position of the chunk beginning at `start`.
pub open spec fn next_cut(bytes: Seq<u8>, start: int) -> int {
    chunk_cut_from(bytes, start, start)
}

/// The cut lies strictly beyond the scan position, within the buffer,
/// and no more than `MAX_CHUNK` bytes past the chunk start.
pub proof fn lemma_chunk_cut_from(bytes: Seq<u8>, start: int, i: int)
    requires
        0 <= start <= i < bytes.len(),
        i - start < MAX_CHUNK,
    ensures
        i < chunk_cut_from(bytes, start, i) <= bytes.len(),
        chunk_cut_from(bytes, start, i) - start <= MAX_CHUNK,
    decreases bytes.len() - i,
{
    if is_split_boundary(bytes, i) || i + 1 - start >= MAX_CHUNK {
    } else if i + 1 >= bytes.len() {
        assert(chunk_cut_from(bytes, start, i + 1) == bytes.len());
    } else {
        lemma_chunk_cut_from(bytes, start, i + 1);
    }
}

/// Bounds of `next_cut` for a chunk start inside the buffer.
pub proof fn lemma_next_cut(bytes: Seq<u8>, start: int)
    requires
        0 <= start < bytes.len(),
    ensures
        start < next_cut(bytes, start) <= bytes.len(),
        next_cut(bytes, start) - start <= MAX_CHUNK,
{
    lemma_chunk_cut_from(bytes, start, start);
}

/// The chunk sequence covering `bytes` from position `start` on.
pub open spec fn chunks_from(bytes: Seq<u8>, start: int) -> Seq<ChunkSpec>
    decreases bytes.len() - start,
    when 0 <= start
    via chunks_from_decreases
{
    if start >= bytes.len() {
        Seq::empty()
    } else {
        let cut = next_cut(bytes, start);
        seq![ChunkSpec { start, len: cut - start }] + chunks_from(bytes, cut)
    }
}

#[via_fn]
proof fn chunks_from_decreases(bytes: Seq<u8>, start: int) {
    if start < bytes.len() {
        lemma_next_cut(bytes, start);
    }
}

/// The full chunk sequence of a buffer. Chunking is a pure function of
/// the bytes: the same buffer always yields the same sequence.
pub open spec fn chunks_spec(bytes: Seq<u8>) -> Seq<ChunkSpec> {
    chunks_from(bytes, 0)
}

/// The chunk sequence `cs` tiles the interval `[from, n)` exactly:
/// consecutive chunks abut, every chunk is non-empty and at most
/// `MAX_CHUNK` long, and the chunks cover the interval with no gap or
/// overlap. An empty interval is tiled by the empty sequence.
pub open spec fn chunks_tile(cs: Seq<ChunkSpec>, from: int, n: int) -> bool {
    &&& (cs.len() == 0 <==> from == n)
    &&& (cs.len() > 0 ==> cs[0].start == from)
    &&& (cs.len() > 0 ==> cs[cs.len() - 1].start + cs[cs.len() - 1].len == n)
    &&& forall|i: int|
        0 <= i < cs.len() - 1 ==> #[trigger] cs[i + 1].start == cs[i].start + cs[i].len
    &&& forall|i: int| 0 <= i < cs.len() ==> 1 <= (#[trigger] cs[i]).len <= MAX_CHUNK
}

/// Chunking partitions the tail `[start, len)` of the buffer.
pub proof fn lemma_chunks_from_tile(bytes: Seq<u8>, start: int)
    requires
        0 <= start <= bytes.len(),
    ensures
        chunks_tile(chunks_from(bytes, start), start, bytes.len() as int),
    decreases bytes.len() - start,
{
    if start < bytes.len() {
        lemma_next_cut(bytes, start);
        let cut = next_cut(bytes, start);
        lemma_chunks_from_tile(bytes, cut);
        let head = ChunkSpec { start, len: cut - start };
        let rest = chunks_from(bytes, cut);
        let cs = chunks_from(bytes, start);
        assert(cs == seq![head] + rest);
        assert forall|i: int| 0 <= i < cs.len() - 1 implies #[trigger] cs[i + 1].start == cs[i].start
            + cs[i].len by {
            if i == 0 {
                if rest.len() > 0 {
                    assert(cs[1] == rest[0]);
                }
            } else {
                assert(cs[i] == rest[i - 1]);
                assert(cs[i + 1] == rest[i]);
                assert(rest[(i - 1) + 1].start == rest[i - 1].start + rest[i - 1].len);
            }
        }
        assert forall|i: int| 0 <= i < cs.len() implies 1 <= (#[trigger] cs[i]).len <= MAX_CHUNK by {
            if i > 0 {
                assert(cs[i] == rest[i - 1]);
            }
        }
    }
}

/// Chunking is a partition: chunk starts strictly increase, every chunk
/// is non-empty and capped at `MAX_CHUNK` bytes, and the chunk ranges
/// tile `[0, len)` exactly (the empty buffer yields no chunks).
pub proof fn lemma_chunks_partition(bytes: Seq<u8>)
    ensures
        chunks_tile(chunks_spec(bytes), 0, bytes.len() as int),
        forall|i: int|
            0 <= i < chunks_spec(bytes).len() ==> chunk_in_bounds(
                #[trigger] chunks_spec(bytes)[i],
                bytes.len() as int,
            ),
        forall|i: int|
            0 <= i < chunks_spec(bytes).len() - 1 ==> #[trigger] chunks_spec(bytes)[i].start
                < chunks_spec(bytes)[i + 1].start,
{
    lemma_chunks_from_tile(bytes, 0);
    let cs = chunks_spec(bytes);
    lemma_tile_in_bounds(cs, 0, bytes.len() as int);
}

/// Any tiling sequence consists of in-bounds chunks whose starts
/// strictly increase.
pub proof fn lemma_tile_in_bounds(cs: Seq<ChunkSpec>, from: int, n: int)
    requires
        chunks_tile(cs, from, n),
        0 <= from,
    ensures
        forall|i: int| 0 <= i < cs.len() ==> chunk_in_bounds(#[trigger] cs[i], n),
        forall|i: int| 0 <= i < cs.len() - 1 ==> #[trigger] cs[i].start < cs[i + 1].start,
        forall|i: int| 0 <= i < cs.len() ==> from <= (#[trigger] cs[i]).start,
        forall|i: int| 0 <= i < cs.len() ==> (#[trigger] cs[i]).start + cs[i].len <= n,
{
    if cs.len() > 0 {
        assert forall|i: int|
            0 <= i < cs.len() implies from <= (#[trigger] cs[i]).start && cs[i].start + cs[i].len
            <= n by {
            lemma_tile_chunk_bounds(cs, from, n, i);
        }
    }
}

/// Bounds for one chunk of a tiling sequence, by induction on its
/// index: everything before it fits in `[from, its start]` and
/// everything after it fits in `[its end, n]`.
proof fn lemma_tile_chunk_bounds(cs: Seq<ChunkSpec>, from: int, n: int, i: int)
    requires
        chunks_tile(cs, from, n),
        0 <= from,
        0 <= i < cs.len(),
    ensures
        from <= cs[i].start,
        cs[i].start + cs[i].len <= n,
    decreases cs.len(),
{
    if i == 0 {
        lemma_tile_prefix_end(cs, from, n, 0);
    } else {
        lemma_tile_prefix_end(cs, from, n, i);
        lemma_tile_prefix_end(cs, from, n, i - 1);
    }
}

/// In a tiling sequence, chunk `i` starts at `from` plus the total
/// length of the chunks before it, and ends within `[from, n]`.
proof fn lemma_tile_prefix_end(cs: Seq<ChunkSpec>, from: int, n: int, i: int)
    requires
        chunks_tile(cs, from, n),
        0 <= i < cs.len(),
    ensures
        from <= cs[i].start,
        cs[i].start + cs[i].len <= n,
    decreases cs.len() - i,
{
    if i == cs.len() - 1 {
        lemma_tile_start_monotone(cs, from, n, i);
    } else {
        lemma_tile_prefix_end(cs, from, n, i + 1);
        assert(cs[i + 1].start == cs[i].start + cs[i].len);
        lemma_tile_start_monotone(cs, from, n, i);
    }
}

/// Chunk `i`'s start is at least `from`.
proof fn lemma_tile_start_monotone(cs: Seq<ChunkSpec>, from: int, n: int, i: int)
    requires
        chunks_tile(cs, from, n),
        0 <= i < cs.len(),
    ensures
        from <= cs[i].start,
    decreases i,
{
    if i > 0 {
        lemma_tile_start_monotone(cs, from, n, i - 1);
        assert(cs[(i - 1) + 1].start == cs[i - 1].start + cs[i - 1].len);
    }
}

/// Compare `a[astart..astart+len]` with `b[bstart..bstart+len]`
/// byte for byte.
pub fn range_eq(a: &Vec<u8>, astart: usize, b: &Vec<u8>, bstart: usize, len: usize) -> (r: bool)
    requires
        astart + len <= a@.len(),
        bstart + len <= b@.len(),
    ensures
        r == (a@.subrange(astart as int, astart + len) == b@.subrange(bstart as int, bstart + len)),
{
    let ghost ra = a@.subrange(astart as int, astart + len);
    let ghost rb = b@.subrange(bstart as int, bstart + len);
    let mut i: usize = 0;
    while i < len
        invariant
            i <= len,
            astart + len <= a.len(),
            bstart + len <= b.len(),
            ra == a@.subrange(astart as int, astart + len),
            rb == b@.subrange(bstart as int, bstart + len),
            forall|k: int| 0 <= k < i ==> ra[k] == rb[k],
        decreases len - i,
    {
        if a[astart + i] != b[bstart + i] {
            proof {
                assert(ra[i as int] != rb[i as int]);
            }
            return false;
        }
        i = i + 1;
    }
    proof {
        assert(ra =~= rb);
    }
    true
}

/// Split a buffer into its content-defined chunks.
///
/// The result is exactly `chunks_spec` of the buffer's bytes, so two
/// passes over equal buffers yield identical chunk sequences.
pub fn chunk_buffer(buf: &Vec<u8>) -> (r: Vec<ChunkMeta>)
    ensures
        r@.map_values(|c: ChunkMeta| c@) == chunks_spec(buf@),
{
    let mut chunks: Vec<ChunkMeta> = Vec::new();
    let mut rs = Rollsum::new();
    proof {
        reveal(rollsum_after);
        assert(buf@.take(0) =~= Seq::<u8>::empty());
    }
    let mut chunk_start: usize = 0;
    let mut i: usize = 0;
    while i < buf.len()
        invariant
            rs.wf(),
            chunk_start <= i <= buf@.len(),
            i - chunk_start < MAX_CHUNK,
            rs@ == rollsum_after(buf@.take(i as int)),
            chunks_spec(buf@) == chunks@.map_values(|c: ChunkMeta| c@) + chunks_from(
                buf@,
                chunk_start as int,
            ),
            chunk_cut_from(buf@, chunk_start as int, i as int) == next_cut(
                buf@,
                chunk_start as int,
            ),
        decreases buf@.len() - i,
    {
        rs.roll(buf[i]);
        proof {
            reveal(rollsum_after);
            assert(buf@.take(i + 1).drop_last() =~= buf@.take(i as int));
            assert(buf@.take(i + 1).last() == buf@[i as int]);
        }
        let boundary = (rs.s2 & BUP_BLOBMASK) == BUP_BLOBMASK;
        proof {
            assert(boundary == is_split_boundary(buf@, i as int));
        }
        let new_len = i + 1 - chunk_start;
        if boundary || new_len >= MAX_CHUNK {
            let c = ChunkMeta { start: chunk_start, len: new_len };
            proof {
                assert(chunk_cut_from(buf@, chunk_start as int, i as int) == i + 1);
                assert(chunks_from(buf@, chunk_start as int) == seq![c@] + chunks_from(
                    buf@,
                    i + 1,
                ));
                assert(chunks@.push(c).map_values(|x: ChunkMeta| x@) =~= chunks@.map_values(
                    |x: ChunkMeta| x@,
                ).push(c@));
                assert(chunks@.map_values(|x: ChunkMeta| x@).push(c@) + chunks_from(buf@, i + 1)
                    =~= chunks@.map_values(|x: ChunkMeta| x@) + (seq![c@] + chunks_from(
                    buf@,
                    i + 1,
                )));
            }
            chunks.push(c);
            chunk_start = i + 1;
        }
        i = i + 1;
    }
    if chunk_start < buf.len() {
        let c = ChunkMeta { start: chunk_start, len: buf.len() - chunk_start };
        proof {
            assert(chunk_cut_from(buf@, chunk_start as int, i as int) == buf@.len());
            assert(chunks_from(buf@, chunk_start as int) == seq![c@] + chunks_from(
                buf@,
                buf@.len() as int,
            ));
            assert(chunks_from(buf@, buf@.len() as int) =~= Seq::<ChunkSpec>::empty());
            assert(chunks@.push(c).map_values(|x: ChunkMeta| x@) =~= chunks@.map_values(
                |x: ChunkMeta| x@,
            ).push(c@));
            assert(chunks@.map_values(|x: ChunkMeta| x@).push(c@) =~= chunks@.map_values(
                |x: ChunkMeta| x@,
            ) + (seq![c@] + Seq::<ChunkSpec>::empty()));
        }
        chunks.push(c);
    } else {
        proof {
            assert(chunks_from(buf@, chunk_start as int) =~= Seq::<ChunkSpec>::empty());
            assert(chunks@.map_values(|c: ChunkMeta| c@) + Seq::<ChunkSpec>::empty()
                =~= chunks@.map_values(|c: ChunkMeta| c@));
        }
    }
    chunks
}

} // verus!
