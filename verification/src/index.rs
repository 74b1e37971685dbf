//! Chunk identities and the per-buffer chunk index.
//!
//! A chunk's identity is its CRC-32 paired with its length. Identity
//! equality marks two chunks as match *candidates* only; the matcher
//! always verifies candidate bytes. The index maps a packed identity to
//! the list of all chunks of one buffer sharing it, in scan order.

use vstd::prelude::*;

use std::collections::HashMap;

use crate::chunking::{chunk_bytes, chunk_in_bounds, ChunkMeta, ChunkSpec};
use crate::crc::{crc32_range, crc32_spec};

verus! {

broadcast use vstd::std_specs::hash::group_hash_axioms;

/// Compact chunk identity: content checksum plus length.
#[derive(Clone, Copy, PartialEq, Eq, Structural, Debug)]
pub struct ChunkId {
    pub checksum: u32,
    pub length: u32,
}

/// Identity of a byte sequence: its CRC-32 and its length.
pub open spec fn id_of(data: Seq<u8>) -> ChunkId {
    ChunkId { checksum: crc32_spec(data), length: data.len() as u32 }
}

/// Identity of a chunk of a buffer.
pub open spec fn chunk_id_spec(bytes: Seq<u8>, c: ChunkSpec) -> ChunkId {
    id_of(chunk_bytes(bytes, c))
}

/// Packed identity usable as a 64-bit map key: checksum in the high
/// half, length in the low half.
pub open spec fn pack_id(id: ChunkId) -> u64 {
    ((id.checksum as u64) << 32) | (id.length as u64)
}

/// Packing loses nothing: equal keys mean equal identities.
pub proof fn lemma_pack_id_injective(a: ChunkId, b: ChunkId)
    requires
        pack_id(a) == pack_id(b),
    ensures
        a == b,
{
    let ac = a.checksum;
    let al = a.length;
    let bc = b.checksum;
    let bl = b.length;
    assert(((ac as u64) << 32) | (al as u64) == ((bc as u64) << 32) | (bl as u64) ==> ac == bc && al
        == bl) by (bit_vector);
}

/// Compute a chunk's identity from its buffer.
pub fn chunk_id(buf: &Vec<u8>, c: &ChunkMeta) -> (r: ChunkId)
    requires
        c@.start + c@.len <= buf@.len(),
        c@.len <= u32::MAX,
    ensures
        r == chunk_id_spec(buf@, c@),
{
    proof {
        vstd::std_specs::vec::axiom_spec_len(buf);
    }
    ChunkId { checksum: crc32_range(buf, c.start, c.start + c.len), length: c.len as u32 }
}

/// Pack an identity into its 64-bit key form.
pub fn pack(id: ChunkId) -> (r: u64)
    ensures
        r == pack_id(id),
{
    ((id.checksum as u64) << 32u64) | (id.length as u64)
}

/// A bucket of the index for key `k`: the strictly increasing sequence
/// of exactly those chunk positions whose packed identity is `k`.
pub open spec fn bucket_ok(b: Seq<usize>, k: u64, chunks: Seq<ChunkSpec>, bytes: Seq<u8>) -> bool {
    &&& b.len() > 0
    &&& forall|p: int, q: int| 0 <= p < q < b.len() ==> b[p] < b[q]
    &&& forall|p: int|
        0 <= p < b.len() ==> (#[trigger] b[p]) < chunks.len() && pack_id(
            chunk_id_spec(bytes, chunks[b[p] as int]),
        ) == k
    &&& forall|j: usize|
        j < chunks.len() && pack_id(#[trigger] chunk_id_spec(bytes, chunks[j as int])) == k
            ==> b.contains(j)
}

/// The index is complete and sound for the chunk sequence of `bytes`:
/// every key maps to a correct bucket and every chunk's key is present.
pub open spec fn index_ok(m: Map<u64, Vec<usize>>, chunks: Seq<ChunkSpec>, bytes: Seq<u8>) -> bool {
    &&& forall|k: u64| m.contains_key(k) ==> bucket_ok((#[trigger] m[k])@, k, chunks, bytes)
    &&& forall|j: int|
        0 <= j < chunks.len() ==> m.contains_key(pack_id(#[trigger] chunk_id_spec(
            bytes,
            chunks[j],
        )))
}

/// Lookup structure mapping packed chunk identities of one buffer to
/// the scan-ordered list of chunk positions bearing them. Read-only
/// after construction.
pub struct ChunkIndex {
    pub map: HashMap<u64, Vec<usize>>,
}

impl ChunkIndex {
    /// Build the index of a chunked buffer.
    pub fn build(buf: &Vec<u8>, chunks: &Vec<ChunkMeta>) -> (r: ChunkIndex)
        requires
            forall|i: int|
                0 <= i < chunks@.len() ==> chunk_in_bounds(
                    (#[trigger] chunks@[i])@,
                    buf@.len() as int,
                ) && chunks@[i]@.len <= u32::MAX,
        ensures
            index_ok(r.map@, chunks@.map_values(|c: ChunkMeta| c@), buf@),
    {
        let ghost cviews = chunks@.map_values(|c: ChunkMeta| c@);
        let mut map: HashMap<u64, Vec<usize>> = HashMap::new();
        let mut j: usize = 0;
        while j < chunks.len()
            invariant
                j <= chunks@.len(),
                forall|i: int|
                    0 <= i < chunks@.len() ==> chunk_in_bounds(
                        (#[trigger] chunks@[i])@,
                        buf@.len() as int,
                    ) && chunks@[i]@.len <= u32::MAX,
                cviews == chunks@.map_values(|c: ChunkMeta| c@),
                index_ok(map@, cviews.take(j as int), buf@),
                forall|k: u64, p: int|
                    map@.contains_key(k) && 0 <= p < (map@[k])@.len() ==> #[trigger] (map@[k])@[p]
                        < j,
            decreases chunks@.len() - j,
        {
            let id = chunk_id(buf, &chunks[j]);
            let k = pack(id);
            proof {
                assert(cviews[j as int] == chunks@[j as int]@);
                assert(chunk_id_spec(buf@, cviews[j as int]) == id);
            }
            let ghost m0 = map@;
            let mut bucket: Vec<usize> = match map.remove(&k) {
                Some(b) => b,
                None => Vec::new(),
            };
            let ghost b0 = bucket@;
            bucket.push(j);
            map.insert(k, bucket);
            proof {
                lemma_index_extend(m0, map@, b0, bucket, j, k, cviews, buf@);
            }
            j = j + 1;
        }
        proof {
            assert(cviews.take(cviews.len() as int) =~= cviews);
        }
        ChunkIndex { map }
    }

    /// The bucket for key `k`, if any chunk carries that identity.
    pub fn get_bucket(&self, k: u64) -> (r: Option<&Vec<usize>>)
        ensures
            match r {
                Some(b) => self.map@.contains_key(k) && b == self.map@[k],
                None => !self.map@.contains_key(k),
            },
    {
        self.map.get(&k)
    }
}

/// Inserting chunk `j` into its bucket extends a correct index for the
/// first `j` chunks to one for the first `j + 1`.
proof fn lemma_index_extend(
    m0: Map<u64, Vec<usize>>,
    m1: Map<u64, Vec<usize>>,
    b0: Seq<usize>,
    nb: Vec<usize>,
    j: usize,
    k: u64,
    cviews: Seq<ChunkSpec>,
    bytes: Seq<u8>,
)
    requires
        index_ok(m0, cviews.take(j as int), bytes),
        forall|k2: u64, p: int|
            m0.contains_key(k2) && 0 <= p < (m0[k2])@.len() ==> #[trigger] (m0[k2])@[p] < j,
        j < cviews.len(),
        pack_id(chunk_id_spec(bytes, cviews[j as int])) == k,
        m0.contains_key(k) ==> b0 == (m0[k])@,
        !m0.contains_key(k) ==> b0 == Seq::<usize>::empty(),
        nb@ == b0.push(j),
        m1 == m0.remove(k).insert(k, nb),
    ensures
        index_ok(m1, cviews.take(j + 1), bytes),
        forall|k2: u64, p: int|
            m1.contains_key(k2) && 0 <= p < (m1[k2])@.len() ==> #[trigger] (m1[k2])@[p] < j + 1,
{
    let pre = cviews.take(j as int);
    let cur = cviews.take(j + 1);
    assert(cur.drop_last() =~= pre);
    assert(cur.last() == cviews[j as int]);
    assert(forall|x: int| 0 <= x < j ==> pre[x] == cur[x]);

    // Every key of the new map has a correct bucket for the extended
    // chunk prefix.
    assert forall|k2: u64| m1.contains_key(k2) implies bucket_ok(
        (#[trigger] m1[k2])@,
        k2,
        cur,
        bytes,
    ) by {
        if k2 == k {
            let b = nb@;
            assert(b.len() > 0);
            if m0.contains_key(k) {
                assert(bucket_ok(b0, k, pre, bytes));
            }
            // Sortedness: old entries are below `j`, the new last entry is `j`.
            assert forall|p: int, q: int| 0 <= p < q < b.len() implies b[p] < b[q] by {
                if q < b.len() - 1 {
                    assert(b0[p] < b0[q]);
                } else {
                    assert(b[p] == b0[p]);
                }
            }
            // Soundness: every entry's chunk carries key `k`.
            assert forall|p: int|
                0 <= p < b.len() implies (#[trigger] b[p]) < cur.len() && pack_id(
                chunk_id_spec(bytes, cur[b[p] as int]),
            ) == k by {
                if p < b.len() - 1 {
                    assert(b[p] == b0[p]);
                    assert(b0[p] < pre.len() && pack_id(chunk_id_spec(bytes, pre[b0[p] as int]))
                        == k);
                    assert(cur[b0[p] as int] == pre[b0[p] as int]);
                } else {
                    assert(b[p] == j);
                }
            }
            // Completeness: every chunk of the prefix with key `k` is listed.
            assert forall|j2: usize|
                j2 < cur.len() && pack_id(#[trigger] chunk_id_spec(bytes, cur[j2 as int]))
                    == k implies b.contains(j2) by {
                if j2 < j {
                    assert(chunk_id_spec(bytes, pre[j2 as int]) == chunk_id_spec(
                        bytes,
                        cur[j2 as int],
                    ));
                    assert(m0.contains_key(pack_id(chunk_id_spec(bytes, pre[j2 as int]))));
                    assert(b0.contains(j2));
                    let p = choose|p: int| 0 <= p < b0.len() && b0[p] == j2;
                    assert(b[p] == j2);
                } else {
                    assert(b[b.len() - 1] == j2);
                }
            }
        } else {
            assert(m1[k2] == m0[k2]);
            let b = (m0[k2])@;
            assert(bucket_ok(b, k2, pre, bytes));
            assert forall|p: int|
                0 <= p < b.len() implies (#[trigger] b[p]) < cur.len() && pack_id(
                chunk_id_spec(bytes, cur[b[p] as int]),
            ) == k2 by {
                assert(b[p] < pre.len() && pack_id(chunk_id_spec(bytes, pre[b[p] as int])) == k2);
                assert(cur[b[p] as int] == pre[b[p] as int]);
            }
            assert forall|j2: usize|
                j2 < cur.len() && pack_id(#[trigger] chunk_id_spec(bytes, cur[j2 as int]))
                    == k2 implies b.contains(j2) by {
                if j2 < j {
                    assert(chunk_id_spec(bytes, pre[j2 as int]) == chunk_id_spec(
                        bytes,
                        cur[j2 as int],
                    ));
                } else {
                    assert(j2 == j);
                    assert(chunk_id_spec(bytes, cur[j2 as int]) == chunk_id_spec(
                        bytes,
                        cviews[j as int],
                    ));
                    assert(false);
                }
            }
        }
    }

    // Every chunk of the extended prefix has its key present.
    assert forall|j2: int| 0 <= j2 < cur.len() implies m1.contains_key(
        pack_id(#[trigger] chunk_id_spec(bytes, cur[j2])),
    ) by {
        if j2 < j {
            assert(chunk_id_spec(bytes, cur[j2]) == chunk_id_spec(bytes, pre[j2]));
            assert(m0.contains_key(pack_id(chunk_id_spec(bytes, pre[j2]))));
        } else {
            assert(chunk_id_spec(bytes, cur[j2]) == chunk_id_spec(bytes, cviews[j as int]));
        }
    }
}

} // verus!
