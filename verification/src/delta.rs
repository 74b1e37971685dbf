//! Delta matching: classify every destination chunk as a byte-verified
//! copy of a source chunk or as new literal data, with aggregate
//! statistics.
//!
//! Identity (CRC-32 + length) equality only nominates candidates; a
//! candidate counts as a match solely after its bytes compare equal.
//! Matching is greedy: the first byte-verified candidate in source scan
//! order wins.

use vstd::prelude::*;

use crate::chunking::{
    chunk_buffer, chunk_bytes, chunk_in_bounds, chunks_spec, chunks_tile, lemma_chunks_partition,
    range_eq, ChunkMeta, ChunkSpec, MAX_CHUNK,
};
use crate::index::{
    bucket_ok, chunk_id, chunk_id_spec, index_ok, lemma_pack_id_injective, pack, pack_id,
    ChunkIndex,
};

verus! {

/// A destination chunk reconstructible from the source: `length` bytes
/// at `dest_offset` of the destination equal the bytes at
/// `source_offset` of the source.
#[derive(Clone, Copy, PartialEq, Eq, Structural, Debug)]
pub struct MatchEntry {
    pub dest_offset: usize,
    pub source_offset: usize,
    pub length: usize,
}

/// Mathematical counterpart of `MatchEntry`.
pub struct MatchSpec {
    pub dest_offset: int,
    pub source_offset: int,
    pub length: int,
}

impl View for MatchEntry {
    type V = MatchSpec;

    open spec fn view(&self) -> MatchSpec {
        MatchSpec {
            dest_offset: self.dest_offset as int,
            source_offset: self.source_offset as int,
            length: self.length as int,
        }
    }
}

/// A destination chunk with no byte-identical source chunk: `length`
/// bytes at `dest_offset` of the destination are new literal data.
#[derive(Clone, Copy, PartialEq, Eq, Structural, Debug)]
pub struct UnmatchedEntry {
    pub dest_offset: usize,
    pub length: usize,
}

/// Mathematical counterpart of `UnmatchedEntry`.
pub struct UnmatchedSpec {
    pub dest_offset: int,
    pub length: int,
}

impl View for UnmatchedEntry {
    type V = UnmatchedSpec;

    open spec fn view(&self) -> UnmatchedSpec {
        UnmatchedSpec { dest_offset: self.dest_offset as int, length: self.length as int }
    }
}

/// Source chunk `sc` reconstructs destination chunk `dc`: their bytes
/// are equal.
pub open spec fn chunk_match(src: Seq<u8>, sc: ChunkSpec, dst: Seq<u8>, dc: ChunkSpec) -> bool {
    chunk_bytes(src, sc) == chunk_bytes(dst, dc)
}

/// Source chunk `sc` merely shares destination chunk `dc`'s identity.
pub open spec fn id_matches(src: Seq<u8>, sc: ChunkSpec, dst: Seq<u8>, dc: ChunkSpec) -> bool {
    chunk_id_spec(src, sc) == chunk_id_spec(dst, dc)
}

/// Position of the first source chunk at or after `j` whose bytes equal
/// destination chunk `dc`'s bytes.
pub open spec fn first_match_from(
    scs: Seq<ChunkSpec>,
    j: int,
    src: Seq<u8>,
    dst: Seq<u8>,
    dc: ChunkSpec,
) -> Option<int>
    decreases scs.len() - j,
{
    if j < 0 || j >= scs.len() {
        None
    } else if chunk_match(src, scs[j], dst, dc) {
        Some(j)
    } else {
        first_match_from(scs, j + 1, src, dst, dc)
    }
}

/// Position of the first byte-identical source chunk, if any; greedy
/// matching picks exactly this chunk.
pub open spec fn first_match(scs: Seq<ChunkSpec>, src: Seq<u8>, dst: Seq<u8>, dc: ChunkSpec) -> Option<
    int,
> {
    first_match_from(scs, 0, src, dst, dc)
}

/// Whether the scan for `dc` passes a candidate that shares its
/// identity but fails byte verification, before any byte match.
pub open spec fn collided_from(
    scs: Seq<ChunkSpec>,
    j: int,
    src: Seq<u8>,
    dst: Seq<u8>,
    dc: ChunkSpec,
) -> bool
    decreases scs.len() - j,
{
    if j < 0 || j >= scs.len() {
        false
    } else if chunk_match(src, scs[j], dst, dc) {
        false
    } else if id_matches(src, scs[j], dst, dc) {
        true
    } else {
        collided_from(scs, j + 1, src, dst, dc)
    }
}

/// Some source chunk shares `dc`'s identity.
pub open spec fn some_id_match(scs: Seq<ChunkSpec>, src: Seq<u8>, dst: Seq<u8>, dc: ChunkSpec) -> bool {
    exists|j: int| 0 <= j < scs.len() && id_matches(src, #[trigger] scs[j], dst, dc)
}

/// The matched entries for destination chunks `d..`, in destination
/// order: one entry per destination chunk with a byte-identical source
/// chunk, referencing the first such chunk.
pub open spec fn matched_from(
    scs: Seq<ChunkSpec>,
    dcs: Seq<ChunkSpec>,
    src: Seq<u8>,
    dst: Seq<u8>,
    d: int,
) -> Seq<MatchSpec>
    decreases dcs.len() - d,
{
    if d < 0 || d >= dcs.len() {
        Seq::empty()
    } else {
        let rest = matched_from(scs, dcs, src, dst, d + 1);
        match first_match(scs, src, dst, dcs[d]) {
            Some(j) => seq![
                MatchSpec {
                    dest_offset: dcs[d].start,
                    source_offset: scs[j].start,
                    length: dcs[d].len,
                },
            ] + rest,
            None => rest,
        }
    }
}

/// The unmatched entries for destination chunks `d..`, in destination
/// order: one entry per destination chunk with no byte-identical source
/// chunk.
pub open spec fn unmatched_from(
    scs: Seq<ChunkSpec>,
    dcs: Seq<ChunkSpec>,
    src: Seq<u8>,
    dst: Seq<u8>,
    d: int,
) -> Seq<UnmatchedSpec>
    decreases dcs.len() - d,
{
    if d < 0 || d >= dcs.len() {
        Seq::empty()
    } else {
        let rest = unmatched_from(scs, dcs, src, dst, d + 1);
        match first_match(scs, src, dst, dcs[d]) {
            Some(j) => rest,
            None => seq![UnmatchedSpec { dest_offset: dcs[d].start, length: dcs[d].len }] + rest,
        }
    }
}

/// Total bytes of the matched destination chunks `d..`.
pub open spec fn matched_bytes_from(
    scs: Seq<ChunkSpec>,
    dcs: Seq<ChunkSpec>,
    src: Seq<u8>,
    dst: Seq<u8>,
    d: int,
) -> int
    decreases dcs.len() - d,
{
    if d < 0 || d >= dcs.len() {
        0
    } else {
        (if first_match(scs, src, dst, dcs[d]) is Some {
            dcs[d].len
        } else {
            0
        }) + matched_bytes_from(scs, dcs, src, dst, d + 1)
    }
}

/// Total bytes of the unmatched destination chunks `d..`.
pub open spec fn unmatched_bytes_from(
    scs: Seq<ChunkSpec>,
    dcs: Seq<ChunkSpec>,
    src: Seq<u8>,
    dst: Seq<u8>,
    d: int,
) -> int
    decreases dcs.len() - d,
{
    if d < 0 || d >= dcs.len() {
        0
    } else {
        (if first_match(scs, src, dst, dcs[d]) is None {
            dcs[d].len
        } else {
            0
        }) + unmatched_bytes_from(scs, dcs, src, dst, d + 1)
    }
}

/// Number of destination chunks `d..` whose scan passed a failed
/// identity collision.
pub open spec fn collided_count_from(
    scs: Seq<ChunkSpec>,
    dcs: Seq<ChunkSpec>,
    src: Seq<u8>,
    dst: Seq<u8>,
    d: int,
) -> int
    decreases dcs.len() - d,
{
    if d < 0 || d >= dcs.len() {
        0
    } else {
        (if collided_from(scs, 0, src, dst, dcs[d]) {
            1int
        } else {
            0int
        }) + collided_count_from(scs, dcs, src, dst, d + 1)
    }
}

/// Number of destination chunks `d..` whose identity is absent from the
/// source.
pub open spec fn miss_count_from(
    scs: Seq<ChunkSpec>,
    dcs: Seq<ChunkSpec>,
    src: Seq<u8>,
    dst: Seq<u8>,
    d: int,
) -> int
    decreases dcs.len() - d,
{
    if d < 0 || d >= dcs.len() {
        0
    } else {
        (if !some_id_match(scs, src, dst, dcs[d]) {
            1int
        } else {
            0int
        }) + miss_count_from(scs, dcs, src, dst, d + 1)
    }
}

/// The matched entries of the whole delta.
pub open spec fn matched_spec(src: Seq<u8>, dst: Seq<u8>) -> Seq<MatchSpec> {
    matched_from(chunks_spec(src), chunks_spec(dst), src, dst, 0)
}

/// The unmatched entries of the whole delta.
pub open spec fn unmatched_spec(src: Seq<u8>, dst: Seq<u8>) -> Seq<UnmatchedSpec> {
    unmatched_from(chunks_spec(src), chunks_spec(dst), src, dst, 0)
}

/// Byte-identical chunks share their identity: a byte match is always
/// an identity match.
pub proof fn lemma_match_implies_id(src: Seq<u8>, sc: ChunkSpec, dst: Seq<u8>, dc: ChunkSpec)
    requires
        chunk_match(src, sc, dst, dc),
    ensures
        id_matches(src, sc, dst, dc),
{
}

/// What `first_match_from` returns: the first byte-identical candidate
/// at or after `j`, if any.
pub proof fn lemma_first_match_from(
    scs: Seq<ChunkSpec>,
    j: int,
    src: Seq<u8>,
    dst: Seq<u8>,
    dc: ChunkSpec,
)
    requires
        0 <= j <= scs.len(),
    ensures
        match first_match_from(scs, j, src, dst, dc) {
            Some(p) => j <= p < scs.len() && chunk_match(src, scs[p], dst, dc) && forall|q: int|
                j <= q < p ==> !chunk_match(src, #[trigger] scs[q], dst, dc),
            None => forall|q: int| j <= q < scs.len() ==> !chunk_match(src, #[trigger] scs[q], dst, dc),
        },
    decreases scs.len() - j,
{
    if j < scs.len() && !chunk_match(src, scs[j], dst, dc) {
        lemma_first_match_from(scs, j + 1, src, dst, dc);
    }
}

/// Aggregate statistics of one delta computation.
#[derive(Clone, Copy, PartialEq, Eq, Structural, Debug)]
pub struct DeltaStats {
    /// Destination bytes reconstructible from the source.
    pub matched_bytes: u64,
    /// Destination bytes classified as new literal data.
    pub unmatched_bytes: u64,
    /// Destination chunks whose scan passed a candidate that shared
    /// their identity but failed byte verification.
    pub crc_collisions: u64,
    /// Destination chunks whose identity is absent from the source.
    pub id_misses: u64,
    /// Chunks of the source buffer.
    pub source_chunks: u64,
    /// Chunks of the destination buffer.
    pub dest_chunks: u64,
    /// Unmatched chunks that reused an earlier literal buffer.
    pub duplicates_eliminated: u64,
    /// Length of the destination buffer in bytes.
    pub destination_size: u64,
}

/// Result of a delta computation: the matched and unmatched
/// destination chunks, both in destination order, plus statistics.
/// Together the two entry sequences tile the destination exactly.
pub struct DeltaResult {
    pub matched: Vec<MatchEntry>,
    pub unmatched: Vec<UnmatchedEntry>,
    pub stats: DeltaStats,
}

/// Candidates without an identity match change nothing: the scan state
/// at `x` equals the scan state at `y` when no chunk in `[x, y)` shares
/// `dc`'s identity.
pub proof fn lemma_scan_skip(
    scs: Seq<ChunkSpec>,
    x: int,
    y: int,
    src: Seq<u8>,
    dst: Seq<u8>,
    dc: ChunkSpec,
)
    requires
        0 <= x <= y <= scs.len(),
        forall|q: int| x <= q < y ==> !id_matches(src, #[trigger] scs[q], dst, dc),
    ensures
        first_match_from(scs, x, src, dst, dc) == first_match_from(scs, y, src, dst, dc),
        collided_from(scs, x, src, dst, dc) == collided_from(scs, y, src, dst, dc),
    decreases y - x,
{
    if x < y {
        assert(!id_matches(src, scs[x], dst, dc));
        assert(!chunk_match(src, scs[x], dst, dc)) by {
            if chunk_match(src, scs[x], dst, dc) {
                lemma_match_implies_id(src, scs[x], dst, dc);
            }
        }
        lemma_scan_skip(scs, x + 1, y, src, dst, dc);
    }
}

/// The global scan position a bucket scan at position `p` stands for:
/// the chunk listed there, or past the last chunk when the bucket is
/// exhausted.
spec fn scan_pos(b: Seq<usize>, p: int, n: int) -> int {
    if p < b.len() {
        b[p] as int
    } else {
        n
    }
}
/// With no bucket for `dc`'s identity, no source chunk shares it: the
/// chunk is unmatched, collision-free, and an identity miss.
proof fn lemma_no_bucket(
    m: Map<u64, Vec<usize>>,
    scs: Seq<ChunkSpec>,
    src: Seq<u8>,
    dst: Seq<u8>,
    dcv: ChunkSpec,
    key: u64,
)
    requires
        index_ok(m, scs, src),
        key == pack_id(chunk_id_spec(dst, dcv)),
        !m.contains_key(key),
    ensures
        !some_id_match(scs, src, dst, dcv),
        first_match(scs, src, dst, dcv) is None,
        !collided_from(scs, 0, src, dst, dcv),
{
    assert(!some_id_match(scs, src, dst, dcv)) by {
        if some_id_match(scs, src, dst, dcv) {
            let j = choose|j: int|
                0 <= j < scs.len() && id_matches(src, #[trigger] scs[j], dst, dcv);
            assert(m.contains_key(pack_id(chunk_id_spec(src, scs[j]))));
        }
    }
    assert forall|q: int| 0 <= q < scs.len() implies !id_matches(
        src,
        #[trigger] scs[q],
        dst,
        dcv,
    ) by {
        if id_matches(src, scs[q], dst, dcv) {
            assert(some_id_match(scs, src, dst, dcv));
        }
    }
    lemma_scan_skip(scs, 0, scs.len() as int, src, dst, dcv);
}

/// A bucket for `dc`'s identity proves an identity match, and the scan
/// may jump straight to its first entry: earlier chunks share no
/// identity with `dc`.
proof fn lemma_bucket_head(
    b: Seq<usize>,
    scs: Seq<ChunkSpec>,
    src: Seq<u8>,
    dst: Seq<u8>,
    dcv: ChunkSpec,
    key: u64,
)
    requires
        bucket_ok(b, key, scs, src),
        key == pack_id(chunk_id_spec(dst, dcv)),
    ensures
        some_id_match(scs, src, dst, dcv),
        first_match(scs, src, dst, dcv) == first_match_from(
            scs,
            scan_pos(b, 0, scs.len() as int),
            src,
            dst,
            dcv,
        ),
        collided_from(scs, 0, src, dst, dcv) == collided_from(
            scs,
            scan_pos(b, 0, scs.len() as int),
            src,
            dst,
            dcv,
        ),
{
    let j0 = b[0];
    lemma_pack_id_injective(chunk_id_spec(src, scs[j0 as int]), chunk_id_spec(dst, dcv));
    assert(id_matches(src, scs[j0 as int], dst, dcv));
    assert forall|q: int| 0 <= q < j0 as int implies !id_matches(
        src,
        #[trigger] scs[q],
        dst,
        dcv,
    ) by {
        if id_matches(src, scs[q], dst, dcv) {
            lemma_pack_id_injective(chunk_id_spec(src, scs[q]), chunk_id_spec(dst, dcv));
            assert(pack_id(chunk_id_spec(src, scs[q])) == key);
            assert(b.contains(q as usize));
            let pq = choose|pq: int| 0 <= pq < b.len() && b[pq] == q as usize;
            if pq > 0 {
                assert(b[0] < b[pq]);
            }
        }
    }
    lemma_scan_skip(scs, 0, j0 as int, src, dst, dcv);
}

/// Every bucket entry is an identity-matching source chunk of the same
/// length as `dc`.
proof fn lemma_bucket_candidate(
    b: Seq<usize>,
    p: int,
    scs: Seq<ChunkSpec>,
    src: Seq<u8>,
    dst: Seq<u8>,
    dcv: ChunkSpec,
    key: u64,
)
    requires
        bucket_ok(b, key, scs, src),
        key == pack_id(chunk_id_spec(dst, dcv)),
        0 <= p < b.len(),
        forall|i: int| 0 <= i < scs.len() ==> chunk_in_bounds(#[trigger] scs[i], src.len() as int),
        forall|i: int| 0 <= i < scs.len() ==> (#[trigger] scs[i]).len <= MAX_CHUNK,
        chunk_in_bounds(dcv, dst.len() as int),
        dcv.len <= MAX_CHUNK,
    ensures
        (b[p] as int) < scs.len(),
        id_matches(src, scs[b[p] as int], dst, dcv),
        scs[b[p] as int].len == dcv.len,
{
    let g = b[p] as int;
    lemma_pack_id_injective(chunk_id_spec(src, scs[g]), chunk_id_spec(dst, dcv));
    assert(id_matches(src, scs[g], dst, dcv));
    assert(chunk_bytes(src, scs[g]).len() == scs[g].len);
    assert(chunk_bytes(dst, dcv).len() == dcv.len);
    assert((scs[g].len as u32) == (dcv.len as u32));
}

/// After a failed verification at bucket position `p`, the scan state
/// carries over to the next bucket entry: the chunks in between share
/// no identity with `dc`.
proof fn lemma_bucket_advance(
    b: Seq<usize>,
    p: int,
    scs: Seq<ChunkSpec>,
    src: Seq<u8>,
    dst: Seq<u8>,
    dcv: ChunkSpec,
    key: u64,
)
    requires
        bucket_ok(b, key, scs, src),
        key == pack_id(chunk_id_spec(dst, dcv)),
        0 <= p < b.len(),
        !chunk_match(src, scs[b[p] as int], dst, dcv),
        scs.len() <= usize::MAX,
    ensures
        collided_from(scs, b[p] as int, src, dst, dcv),
        first_match_from(scs, b[p] as int, src, dst, dcv) == first_match_from(
            scs,
            scan_pos(b, p + 1, scs.len() as int),
            src,
            dst,
            dcv,
        ),
{
    let g = b[p] as int;
    lemma_pack_id_injective(chunk_id_spec(src, scs[g]), chunk_id_spec(dst, dcv));
    assert(id_matches(src, scs[g], dst, dcv));
    let g2 = scan_pos(b, p + 1, scs.len() as int);
    assert forall|q: int| g + 1 <= q < g2 implies !id_matches(
        src,
        #[trigger] scs[q],
        dst,
        dcv,
    ) by {
        if id_matches(src, scs[q], dst, dcv) {
            lemma_pack_id_injective(chunk_id_spec(src, scs[q]), chunk_id_spec(dst, dcv));
            assert(pack_id(chunk_id_spec(src, scs[q])) == key);
            assert(b.contains(q as usize));
            let pq = choose|pq: int| 0 <= pq < b.len() && b[pq] == q as usize;
            if pq <= p {
                assert(b[pq] <= b[p]);
            }
            if p + 1 < b.len() && pq >= p + 1 {
                assert(b[p + 1] <= b[pq]);
            }
        }
    }
    lemma_scan_skip(scs, g + 1, g2, src, dst, dcv);
}

/// Classify one destination chunk against the source index: the first
/// byte-identical source chunk if one exists, whether the scan passed a
/// failed identity collision, and whether the identity missed entirely.
#[verifier::loop_isolation(false)]
#[verifier::rlimit(60)]
fn classify_chunk(
    source: &Vec<u8>,
    destination: &Vec<u8>,
    src_chunks: &Vec<ChunkMeta>,
    index: &ChunkIndex,
    dc: ChunkMeta,
) -> (r: (Option<MatchEntry>, bool, bool))
    requires
        src_chunks@.map_values(|c: ChunkMeta| c@) == chunks_spec(source@),
        index_ok(index.map@, chunks_spec(source@), source@),
        chunk_in_bounds(dc@, destination@.len() as int),
        dc@.len <= MAX_CHUNK,
    ensures
        ({
            let scs = chunks_spec(source@);
            let fm = first_match(scs, source@, destination@, dc@);
            &&& match r.0 {
                Some(e) => fm is Some && e@ == (MatchSpec {
                    dest_offset: dc@.start,
                    source_offset: scs[fm.unwrap()].start,
                    length: dc@.len,
                }),
                None => fm is None,
            }
            &&& r.1 == collided_from(scs, 0, source@, destination@, dc@)
            &&& r.2 == !some_id_match(scs, source@, destination@, dc@)
        }),
{
    let ghost src = source@;
    let ghost dst = destination@;
    let ghost scs = chunks_spec(src);
    let ghost dcv = dc@;
    proof {
        lemma_chunks_partition(src);
        vstd::std_specs::vec::axiom_spec_len(source);
        vstd::std_specs::vec::axiom_spec_len(destination);
        vstd::std_specs::vec::axiom_spec_len(src_chunks);
        assert(scs.len() == src_chunks@.len());
    }
    let id = chunk_id(destination, &dc);
    let key = pack(id);
    match index.get_bucket(key) {
        None => {
            proof {
                lemma_no_bucket(index.map@, scs, src, dst, dcv, key);
            }
            (None, false, true)
        },
        Some(b) => {
            proof {
                lemma_bucket_head(b@, scs, src, dst, dcv, key);
            }
            let mut found: Option<usize> = None;
            let mut collided: bool = false;
            let mut p: usize = 0;
            while found.is_none() && p < b.len()
                invariant
                    p <= b@.len(),
                    match found {
                        Some(j) => {
                            &&& (j as int) < scs.len()
                            &&& first_match(scs, src, dst, dcv) == Some(j as int)
                            &&& collided == collided_from(scs, 0, src, dst, dcv)
                        },
                        None => {
                            &&& first_match(scs, src, dst, dcv) == first_match_from(
                                scs,
                                scan_pos(b@, p as int, scs.len() as int),
                                src,
                                dst,
                                dcv,
                            )
                            &&& collided_from(scs, 0, src, dst, dcv) == (collided
                                || collided_from(
                                scs,
                                scan_pos(b@, p as int, scs.len() as int),
                                src,
                                dst,
                                dcv,
                            ))
                        },
                    },
                decreases b@.len() - p,
            {
                let j = b[p];
                let ghost g = b@[p as int] as int;
                proof {
                    lemma_bucket_candidate(b@, p as int, scs, src, dst, dcv, key);
                }
                let sc = src_chunks[j];
                proof {
                    assert(sc@ == scs[g]);
                }
                if range_eq(source, sc.start, destination, dc.start, dc.len) {
                    proof {
                        assert(chunk_match(src, scs[g], dst, dcv));
                        assert(first_match_from(scs, g, src, dst, dcv) == Some(g));
                        assert(collided_from(scs, g, src, dst, dcv) == false);
                    }
                    found = Some(j);
                } else {
                    proof {
                        assert(!chunk_match(src, scs[g], dst, dcv));
                        lemma_bucket_advance(b@, p as int, scs, src, dst, dcv, key);
                    }
                    collided = true;
                }
                p = p + 1;
            }
            match found {
                Some(j) => {
                    let sc = src_chunks[j];
                    proof {
                        assert(scs[j as int] == sc@);
                    }
                    (
                        Some(
                            MatchEntry {
                                dest_offset: dc.start,
                                source_offset: sc.start,
                                length: dc.len,
                            },
                        ),
                        collided,
                        false,
                    )
                },
                None => (None, collided, false),
            }
        },
    }
}

/// Every unmatched entry of the matcher's output lies inside the
/// destination.
proof fn lemma_unmatched_entries_in_bounds(
    scs: Seq<ChunkSpec>,
    dcs: Seq<ChunkSpec>,
    src: Seq<u8>,
    dst: Seq<u8>,
    d: int,
)
    requires
        0 <= d <= dcs.len(),
        forall|i: int| 0 <= i < dcs.len() ==> chunk_in_bounds(#[trigger] dcs[i], dst.len() as int),
    ensures
        crate::dedup::unmatched_in_bounds(unmatched_from(scs, dcs, src, dst, d), dst.len() as int),
    decreases dcs.len() - d,
{
    if d < dcs.len() {
        lemma_unmatched_entries_in_bounds(scs, dcs, src, dst, d + 1);
        let rest = unmatched_from(scs, dcs, src, dst, d + 1);
        let cur = unmatched_from(scs, dcs, src, dst, d);
        match first_match(scs, src, dst, dcs[d]) {
            Some(_) => {
            },
            None => {
                let head = UnmatchedSpec { dest_offset: dcs[d].start, length: dcs[d].len };
                assert(cur == seq![head] + rest);
                assert forall|i: int|
                    0 <= i < cur.len() implies 0 <= (#[trigger] cur[i]).dest_offset && 0
                    <= cur[i].length && cur[i].dest_offset + cur[i].length <= dst.len() by {
                    if i > 0 {
                        assert(cur[i] == rest[i - 1]);
                    }
                }
            },
        }
    }
}

/// Compute the delta from `source` to `destination`.
///
/// Every destination chunk is classified: matched entries name the
/// first byte-identical source chunk, unmatched entries are exactly the
/// chunks with no byte-identical source chunk. The result is a pure
/// function of the two buffers.
#[verifier::loop_isolation(false)]
#[verifier::rlimit(100)]
pub fn compute_delta(source: &Vec<u8>, destination: &Vec<u8>) -> (r: DeltaResult)
    ensures
        r.matched@.map_values(|e: MatchEntry| e@) == matched_spec(source@, destination@),
        r.unmatched@.map_values(|e: UnmatchedEntry| e@) == unmatched_spec(source@, destination@),
        r.stats.matched_bytes as int == matched_bytes_from(
            chunks_spec(source@),
            chunks_spec(destination@),
            source@,
            destination@,
            0,
        ),
        r.stats.unmatched_bytes as int == unmatched_bytes_from(
            chunks_spec(source@),
            chunks_spec(destination@),
            source@,
            destination@,
            0,
        ),
        r.stats.crc_collisions as int == collided_count_from(
            chunks_spec(source@),
            chunks_spec(destination@),
            source@,
            destination@,
            0,
        ),
        r.stats.id_misses as int == miss_count_from(
            chunks_spec(source@),
            chunks_spec(destination@),
            source@,
            destination@,
            0,
        ),
        r.stats.source_chunks as int == chunks_spec(source@).len(),
        r.stats.dest_chunks as int == chunks_spec(destination@).len(),
        r.stats.destination_size as int == destination@.len(),
        r.stats.matched_bytes as int + r.stats.unmatched_bytes as int == destination@.len(),
        r.stats.duplicates_eliminated as int == unmatched_spec(source@, destination@).len()
            - crate::dedup::uniques(
            crate::dedup::payloads(unmatched_spec(source@, destination@), destination@),
        ).len(),
{
    let ghost src = source@;
    let ghost dst = destination@;
    let ghost scs = chunks_spec(src);
    let ghost dcs = chunks_spec(dst);
    proof {
        lemma_chunks_partition(src);
        lemma_chunks_partition(dst);
        vstd::std_specs::vec::axiom_spec_len(source);
        vstd::std_specs::vec::axiom_spec_len(destination);
    }
    let src_chunks = chunk_buffer(source);
    let dst_chunks = chunk_buffer(destination);
    proof {
        assert forall|i: int| 0 <= i < src_chunks@.len() implies chunk_in_bounds(
            (#[trigger] src_chunks@[i])@,
            source@.len() as int,
        ) && src_chunks@[i]@.len <= u32::MAX by {
            assert(src_chunks@[i]@ == scs[i]);
        }
    }
    let index = ChunkIndex::build(source, &src_chunks);
    let mut matched: Vec<MatchEntry> = Vec::new();
    let mut unmatched: Vec<UnmatchedEntry> = Vec::new();
    let mut matched_bytes: u64 = 0;
    let mut unmatched_bytes: u64 = 0;
    let mut crc_collisions: u64 = 0;
    let mut id_misses: u64 = 0;
    let mut d: usize = 0;
    while d < dst_chunks.len()
        invariant
            d <= dcs.len(),
            matched_from(scs, dcs, src, dst, 0) == matched@.map_values(|e: MatchEntry| e@)
                + matched_from(scs, dcs, src, dst, d as int),
            unmatched_from(scs, dcs, src, dst, 0) == unmatched@.map_values(|e: UnmatchedEntry| e@)
                + unmatched_from(scs, dcs, src, dst, d as int),
            matched_bytes_from(scs, dcs, src, dst, 0) == matched_bytes + matched_bytes_from(
                scs,
                dcs,
                src,
                dst,
                d as int,
            ),
            unmatched_bytes_from(scs, dcs, src, dst, 0) == unmatched_bytes + unmatched_bytes_from(
                scs,
                dcs,
                src,
                dst,
                d as int,
            ),
            collided_count_from(scs, dcs, src, dst, 0) == crc_collisions + collided_count_from(
                scs,
                dcs,
                src,
                dst,
                d as int,
            ),
            miss_count_from(scs, dcs, src, dst, 0) == id_misses + miss_count_from(
                scs,
                dcs,
                src,
                dst,
                d as int,
            ),
            matched_bytes + unmatched_bytes == if d < dcs.len() {
                dcs[d as int].start
            } else {
                dst.len() as int
            },
            crc_collisions <= d,
            id_misses <= d,
        decreases dcs.len() - d,
    {
        let dc = dst_chunks[d];
        proof {
            assert(dc@ == dcs[d as int]);
        }
        let ghost dcv = dcs[d as int];
        let (found, collided, missed) = classify_chunk(source, destination, &src_chunks, &index, dc);
        match found {
            Some(e) => {
                proof {
                    assert(matched_from(scs, dcs, src, dst, d as int) == seq![e@] + matched_from(
                        scs,
                        dcs,
                        src,
                        dst,
                        d + 1,
                    ));
                    assert(unmatched_from(scs, dcs, src, dst, d as int) == unmatched_from(
                        scs,
                        dcs,
                        src,
                        dst,
                        d + 1,
                    ));
                    assert(matched@.push(e).map_values(|x: MatchEntry| x@) =~= matched@.map_values(
                        |x: MatchEntry| x@,
                    ).push(e@));
                    assert(matched@.map_values(|x: MatchEntry| x@).push(e@) + matched_from(
                        scs,
                        dcs,
                        src,
                        dst,
                        d + 1,
                    ) =~= matched@.map_values(|x: MatchEntry| x@) + (seq![e@] + matched_from(
                        scs,
                        dcs,
                        src,
                        dst,
                        d + 1,
                    )));
                }
                matched.push(e);
                matched_bytes = matched_bytes + dc.len as u64;
            },
            None => {
                let e = UnmatchedEntry { dest_offset: dc.start, length: dc.len };
                proof {
                    assert(first_match(scs, src, dst, dcv) is None);
                    assert(unmatched_from(scs, dcs, src, dst, d as int) == seq![e@]
                        + unmatched_from(scs, dcs, src, dst, d + 1));
                    assert(matched_from(scs, dcs, src, dst, d as int) == matched_from(
                        scs,
                        dcs,
                        src,
                        dst,
                        d + 1,
                    ));
                    assert(unmatched@.push(e).map_values(|x: UnmatchedEntry| x@)
                        =~= unmatched@.map_values(|x: UnmatchedEntry| x@).push(e@));
                    assert(unmatched@.map_values(|x: UnmatchedEntry| x@).push(e@) + unmatched_from(
                        scs,
                        dcs,
                        src,
                        dst,
                        d + 1,
                    ) =~= unmatched@.map_values(|x: UnmatchedEntry| x@) + (seq![e@]
                        + unmatched_from(scs, dcs, src, dst, d + 1)));
                }
                unmatched.push(e);
                unmatched_bytes = unmatched_bytes + dc.len as u64;
            },
        }
        if collided {
            crc_collisions = crc_collisions + 1;
        }
        if missed {
            id_misses = id_misses + 1;
        }
        d = d + 1;
    }
    proof {
        assert(matched_from(scs, dcs, src, dst, dcs.len() as int) =~= Seq::<MatchSpec>::empty());
        assert(matched@.map_values(|e: MatchEntry| e@) + Seq::<MatchSpec>::empty()
            =~= matched@.map_values(|e: MatchEntry| e@));
        assert(unmatched_from(scs, dcs, src, dst, dcs.len() as int) =~= Seq::<
            UnmatchedSpec,
        >::empty());
        assert(unmatched@.map_values(|e: UnmatchedEntry| e@) + Seq::<UnmatchedSpec>::empty()
            =~= unmatched@.map_values(|e: UnmatchedEntry| e@));
        assert(crate::dedup::unmatched_in_bounds(
            unmatched@.map_values(|e: UnmatchedEntry| e@),
            dst.len() as int,
        )) by {
            lemma_unmatched_entries_in_bounds(scs, dcs, src, dst, 0);
        }
    }
    let dedup = crate::dedup::dedup_literals(&unmatched, destination);
    let stats = DeltaStats {
        matched_bytes,
        unmatched_bytes,
        crc_collisions,
        id_misses,
        source_chunks: src_chunks.len() as u64,
        dest_chunks: dst_chunks.len() as u64,
        duplicates_eliminated: dedup.eliminated,
        destination_size: destination.len() as u64,
    };
    DeltaResult { matched, unmatched, stats }
}

/// Matched and unmatched bytes split the destination: their spec totals
/// over the chunks `d..` sum to the bytes those chunks cover.
proof fn lemma_bytes_split_from(
    scs: Seq<ChunkSpec>,
    dcs: Seq<ChunkSpec>,
    src: Seq<u8>,
    dst: Seq<u8>,
    d: int,
)
    requires
        chunks_tile(dcs, 0, dst.len() as int),
        0 <= d <= dcs.len(),
    ensures
        matched_bytes_from(scs, dcs, src, dst, d) + unmatched_bytes_from(scs, dcs, src, dst, d)
            == (if d < dcs.len() {
            dst.len() - dcs[d].start
        } else {
            0
        }),
    decreases dcs.len() - d,
{
    if d < dcs.len() {
        lemma_bytes_split_from(scs, dcs, src, dst, d + 1);
        if d + 1 < dcs.len() {
            assert(dcs[d + 1].start == dcs[d].start + dcs[d].len);
        } else {
            assert(dcs[dcs.len() - 1].start + dcs[dcs.len() - 1].len == dst.len());
        }
    }
}

/// Stats consistency: matched plus unmatched bytes always equal the
/// destination's length.
pub proof fn lemma_stats_consistency(src: Seq<u8>, dst: Seq<u8>)
    ensures
        matched_bytes_from(chunks_spec(src), chunks_spec(dst), src, dst, 0)
            + unmatched_bytes_from(chunks_spec(src), chunks_spec(dst), src, dst, 0) == dst.len(),
{
    lemma_chunks_partition(dst);
    let dcs = chunks_spec(dst);
    lemma_bytes_split_from(chunks_spec(src), dcs, src, dst, 0);
    if dcs.len() > 0 {
        assert(dcs[0].start == 0);
    }
}

/// Identity case: diffing a buffer against itself matches every chunk
/// and leaves nothing unmatched.
pub proof fn lemma_identity_delta(x: Seq<u8>)
    ensures
        unmatched_spec(x, x) =~= Seq::<UnmatchedSpec>::empty(),
        matched_bytes_from(chunks_spec(x), chunks_spec(x), x, x, 0) == x.len(),
        unmatched_bytes_from(chunks_spec(x), chunks_spec(x), x, x, 0) == 0,
        matched_spec(x, x).len() == chunks_spec(x).len(),
{
    lemma_chunks_partition(x);
    let cs = chunks_spec(x);
    lemma_identity_from(cs, x, 0);
    lemma_stats_consistency(x, x);
    lemma_bytes_split_from(cs, cs, x, x, 0);
}

/// Every chunk of a buffer byte-matches itself, so in the identity
/// delta each destination chunk is matched.
proof fn lemma_identity_from(cs: Seq<ChunkSpec>, x: Seq<u8>, d: int)
    requires
        0 <= d <= cs.len(),
    ensures
        unmatched_from(cs, cs, x, x, d) =~= Seq::<UnmatchedSpec>::empty(),
        unmatched_bytes_from(cs, cs, x, x, d) == 0,
        matched_from(cs, cs, x, x, d).len() == cs.len() - d,
    decreases cs.len() - d,
{
    if d < cs.len() {
        lemma_identity_from(cs, x, d + 1);
        assert(chunk_match(x, cs[d], x, cs[d]));
        lemma_first_match_from(cs, 0, x, x, cs[d]);
        assert(first_match(cs, x, x, cs[d]) is Some);
    }
}

/// Identity case for a buffer that chunks in one piece: the delta is a
/// single matched entry covering the whole buffer. (A buffer of several
/// chunks yields one matched entry per chunk instead.)
pub proof fn lemma_identity_single_chunk(x: Seq<u8>)
    requires
        chunks_spec(x).len() == 1,
    ensures
        matched_spec(x, x) =~= seq![
            MatchSpec { dest_offset: 0, source_offset: 0, length: x.len() as int },
        ],
{
    lemma_chunks_partition(x);
    let cs = chunks_spec(x);
    assert(cs[0].start == 0);
    assert(cs[0].start + cs[0].len == x.len());
    assert(chunk_match(x, cs[0], x, cs[0]));
    lemma_first_match_from(cs, 0, x, x, cs[0]);
    let p = first_match(cs, x, x, cs[0]).unwrap();
    assert(p == 0);
    assert(matched_from(cs, cs, x, x, 1) =~= Seq::<MatchSpec>::empty());
}

/// Disjoint case: when no byte of the source occurs in the destination,
/// nothing matches and every destination byte is literal data.
pub proof fn lemma_disjoint_delta(src: Seq<u8>, dst: Seq<u8>)
    requires
        forall|i: int, j: int|
            0 <= i < src.len() && 0 <= j < dst.len() ==> #[trigger] src[i] != #[trigger] dst[j],
    ensures
        matched_spec(src, dst) =~= Seq::<MatchSpec>::empty(),
        matched_bytes_from(chunks_spec(src), chunks_spec(dst), src, dst, 0) == 0,
        unmatched_bytes_from(chunks_spec(src), chunks_spec(dst), src, dst, 0) == dst.len(),
{
    lemma_chunks_partition(src);
    lemma_chunks_partition(dst);
    lemma_disjoint_from(chunks_spec(src), chunks_spec(dst), src, dst, 0);
    lemma_stats_consistency(src, dst);
}

/// With disjoint byte content, no destination chunk can byte-match any
/// source chunk: a match would equate one source byte with one
/// destination byte.
proof fn lemma_disjoint_from(
    scs: Seq<ChunkSpec>,
    dcs: Seq<ChunkSpec>,
    src: Seq<u8>,
    dst: Seq<u8>,
    d: int,
)
    requires
        forall|i: int, j: int|
            0 <= i < src.len() && 0 <= j < dst.len() ==> #[trigger] src[i] != #[trigger] dst[j],
        forall|i: int| 0 <= i < scs.len() ==> chunk_in_bounds(#[trigger] scs[i], src.len() as int),
        forall|i: int| 0 <= i < dcs.len() ==> chunk_in_bounds(#[trigger] dcs[i], dst.len() as int),
        0 <= d <= dcs.len(),
    ensures
        matched_from(scs, dcs, src, dst, d) =~= Seq::<MatchSpec>::empty(),
        matched_bytes_from(scs, dcs, src, dst, d) == 0,
    decreases dcs.len() - d,
{
    if d < dcs.len() {
        lemma_disjoint_from(scs, dcs, src, dst, d + 1);
        let dc = dcs[d];
        lemma_first_match_from(scs, 0, src, dst, dc);
        match first_match(scs, src, dst, dc) {
            Some(p) => {
                let sc = scs[p];
                assert(chunk_bytes(src, sc) == chunk_bytes(dst, dc));
                assert(chunk_bytes(src, sc)[0] == src[sc.start]);
                assert(chunk_bytes(dst, dc)[0] == dst[dc.start]);
                assert(false);
            },
            None => {
            },
        }
    }
}

/// A matched entry is faithful: both ranges are in bounds and the
/// source bytes equal the destination bytes.
pub open spec fn match_entry_ok(e: MatchSpec, src: Seq<u8>, dst: Seq<u8>) -> bool {
    &&& 0 <= e.dest_offset
    &&& 0 <= e.source_offset
    &&& 1 <= e.length
    &&& e.dest_offset + e.length <= dst.len()
    &&& e.source_offset + e.length <= src.len()
    &&& src.subrange(e.source_offset, e.source_offset + e.length) == dst.subrange(
        e.dest_offset,
        e.dest_offset + e.length,
    )
}

/// Entry correctness and ordering for the tail of the delta: all
/// matched entries are faithful, all unmatched entries lie inside the
/// destination, and every entry's destination offset is at or beyond
/// the chunk `d` starts at.
pub proof fn lemma_delta_entries_ok(
    scs: Seq<ChunkSpec>,
    dcs: Seq<ChunkSpec>,
    src: Seq<u8>,
    dst: Seq<u8>,
    d: int,
)
    requires
        chunks_tile(dcs, 0, dst.len() as int),
        forall|i: int| 0 <= i < scs.len() ==> chunk_in_bounds(#[trigger] scs[i], src.len() as int),
        forall|i: int| 0 <= i < dcs.len() ==> chunk_in_bounds(#[trigger] dcs[i], dst.len() as int),
        0 <= d <= dcs.len(),
    ensures
        ({
            let pos = if d < dcs.len() {
                dcs[d].start
            } else {
                dst.len() as int
            };
            let ms = matched_from(scs, dcs, src, dst, d);
            let es = unmatched_from(scs, dcs, src, dst, d);
            &&& forall|k: int|
                0 <= k < ms.len() ==> match_entry_ok(#[trigger] ms[k], src, dst) && ms[k].dest_offset
                    >= pos
            &&& forall|k: int|
                0 <= k < es.len() ==> 0 <= (#[trigger] es[k]).dest_offset && 1 <= es[k].length
                    && es[k].dest_offset + es[k].length <= dst.len() && es[k].dest_offset >= pos
        }),
    decreases dcs.len() - d,
{
    if d < dcs.len() {
        lemma_delta_entries_ok(scs, dcs, src, dst, d + 1);
        let pos = dcs[d].start;
        let pos2 = if d + 1 < dcs.len() {
            dcs[d + 1].start
        } else {
            dst.len() as int
        };
        assert(pos2 == dcs[d].start + dcs[d].len) by {
            if d + 1 < dcs.len() {
                assert(dcs[d + 1].start == dcs[d].start + dcs[d].len);
            } else {
                assert(dcs[dcs.len() - 1].start + dcs[dcs.len() - 1].len == dst.len());
            }
        }
        let ms = matched_from(scs, dcs, src, dst, d);
        let es = unmatched_from(scs, dcs, src, dst, d);
        let ms2 = matched_from(scs, dcs, src, dst, d + 1);
        let es2 = unmatched_from(scs, dcs, src, dst, d + 1);
        lemma_first_match_from(scs, 0, src, dst, dcs[d]);
        match first_match(scs, src, dst, dcs[d]) {
            Some(p) => {
                let e = MatchSpec {
                    dest_offset: dcs[d].start,
                    source_offset: scs[p].start,
                    length: dcs[d].len,
                };
                assert(ms == seq![e] + ms2);
                assert(es == es2);
                assert(match_entry_ok(e, src, dst)) by {
                    assert(chunk_match(src, scs[p], dst, dcs[d]));
                    assert(chunk_bytes(src, scs[p]).len() == scs[p].len);
                    assert(chunk_bytes(dst, dcs[d]).len() == dcs[d].len);
                    assert(scs[p].len == dcs[d].len);
                }
                assert forall|k: int|
                    0 <= k < ms.len() implies match_entry_ok(#[trigger] ms[k], src, dst)
                    && ms[k].dest_offset >= pos by {
                    if k > 0 {
                        assert(ms[k] == ms2[k - 1]);
                    }
                }
            },
            None => {
                let e = UnmatchedSpec { dest_offset: dcs[d].start, length: dcs[d].len };
                assert(es == seq![e] + es2);
                assert(ms == ms2);
                assert forall|k: int|
                    0 <= k < es.len() implies 0 <= (#[trigger] es[k]).dest_offset
                    && 1 <= es[k].length && es[k].dest_offset + es[k].length <= dst.len()
                    && es[k].dest_offset >= pos by {
                    if k > 0 {
                        assert(es[k] == es2[k - 1]);
                    }
                }
            },
        }
    }
}

} // verus!
