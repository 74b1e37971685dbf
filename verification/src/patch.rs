//! Patch codec: merge a delta into one ordered instruction stream,
//! serialize it with the deduplicated literal blob into a
//! self-describing wire format, and replay a patch over a source buffer
//! to reconstruct the destination exactly.
//!
//! Wire format: the 4-byte magic tag `DELT`; the literal blob's length
//! as a little-endian 64-bit integer; the literal blob; the instruction
//! count as a little-endian 64-bit integer; then one 17-byte record per
//! instruction (a tag byte, the offset, the length, both little-endian
//! 64-bit).

use vstd::prelude::*;

use crate::chunking::{chunk_in_bounds, chunks_tile, ChunkSpec};
use crate::dedup::{
    concat_bufs, dedup_literals, lit_ref_spec, payload_of, payloads, uniques, LiteralRef,
    LiteralRefSpec,
};
use crate::delta::{DeltaResult, MatchEntry, MatchSpec, UnmatchedSpec};

verus! {

/// One reconstruction instruction: copy a range of the source buffer,
/// or a range of the patch's literal blob.
#[derive(Clone, Copy, PartialEq, Eq, Structural, Debug)]
pub enum PatchEntry {
    CopySource { offset: u64, length: u64 },
    CopyLiteral { offset: u64, length: u64 },
}

/// Errors of patch decoding and replay. Decoding never partially
/// applies: a malformed patch is rejected whole.
#[derive(Clone, Copy, PartialEq, Eq, Structural, Debug)]
pub enum PatchError {
    /// The stream does not begin with the magic tag.
    BadMagic,
    /// The stream ends before the announced content.
    Truncated,
    /// The stream continues past the announced content.
    TrailingData,
    /// An instruction carries an unknown tag byte.
    BadTag,
    /// An instruction references bytes outside the source buffer or the
    /// literal blob.
    OutOfRange,
}

/// A patch: the ordered instruction stream plus the literal blob its
/// `CopyLiteral` instructions reference.
pub struct Patch {
    pub entries: Vec<PatchEntry>,
    pub literal: Vec<u8>,
}

/// Mathematical counterpart of `Patch`.
pub struct PatchView {
    pub entries: Seq<PatchEntry>,
    pub literal: Seq<u8>,
}

impl View for Patch {
    type V = PatchView;

    open spec fn view(&self) -> PatchView {
        PatchView { entries: self.entries@, literal: self.literal@ }
    }
}

/// Number of destination bytes an instruction reconstructs.
pub open spec fn entry_len(e: PatchEntry) -> int {
    match e {
        PatchEntry::CopySource { length, .. } => length as int,
        PatchEntry::CopyLiteral { length, .. } => length as int,
    }
}

/// The bytes an instruction reads, or `None` when its range leaves its
/// buffer.
pub open spec fn entry_bytes(e: PatchEntry, src: Seq<u8>, lit: Seq<u8>) -> Option<Seq<u8>> {
    match e {
        PatchEntry::CopySource { offset, length } => if offset + length <= src.len() {
            Some(src.subrange(offset as int, offset + length))
        } else {
            None
        },
        PatchEntry::CopyLiteral { offset, length } => if offset + length <= lit.len() {
            Some(lit.subrange(offset as int, offset + length))
        } else {
            None
        },
    }
}

/// Replay of an instruction sequence: the concatenation of every
/// instruction's bytes, or `None` when any instruction is out of range.
pub open spec fn replay_entries(entries: Seq<PatchEntry>, src: Seq<u8>, lit: Seq<u8>) -> Option<
    Seq<u8>,
>
    decreases entries.len(),
{
    if entries.len() == 0 {
        Some(Seq::empty())
    } else {
        match (entry_bytes(entries[0], src, lit), replay_entries(
            entries.drop_first(),
            src,
            lit,
        )) {
            (Some(b), Some(rest)) => Some(b + rest),
            _ => None,
        }
    }
}

/// Replay of a patch over a source buffer.
pub open spec fn replay(p: PatchView, src: Seq<u8>) -> Option<Seq<u8>> {
    replay_entries(p.entries, src, p.literal)
}

/// An instruction paired with the destination offset it reconstructs.
pub struct InstSpec {
    pub dest: int,
    pub entry: PatchEntry,
}

/// The instruction of a matched entry.
pub open spec fn inst_of_match(e: MatchSpec) -> InstSpec {
    InstSpec {
        dest: e.dest_offset,
        entry: PatchEntry::CopySource { offset: e.source_offset as u64, length: e.length as u64 },
    }
}

/// The instruction of a deduplicated literal reference.
pub open spec fn inst_of_lit(e: LiteralRefSpec) -> InstSpec {
    InstSpec {
        dest: e.dest_offset,
        entry: PatchEntry::CopyLiteral { offset: e.literal_offset as u64, length: e.length as u64 },
    }
}

/// Two-way merge of the matched entries and the literal references by
/// destination offset, from positions `i` and `j` on.
pub open spec fn merge_insts(
    ms: Seq<MatchSpec>,
    ls: Seq<LiteralRefSpec>,
    i: int,
    j: int,
) -> Seq<InstSpec>
    decreases ms.len() - i, ls.len() - j,
    when 0 <= i && 0 <= j
{
    if i >= ms.len() && j >= ls.len() {
        Seq::empty()
    } else if j >= ls.len() || (i < ms.len() && ms[i].dest_offset <= ls[j].dest_offset) {
        seq![inst_of_match(ms[i])] + merge_insts(ms, ls, i + 1, j)
    } else {
        seq![inst_of_lit(ls[j])] + merge_insts(ms, ls, i, j + 1)
    }
}

/// The instructions tile the destination from `pos` to `n`: each starts
/// where the previous ended, is non-empty, and the last ends at `n`.
pub open spec fn insts_tile(insts: Seq<InstSpec>, pos: int, n: int) -> bool
    decreases insts.len(),
{
    if insts.len() == 0 {
        pos == n
    } else {
        &&& insts[0].dest == pos
        &&& 1 <= entry_len(insts[0].entry)
        &&& insts_tile(insts.drop_first(), pos + entry_len(insts[0].entry), n)
    }
}

/// An instruction is faithful: its range lies inside its buffer and its
/// bytes equal the destination bytes it stands for.
pub open spec fn inst_ok(ins: InstSpec, src: Seq<u8>, lit: Seq<u8>, dst: Seq<u8>) -> bool {
    &&& 0 <= ins.dest
    &&& ins.dest + entry_len(ins.entry) <= dst.len()
    &&& entry_bytes(ins.entry, src, lit) == Some(
        dst.subrange(ins.dest, ins.dest + entry_len(ins.entry)),
    )
}

/// The literal references of a full unmatched-entry sequence, in order.
pub open spec fn lit_refs_spec(es: Seq<UnmatchedSpec>, dst: Seq<u8>) -> Seq<LiteralRefSpec> {
    Seq::new(es.len(), |i: int| lit_ref_spec(es, dst, i))
}

/// The patch built from a delta's entries against a destination: the
/// merged instruction stream and the deduplicated literal blob.
pub open spec fn patch_spec(ms: Seq<MatchSpec>, es: Seq<UnmatchedSpec>, dst: Seq<u8>) -> PatchView {
    PatchView {
        entries: merge_insts(ms, lit_refs_spec(es, dst), 0, 0).map_values(
            |ins: InstSpec| ins.entry,
        ),
        literal: concat_bufs(uniques(payloads(es, dst))),
    }
}

/// The patch of the whole pipeline from `src` to `dst`.
pub open spec fn delta_patch_spec(src: Seq<u8>, dst: Seq<u8>) -> PatchView {
    patch_spec(crate::delta::matched_spec(src, dst), crate::delta::unmatched_spec(src, dst), dst)
}

impl Patch {
    /// Build a patch from a delta: deduplicate the unmatched literals
    /// and merge both entry sequences into one instruction stream in
    /// destination order.
    #[verifier::loop_isolation(false)]
    pub fn build(delta: &DeltaResult, destination: &Vec<u8>) -> (p: Patch)
        requires
            crate::dedup::unmatched_in_bounds(
                delta.unmatched@.map_values(|e: crate::delta::UnmatchedEntry| e@),
                destination@.len() as int,
            ),
        ensures
            p@ == patch_spec(
                delta.matched@.map_values(|e: MatchEntry| e@),
                delta.unmatched@.map_values(|e: crate::delta::UnmatchedEntry| e@),
                destination@,
            ),
    {
        let ghost msv = delta.matched@.map_values(|e: MatchEntry| e@);
        let ghost esv = delta.unmatched@.map_values(|e: crate::delta::UnmatchedEntry| e@);
        let dd = dedup_literals(&delta.unmatched, destination);
        let ghost lsv = lit_refs_spec(esv, destination@);
        proof {
            assert(dd.refs@.map_values(|e: LiteralRef| e@) =~= lsv);
        }
        let mut entries: Vec<PatchEntry> = Vec::new();
        let mut i: usize = 0;
        let mut j: usize = 0;
        while i < delta.matched.len() || j < dd.refs.len()
            invariant
                i <= msv.len(),
                j <= lsv.len(),
                merge_insts(msv, lsv, 0, 0).map_values(|ins: InstSpec| ins.entry) == entries@
                    + merge_insts(msv, lsv, i as int, j as int).map_values(
                    |ins: InstSpec| ins.entry,
                ),
            decreases msv.len() - i + lsv.len() - j,
        {
            let take_match = if j >= dd.refs.len() {
                true
            } else if i < delta.matched.len() {
                delta.matched[i].dest_offset <= dd.refs[j].dest_offset
            } else {
                false
            };
            let ghost pre = merge_insts(msv, lsv, i as int, j as int);
            if take_match {
                let m = delta.matched[i];
                let e = PatchEntry::CopySource {
                    offset: m.source_offset as u64,
                    length: m.length as u64,
                };
                proof {
                    assert(msv[i as int] == m@);
                    assert(lsv.len() == dd.refs@.len());
                    if (j as int) < lsv.len() {
                        assert(lsv[j as int] == dd.refs@[j as int]@);
                    }
                    assert(pre == seq![inst_of_match(msv[i as int])] + merge_insts(
                        msv,
                        lsv,
                        i + 1,
                        j as int,
                    ));
                    assert(pre.map_values(|ins: InstSpec| ins.entry) =~= seq![e] + merge_insts(
                        msv,
                        lsv,
                        i + 1,
                        j as int,
                    ).map_values(|ins: InstSpec| ins.entry));
                    assert(entries@.push(e) + merge_insts(msv, lsv, i + 1, j as int).map_values(
                        |ins: InstSpec| ins.entry,
                    ) =~= entries@ + pre.map_values(|ins: InstSpec| ins.entry));
                }
                entries.push(e);
                i = i + 1;
            } else {
                let l = dd.refs[j];
                let e = PatchEntry::CopyLiteral {
                    offset: l.literal_offset as u64,
                    length: l.length as u64,
                };
                proof {
                    assert(lsv[j as int] == dd.refs@[j as int]@);
                    if (i as int) < msv.len() {
                        assert(msv[i as int] == delta.matched@[i as int]@);
                    }
                    assert(pre == seq![inst_of_lit(lsv[j as int])] + merge_insts(
                        msv,
                        lsv,
                        i as int,
                        j + 1,
                    ));
                    assert(pre.map_values(|ins: InstSpec| ins.entry) =~= seq![e] + merge_insts(
                        msv,
                        lsv,
                        i as int,
                        j + 1,
                    ).map_values(|ins: InstSpec| ins.entry));
                    assert(entries@.push(e) + merge_insts(msv, lsv, i as int, j + 1).map_values(
                        |ins: InstSpec| ins.entry,
                    ) =~= entries@ + pre.map_values(|ins: InstSpec| ins.entry));
                }
                entries.push(e);
                j = j + 1;
            }
        }
        proof {
            assert(merge_insts(msv, lsv, msv.len() as int, lsv.len() as int).map_values(
                |ins: InstSpec| ins.entry,
            ) =~= Seq::<PatchEntry>::empty());
            assert(entries@ + Seq::<PatchEntry>::empty() =~= entries@);
        }
        Patch { entries, literal: dd.blob }
    }
}

/// Matched and unmatched byte totals are never negative.
proof fn lemma_bytes_nonneg(
    scs: Seq<ChunkSpec>,
    dcs: Seq<ChunkSpec>,
    src: Seq<u8>,
    dst: Seq<u8>,
    d: int,
)
    requires
        chunks_tile(dcs, 0, dst.len() as int),
    ensures
        crate::delta::matched_bytes_from(scs, dcs, src, dst, d) >= 0,
        crate::delta::unmatched_bytes_from(scs, dcs, src, dst, d) >= 0,
    decreases dcs.len() - d + 1,
{
    if 0 <= d < dcs.len() {
        lemma_bytes_nonneg(scs, dcs, src, dst, d + 1);
        assert(1 <= dcs[d].len);
    }
}

/// The concatenated unmatched payloads weigh exactly the unmatched
/// bytes of the delta.
proof fn lemma_unmatched_payload_sum(
    scs: Seq<ChunkSpec>,
    dcs: Seq<ChunkSpec>,
    src: Seq<u8>,
    dst: Seq<u8>,
    d: int,
)
    requires
        chunks_tile(dcs, 0, dst.len() as int),
        forall|i: int| 0 <= i < dcs.len() ==> chunk_in_bounds(#[trigger] dcs[i], dst.len() as int),
        0 <= d <= dcs.len(),
    ensures
        concat_bufs(payloads(crate::delta::unmatched_from(scs, dcs, src, dst, d), dst)).len()
            == crate::delta::unmatched_bytes_from(scs, dcs, src, dst, d),
    decreases dcs.len() - d,
{
    if d < dcs.len() {
        lemma_unmatched_payload_sum(scs, dcs, src, dst, d + 1);
        let es = crate::delta::unmatched_from(scs, dcs, src, dst, d);
        let es2 = crate::delta::unmatched_from(scs, dcs, src, dst, d + 1);
        match crate::delta::first_match(scs, src, dst, dcs[d]) {
            Some(_) => {
            },
            None => {
                let e = UnmatchedSpec { dest_offset: dcs[d].start, length: dcs[d].len };
                assert(es == seq![e] + es2);
                assert(payloads(es, dst) =~= seq![payload_of(dst, e)] + payloads(es2, dst));
                crate::dedup::lemma_concat_prepend(payload_of(dst, e), payloads(es2, dst));
                assert(payload_of(dst, e).len() == e.length);
            },
        }
    }
}

/// The literal blob never outweighs the destination.
proof fn lemma_blob_len_bound(src: Seq<u8>, dst: Seq<u8>)
    ensures
        concat_bufs(uniques(payloads(crate::delta::unmatched_spec(src, dst), dst))).len()
            <= dst.len(),
{
    let scs = crate::chunking::chunks_spec(src);
    let dcs = crate::chunking::chunks_spec(dst);
    crate::chunking::lemma_chunks_partition(dst);
    let es = crate::delta::unmatched_spec(src, dst);
    crate::dedup::lemma_uniques_concat_le(payloads(es, dst));
    lemma_unmatched_payload_sum(scs, dcs, src, dst, 0);
    lemma_bytes_nonneg(scs, dcs, src, dst, 0);
    crate::delta::lemma_stats_consistency(src, dst);
}

/// The merge of the delta's matched entries and its deduplicated
/// literal references, taken from positions `i` and `j`, tiles the
/// destination from chunk `d` on, and every instruction is faithful to
/// the destination's bytes.
proof fn lemma_merge_delta_from(
    scs: Seq<ChunkSpec>,
    dcs: Seq<ChunkSpec>,
    src: Seq<u8>,
    dst: Seq<u8>,
    d: int,
    i: int,
    j: int,
    ms: Seq<MatchSpec>,
    es: Seq<UnmatchedSpec>,
)
    requires
        chunks_tile(dcs, 0, dst.len() as int),
        forall|ii: int|
            0 <= ii < scs.len() ==> chunk_in_bounds(#[trigger] scs[ii], src.len() as int),
        forall|ii: int|
            0 <= ii < dcs.len() ==> chunk_in_bounds(#[trigger] dcs[ii], dst.len() as int),
        0 <= d <= dcs.len(),
        0 <= i <= ms.len(),
        0 <= j <= es.len(),
        ms.skip(i) == crate::delta::matched_from(scs, dcs, src, dst, d),
        es.skip(j) == crate::delta::unmatched_from(scs, dcs, src, dst, d),
        src.len() <= u64::MAX,
        dst.len() <= u64::MAX,
        concat_bufs(uniques(payloads(es, dst))).len() <= u64::MAX,
    ensures
        ({
            let pos = if d < dcs.len() {
                dcs[d].start
            } else {
                dst.len() as int
            };
            let ls = lit_refs_spec(es, dst);
            let merged = merge_insts(ms, ls, i, j);
            let blob = concat_bufs(uniques(payloads(es, dst)));
            &&& insts_tile(merged, pos, dst.len() as int)
            &&& forall|k: int| 0 <= k < merged.len() ==> inst_ok(#[trigger] merged[k], src, blob, dst)
        }),
    decreases dcs.len() - d,
{
    let n = dst.len() as int;
    let pos = if d < dcs.len() {
        dcs[d].start
    } else {
        n
    };
    let ls = lit_refs_spec(es, dst);
    let blob = concat_bufs(uniques(payloads(es, dst)));
    let merged = merge_insts(ms, ls, i, j);
    crate::delta::lemma_delta_entries_ok(scs, dcs, src, dst, d);
    if d == dcs.len() {
        assert(ms.skip(i).len() == 0);
        assert(es.skip(j).len() == 0);
        assert(i == ms.len() && j == es.len());
        assert(merged =~= Seq::<InstSpec>::empty());
    } else {
        let pos2 = if d + 1 < dcs.len() {
            dcs[d + 1].start
        } else {
            n
        };
        assert(pos2 == dcs[d].start + dcs[d].len) by {
            if d + 1 < dcs.len() {
                assert(dcs[d + 1].start == dcs[d].start + dcs[d].len);
            } else {
                assert(dcs[dcs.len() - 1].start + dcs[dcs.len() - 1].len == n);
            }
        }
        crate::delta::lemma_delta_entries_ok(scs, dcs, src, dst, d + 1);
        let ms_d = crate::delta::matched_from(scs, dcs, src, dst, d);
        let es_d = crate::delta::unmatched_from(scs, dcs, src, dst, d);
        let ms_d1 = crate::delta::matched_from(scs, dcs, src, dst, d + 1);
        let es_d1 = crate::delta::unmatched_from(scs, dcs, src, dst, d + 1);
        match crate::delta::first_match(scs, src, dst, dcs[d]) {
            Some(p) => {
                crate::delta::lemma_first_match_from(scs, 0, src, dst, dcs[d]);
                let e = MatchSpec {
                    dest_offset: dcs[d].start,
                    source_offset: scs[p].start,
                    length: dcs[d].len,
                };
                assert(ms_d == seq![e] + ms_d1);
                assert(i < ms.len());
                assert(ms[i] == ms.skip(i)[0]);
                assert(ms[i] == e);
                assert(ms.skip(i).drop_first() =~= ms.skip(i + 1));
                assert(ms_d.drop_first() =~= ms_d1);
                assert(es_d == es_d1);
                // Any pending literal reference lies beyond this chunk.
                if j < es.len() {
                    assert(es[j] == es.skip(j)[0]);
                    assert(es[j].dest_offset >= pos2);
                    assert(ls[j].dest_offset == es[j].dest_offset);
                }
                assert(merged == seq![inst_of_match(ms[i])] + merge_insts(ms, ls, i + 1, j));
                lemma_merge_delta_from(scs, dcs, src, dst, d + 1, i + 1, j, ms, es);
                let rest = merge_insts(ms, ls, i + 1, j);
                let x = inst_of_match(e);
                // The head instruction is faithful.
                assert(crate::delta::match_entry_ok(e, src, dst)) by {
                    assert(ms_d[0] == e);
                }
                assert(inst_ok(x, src, blob, dst)) by {
                    assert(e.source_offset as u64 as int == e.source_offset);
                    assert(e.length as u64 as int == e.length);
                }
                assert(entry_len(x.entry) == e.length);
                assert(insts_tile(merged, pos, n)) by {
                    assert(merged.drop_first() =~= rest);
                    assert(merged[0] == x);
                }
                assert forall|k: int| 0 <= k < merged.len() implies inst_ok(
                    #[trigger] merged[k],
                    src,
                    blob,
                    dst,
                ) by {
                    if k > 0 {
                        assert(merged[k] == rest[k - 1]);
                    }
                }
            },
            None => {
                let e = UnmatchedSpec { dest_offset: dcs[d].start, length: dcs[d].len };
                assert(es_d == seq![e] + es_d1);
                assert(j < es.len());
                assert(es[j] == es.skip(j)[0]);
                assert(es[j] == e);
                assert(es.skip(j).drop_first() =~= es.skip(j + 1));
                assert(es_d.drop_first() =~= es_d1);
                assert(ms_d == ms_d1);
                if i < ms.len() {
                    assert(ms[i] == ms.skip(i)[0]);
                    assert(ms[i].dest_offset >= pos2);
                }
                assert(ls[j].dest_offset == e.dest_offset && ls[j].length == e.length);
                assert(merged == seq![inst_of_lit(ls[j])] + merge_insts(ms, ls, i, j + 1));
                lemma_merge_delta_from(scs, dcs, src, dst, d + 1, i, j + 1, ms, es);
                let rest = merge_insts(ms, ls, i, j + 1);
                let x = inst_of_lit(ls[j]);
                // The head instruction is faithful: the blob bytes at
                // the reference are exactly this chunk's payload.
                crate::dedup::lemma_lit_ref_valid(es, dst, j);
                assert(inst_ok(x, src, blob, dst)) by {
                    assert(payload_of(dst, es[j]).len() == e.length);
                    assert(ls[j].literal_offset as u64 as int == ls[j].literal_offset) by {
                        assert(0 <= ls[j].literal_offset);
                        assert(ls[j].literal_offset <= blob.len());
                    }
                    assert(ls[j].length as u64 as int == ls[j].length);
                    assert(blob.subrange(
                        ls[j].literal_offset,
                        ls[j].literal_offset + e.length,
                    ) == payload_of(dst, es[j]));
                    assert(payload_of(dst, es[j]) == dst.subrange(
                        e.dest_offset,
                        e.dest_offset + e.length,
                    ));
                }
                assert(entry_len(x.entry) == e.length);
                assert(insts_tile(merged, pos, n)) by {
                    assert(merged.drop_first() =~= rest);
                    assert(merged[0] == x);
                }
                assert forall|k: int| 0 <= k < merged.len() implies inst_ok(
                    #[trigger] merged[k],
                    src,
                    blob,
                    dst,
                ) by {
                    if k > 0 {
                        assert(merged[k] == rest[k - 1]);
                    }
                }
            },
        }
    }
}

/// A tiling, faithful instruction stream replays to exactly the
/// destination's bytes from `pos` on.
proof fn lemma_insts_replay(insts: Seq<InstSpec>, src: Seq<u8>, lit: Seq<u8>, dst: Seq<u8>, pos: int)
    requires
        0 <= pos <= dst.len(),
        insts_tile(insts, pos, dst.len() as int),
        forall|k: int| 0 <= k < insts.len() ==> inst_ok(#[trigger] insts[k], src, lit, dst),
    ensures
        replay_entries(insts.map_values(|ins: InstSpec| ins.entry), src, lit) == Some(
            dst.skip(pos),
        ),
    decreases insts.len(),
{
    let entries = insts.map_values(|ins: InstSpec| ins.entry);
    if insts.len() == 0 {
        assert(dst.skip(pos) =~= Seq::<u8>::empty());
    } else {
        let x = insts[0];
        assert(inst_ok(x, src, lit, dst));
        let len0 = entry_len(x.entry);
        assert forall|k: int| 0 <= k < insts.drop_first().len() implies inst_ok(
            #[trigger] insts.drop_first()[k],
            src,
            lit,
            dst,
        ) by {
            assert(insts.drop_first()[k] == insts[k + 1]);
        }
        lemma_insts_replay(insts.drop_first(), src, lit, dst, pos + len0);
        assert(entries[0] == x.entry);
        assert(entries.drop_first() =~= insts.drop_first().map_values(|ins: InstSpec| ins.entry));
        assert(entry_bytes(x.entry, src, lit) == Some(dst.subrange(pos, pos + len0)));
        assert(dst.subrange(pos, pos + len0) + dst.skip(pos + len0) =~= dst.skip(pos));
    }
}

/// Round-trip correctness: the patch the pipeline builds from `src` to
/// `dst` replays over `src` to exactly `dst`.
pub proof fn lemma_round_trip(src: Seq<u8>, dst: Seq<u8>)
    requires
        src.len() <= u64::MAX,
        dst.len() <= u64::MAX,
    ensures
        replay(delta_patch_spec(src, dst), src) == Some(dst),
{
    let scs = crate::chunking::chunks_spec(src);
    let dcs = crate::chunking::chunks_spec(dst);
    crate::chunking::lemma_chunks_partition(src);
    crate::chunking::lemma_chunks_partition(dst);
    let ms = crate::delta::matched_spec(src, dst);
    let es = crate::delta::unmatched_spec(src, dst);
    lemma_blob_len_bound(src, dst);
    assert(ms.skip(0) =~= ms);
    assert(es.skip(0) =~= es);
    lemma_merge_delta_from(scs, dcs, src, dst, 0, 0, 0, ms, es);
    let merged = merge_insts(ms, lit_refs_spec(es, dst), 0, 0);
    let blob = concat_bufs(uniques(payloads(es, dst)));
    let pos = if 0 < dcs.len() {
        dcs[0].start
    } else {
        dst.len() as int
    };
    assert(pos == 0) by {
        if dcs.len() == 0 {
            assert(dst.len() == 0);
        }
    }
    lemma_insts_replay(merged, src, blob, dst, 0);
    assert(dst.skip(0) =~= dst);
}

/// Compute the patch that rebuilds `destination` from `source`: the
/// whole pipeline, with the guarantee that replaying the patch over the
/// source yields the destination exactly.
#[verifier::rlimit(30)]
pub fn dehydrate(source: &Vec<u8>, destination: &Vec<u8>) -> (p: Patch)
    ensures
        p@ == delta_patch_spec(source@, destination@),
        replay(p@, source@) == Some(destination@),
{
    proof {
        vstd::std_specs::vec::axiom_spec_len(source);
        vstd::std_specs::vec::axiom_spec_len(destination);
    }
    let delta = crate::delta::compute_delta(source, destination);
    proof {
        crate::chunking::lemma_chunks_partition(source@);
        crate::chunking::lemma_chunks_partition(destination@);
        crate::delta::lemma_delta_entries_ok(
            crate::chunking::chunks_spec(source@),
            crate::chunking::chunks_spec(destination@),
            source@,
            destination@,
            0,
        );
    }
    let p = Patch::build(&delta, destination);
    proof {
        lemma_round_trip(source@, destination@);
    }
    p
}

/// The 4-byte magic tag opening every patch stream: `DELT`.
pub open spec fn magic_tag() -> Seq<u8> {
    seq![0x44u8, 0x45u8, 0x4Cu8, 0x54u8]
}

/// A 64-bit value as eight little-endian bytes.
pub open spec fn le64(v: u64) -> Seq<u8> {
    seq![
        ((v >> 0) & 0xFF) as u8,
        ((v >> 8) & 0xFF) as u8,
        ((v >> 16) & 0xFF) as u8,
        ((v >> 24) & 0xFF) as u8,
        ((v >> 32) & 0xFF) as u8,
        ((v >> 40) & 0xFF) as u8,
        ((v >> 48) & 0xFF) as u8,
        ((v >> 56) & 0xFF) as u8,
    ]
}

/// Eight little-endian bytes as a 64-bit value.
pub open spec fn from_le64(s: Seq<u8>) -> u64 {
    (s[0] as u64) | ((s[1] as u64) << 8) | ((s[2] as u64) << 16) | ((s[3] as u64) << 24) | ((
    s[4] as u64) << 32) | ((s[5] as u64) << 40) | ((s[6] as u64) << 48) | ((s[7] as u64) << 56)
}

/// Tag byte of an instruction on the wire.
pub open spec fn entry_tag(e: PatchEntry) -> u8 {
    match e {
        PatchEntry::CopySource { .. } => 1,
        PatchEntry::CopyLiteral { .. } => 2,
    }
}

/// Offset field of an instruction.
pub open spec fn entry_offset(e: PatchEntry) -> u64 {
    match e {
        PatchEntry::CopySource { offset, .. } => offset,
        PatchEntry::CopyLiteral { offset, .. } => offset,
    }
}

/// Length field of an instruction, as stored.
pub open spec fn entry_length(e: PatchEntry) -> u64 {
    match e {
        PatchEntry::CopySource { length, .. } => length,
        PatchEntry::CopyLiteral { length, .. } => length,
    }
}

/// One instruction's 17-byte wire record.
pub open spec fn entry_wire(e: PatchEntry) -> Seq<u8> {
    seq![entry_tag(e)] + le64(entry_offset(e)) + le64(entry_length(e))
}

/// Wire records of the instructions `k..`, concatenated.
pub open spec fn entries_wire(es: Seq<PatchEntry>, k: int) -> Seq<u8>
    decreases es.len() - k,
{
    if k < 0 || k >= es.len() {
        Seq::empty()
    } else {
        entry_wire(es[k]) + entries_wire(es, k + 1)
    }
}

/// The serialized form of a patch.
pub open spec fn serialize_spec(p: PatchView) -> Seq<u8> {
    magic_tag() + le64(p.literal.len() as u64) + p.literal + le64(p.entries.len() as u64)
        + entries_wire(p.entries, 0)
}

/// Parse `count` instruction records beginning at `pos`; `None` on an
/// unknown tag byte.
pub open spec fn parse_entries(bytes: Seq<u8>, pos: int, count: int) -> Option<Seq<PatchEntry>>
    decreases count,
{
    if count <= 0 {
        Some(Seq::empty())
    } else {
        let tag = bytes[pos];
        if tag != 1 && tag != 2 {
            None
        } else {
            let offset = from_le64(bytes.subrange(pos + 1, pos + 9));
            let length = from_le64(bytes.subrange(pos + 9, pos + 17));
            let e = if tag == 1 {
                PatchEntry::CopySource { offset, length }
            } else {
                PatchEntry::CopyLiteral { offset, length }
            };
            match parse_entries(bytes, pos + 17, count - 1) {
                Some(rest) => Some(seq![e] + rest),
                None => None,
            }
        }
    }
}

/// Parse a whole patch stream. Exactly the streams `serialize_spec`
/// produces parse successfully; every malformation maps to one error.
pub open spec fn parse_spec(bytes: Seq<u8>) -> Result<PatchView, PatchError> {
    if bytes.len() < 4 {
        Err(PatchError::Truncated)
    } else if bytes.subrange(0, 4) != magic_tag() {
        Err(PatchError::BadMagic)
    } else if bytes.len() < 12 {
        Err(PatchError::Truncated)
    } else {
        let lit_len = from_le64(bytes.subrange(4, 12)) as int;
        if 12 + lit_len > bytes.len() {
            Err(PatchError::Truncated)
        } else {
            let lit = bytes.subrange(12, 12 + lit_len);
            let p2 = 12 + lit_len;
            if p2 + 8 > bytes.len() {
                Err(PatchError::Truncated)
            } else {
                let count = from_le64(bytes.subrange(p2, p2 + 8)) as int;
                let rest = bytes.len() - (p2 + 8);
                if rest < count * 17 {
                    Err(PatchError::Truncated)
                } else if rest > count * 17 {
                    Err(PatchError::TrailingData)
                } else {
                    match parse_entries(bytes, p2 + 8, count) {
                        Some(es) => Ok(PatchView { entries: es, literal: lit }),
                        None => Err(PatchError::BadTag),
                    }
                }
            }
        }
    }
}

/// Each instruction record is 17 bytes.
proof fn lemma_entries_wire_len(es: Seq<PatchEntry>, k: int)
    requires
        0 <= k <= es.len(),
    ensures
        entries_wire(es, k).len() == 17 * (es.len() - k),
    decreases es.len() - k,
{
    if k < es.len() {
        lemma_entries_wire_len(es, k + 1);
    }
}

/// Parsing the wire records of `es.skip(k)` in place recovers exactly
/// those instructions.
proof fn lemma_parse_entries_wire(bytes: Seq<u8>, es: Seq<PatchEntry>, pos: int, k: int)
    requires
        0 <= k <= es.len(),
        0 <= pos,
        pos + 17 * (es.len() - k) <= bytes.len(),
        bytes.subrange(pos, pos + 17 * (es.len() - k)) == entries_wire(es, k),
    ensures
        parse_entries(bytes, pos, es.len() - k) == Some(es.skip(k)),
    decreases es.len() - k,
{
    if k == es.len() {
        assert(es.skip(k) =~= Seq::<PatchEntry>::empty());
    } else {
        let e = es[k];
        let w = entries_wire(es, k);
        let ew = entry_wire(e);
        assert(w == ew + entries_wire(es, k + 1));
        lemma_entries_wire_len(es, k + 1);
        assert(ew.len() == 17);
        let window = bytes.subrange(pos, pos + 17 * (es.len() - k));
        // The record's fields sit at fixed offsets in the stream.
        assert(bytes[pos] == entry_tag(e)) by {
            assert(window[0] == bytes[pos]);
            assert(w[0] == ew[0]);
            assert(ew[0] == entry_tag(e));
        }
        assert(bytes.subrange(pos + 1, pos + 9) =~= le64(entry_offset(e))) by {
            assert forall|t: int| 0 <= t < 8 implies bytes.subrange(pos + 1, pos + 9)[t] == le64(
                entry_offset(e),
            )[t] by {
                assert(bytes.subrange(pos + 1, pos + 9)[t] == bytes[pos + 1 + t]);
                assert(bytes[pos + 1 + t] == window[1 + t]);
                assert(w[1 + t] == ew[1 + t]);
                assert(ew[1 + t] == le64(entry_offset(e))[t]);
            }
        }
        assert(bytes.subrange(pos + 9, pos + 17) =~= le64(entry_length(e))) by {
            assert forall|t: int| 0 <= t < 8 implies bytes.subrange(pos + 9, pos + 17)[t] == le64(
                entry_length(e),
            )[t] by {
                assert(bytes.subrange(pos + 9, pos + 17)[t] == bytes[pos + 9 + t]);
                assert(bytes[pos + 9 + t] == window[9 + t]);
                assert(w[9 + t] == ew[9 + t]);
                assert(ew[9 + t] == le64(entry_length(e))[t]);
            }
        }
        lemma_le64_roundtrip(entry_offset(e));
        lemma_le64_roundtrip(entry_length(e));
        // The tail records parse by induction.
        assert(bytes.subrange(pos + 17, pos + 17 + 17 * (es.len() - (k + 1))) =~= entries_wire(
            es,
            k + 1,
        )) by {
            assert forall|t: int|
                0 <= t < 17 * (es.len() - (k + 1)) implies #[trigger] bytes.subrange(
                pos + 17,
                pos + 17 + 17 * (es.len() - (k + 1)),
            )[t] == entries_wire(es, k + 1)[t] by {
                assert(bytes.subrange(pos + 17, pos + 17 + 17 * (es.len() - (k + 1)))[t]
                    == bytes[pos + 17 + t]);
                assert(bytes[pos + 17 + t] == window[17 + t]);
                assert(w[17 + t] == entries_wire(es, k + 1)[t]);
            }
        }
        lemma_parse_entries_wire(bytes, es, pos + 17, k + 1);
        assert(entry_tag(e) == 1 || entry_tag(e) == 2);
        assert(parse_entries(bytes, pos, es.len() - k) == Some(seq![e] + es.skip(k + 1)));
        assert(seq![e] + es.skip(k + 1) =~= es.skip(k));
    }
}

/// Serializing a patch and parsing the stream back yields the patch: a
/// full wire round trip.
pub proof fn lemma_wire_roundtrip(p: PatchView)
    requires
        p.literal.len() <= u64::MAX,
        p.entries.len() <= u64::MAX,
    ensures
        parse_spec(serialize_spec(p)) == Ok::<PatchView, PatchError>(p),
{
    let bytes = serialize_spec(p);
    let ll = p.literal.len() as u64;
    let cnt = p.entries.len() as u64;
    let head = magic_tag() + le64(ll) + p.literal + le64(cnt);
    lemma_entries_wire_len(p.entries, 0);
    assert(bytes == head + entries_wire(p.entries, 0));
    assert(bytes.len() == 20 + p.literal.len() + 17 * p.entries.len());
    assert(bytes.subrange(0, 4) =~= magic_tag());
    assert(bytes.subrange(4, 12) =~= le64(ll));
    lemma_le64_roundtrip(ll);
    let lit_len = from_le64(bytes.subrange(4, 12)) as int;
    assert(lit_len == p.literal.len());
    assert(bytes.subrange(12, 12 + lit_len) =~= p.literal);
    let p2 = 12 + lit_len;
    assert(bytes.subrange(p2, p2 + 8) =~= le64(cnt));
    lemma_le64_roundtrip(cnt);
    let count = from_le64(bytes.subrange(p2, p2 + 8)) as int;
    assert(count == p.entries.len());
    let rest = bytes.len() - (p2 + 8);
    assert(rest == count * 17);
    assert(bytes.subrange(p2 + 8, p2 + 8 + 17 * (p.entries.len() - 0)) =~= entries_wire(
        p.entries,
        0,
    ));
    lemma_parse_entries_wire(bytes, p.entries, p2 + 8, 0);
    assert(p.entries.skip(0) =~= p.entries);
    assert(parse_spec(bytes) == Ok::<PatchView, PatchError>(
        PatchView { entries: p.entries, literal: p.literal },
    ));
    assert(PatchView { entries: p.entries, literal: p.literal } == p);
}

/// Instruction records depend only on the instructions after `k`.
proof fn lemma_entries_wire_shift(es1: Seq<PatchEntry>, es2: Seq<PatchEntry>, k1: int, k2: int)
    requires
        0 <= k1 <= es1.len(),
        0 <= k2 <= es2.len(),
        es1.len() - k1 == es2.len() - k2,
        forall|t: int| 0 <= t < es1.len() - k1 ==> #[trigger] es1[k1 + t] == es2[k2 + t],
    ensures
        entries_wire(es1, k1) == entries_wire(es2, k2),
    decreases es1.len() - k1,
{
    if k1 < es1.len() {
        assert(es1[k1 + 0] == es2[k2 + 0]);
        assert forall|t: int|
            0 <= t < es1.len() - (k1 + 1) implies #[trigger] es1[k1 + 1 + t] == es2[k2 + 1 + t] by {
            assert(es1[k1 + (t + 1)] == es2[k2 + (t + 1)]);
        }
        lemma_entries_wire_shift(es1, es2, k1 + 1, k2 + 1);
    }
}

/// Records that parse serialize back to the very bytes they came from.
proof fn lemma_entries_wire_parse(bytes: Seq<u8>, pos: int, count: int)
    requires
        0 <= pos,
        0 <= count,
        pos + 17 * count <= bytes.len(),
        parse_entries(bytes, pos, count) is Some,
    ensures
        ({
            let es = parse_entries(bytes, pos, count).unwrap();
            &&& es.len() == count
            &&& entries_wire(es, 0) == bytes.subrange(pos, pos + 17 * count)
        }),
    decreases count,
{
    let es = parse_entries(bytes, pos, count).unwrap();
    if count == 0 {
        assert(entries_wire(es, 0) =~= bytes.subrange(pos, pos));
    } else {
        let tag = bytes[pos];
        let offset = from_le64(bytes.subrange(pos + 1, pos + 9));
        let length = from_le64(bytes.subrange(pos + 9, pos + 17));
        let e = if tag == 1 {
            PatchEntry::CopySource { offset, length }
        } else {
            PatchEntry::CopyLiteral { offset, length }
        };
        lemma_entries_wire_parse(bytes, pos + 17, count - 1);
        let rest = parse_entries(bytes, pos + 17, count - 1).unwrap();
        assert(es == seq![e] + rest);
        lemma_le64_bytes(bytes.subrange(pos + 1, pos + 9));
        lemma_le64_bytes(bytes.subrange(pos + 9, pos + 17));
        assert(entry_wire(e) =~= bytes.subrange(pos, pos + 17)) by {
            assert(entry_tag(e) == tag);
            assert(le64(entry_offset(e)) == bytes.subrange(pos + 1, pos + 9));
            assert(le64(entry_length(e)) == bytes.subrange(pos + 9, pos + 17));
            assert forall|t: int| 0 <= t < 17 implies entry_wire(e)[t] == bytes.subrange(
                pos,
                pos + 17,
            )[t] by {
                if t == 0 {
                } else if t < 9 {
                    assert(entry_wire(e)[t] == le64(entry_offset(e))[t - 1]);
                    assert(bytes.subrange(pos + 1, pos + 9)[t - 1] == bytes[pos + t]);
                } else {
                    assert(entry_wire(e)[t] == le64(entry_length(e))[t - 9]);
                    assert(bytes.subrange(pos + 9, pos + 17)[t - 9] == bytes[pos + t]);
                }
            }
        }
        assert forall|t: int| 0 <= t < es.len() - 1 implies #[trigger] es[1 + t] == rest[0 + t] by {
            assert(es[1 + t] == rest[t]);
        }
        lemma_entries_wire_shift(es, rest, 1, 0);
        assert(entries_wire(es, 0) == entry_wire(e) + entries_wire(rest, 0));
        assert(entry_wire(e) + entries_wire(rest, 0) =~= bytes.subrange(pos, pos + 17 * count)) by {
            assert(entries_wire(rest, 0) == bytes.subrange(pos + 17, pos + 17 + 17 * (count - 1)));
        }
    }
}

/// The wire format is canonical: a stream that parses is exactly the
/// serialization of the patch it parses to.
pub proof fn lemma_parse_canonical(bytes: Seq<u8>)
    requires
        parse_spec(bytes) is Ok,
    ensures
        serialize_spec(parse_spec(bytes).unwrap()) == bytes,
{
    let p = parse_spec(bytes).unwrap();
    let lit_len = from_le64(bytes.subrange(4, 12)) as int;
    let p2 = 12 + lit_len;
    let count = from_le64(bytes.subrange(p2, p2 + 8)) as int;
    assert(p.literal == bytes.subrange(12, p2));
    assert(p.literal.len() == lit_len);
    assert(p.entries == parse_entries(bytes, p2 + 8, count).unwrap());
    lemma_entries_wire_parse(bytes, p2 + 8, count);
    assert(p.entries.len() == count);
    lemma_le64_bytes(bytes.subrange(4, 12));
    lemma_le64_bytes(bytes.subrange(p2, p2 + 8));
    assert(le64(p.literal.len() as u64) == bytes.subrange(4, 12)) by {
        assert(p.literal.len() as u64 == from_le64(bytes.subrange(4, 12)));
    }
    assert(le64(p.entries.len() as u64) == bytes.subrange(p2, p2 + 8)) by {
        assert(p.entries.len() as u64 == from_le64(bytes.subrange(p2, p2 + 8)));
    }
    assert(serialize_spec(p) =~= bytes) by {
        let w = serialize_spec(p);
        assert(w.len() == 20 + lit_len + 17 * count);
        assert(bytes.len() == p2 + 8 + 17 * count);
        assert forall|t: int| 0 <= t < w.len() implies w[t] == bytes[t] by {
            if t < 4 {
                assert(w[t] == magic_tag()[t]);
                assert(bytes.subrange(0, 4)[t] == bytes[t]);
            } else if t < 12 {
                assert(w[t] == le64(p.literal.len() as u64)[t - 4]);
                assert(bytes.subrange(4, 12)[t - 4] == bytes[t]);
            } else if t < p2 {
                assert(w[t] == p.literal[t - 12]);
                assert(bytes.subrange(12, p2)[t - 12] == bytes[t]);
            } else if t < p2 + 8 {
                assert(w[t] == le64(p.entries.len() as u64)[t - p2]);
                assert(bytes.subrange(p2, p2 + 8)[t - p2] == bytes[t]);
            } else {
                assert(w[t] == entries_wire(p.entries, 0)[t - (p2 + 8)]);
                assert(bytes.subrange(p2 + 8, p2 + 8 + 17 * count)[t - (p2 + 8)] == bytes[t]);
            }
        }
    }
}

/// Shifted bytes masked to one byte stay below 256.
proof fn lemma_byte_mask(v: u64)
    by (bit_vector)
    ensures
        forall|sh: u64| sh < 64 ==> ((v >> sh) & 0xFF) < 256,
{
}

/// Serializing a 64-bit value and reading it back yields the value.
pub proof fn lemma_le64_roundtrip(v: u64)
    ensures
        from_le64(le64(v)) == v,
{
    let s = le64(v);
    assert(((((v >> 0) & 0xFF) as u8) as u64) | (((((v >> 8) & 0xFF) as u8) as u64) << 8) | (((((v
        >> 16) & 0xFF) as u8) as u64) << 16) | (((((v >> 24) & 0xFF) as u8) as u64) << 24) | (((((v
        >> 32) & 0xFF) as u8) as u64) << 32) | (((((v >> 40) & 0xFF) as u8) as u64) << 40) | (((((v
        >> 48) & 0xFF) as u8) as u64) << 48) | (((((v >> 56) & 0xFF) as u8) as u64) << 56) == v)
        by (bit_vector);
}

/// Reading eight bytes and serializing the value back yields the bytes.
pub proof fn lemma_le64_bytes(s: Seq<u8>)
    requires
        s.len() == 8,
    ensures
        le64(from_le64(s)) =~= s,
{
    let b0 = s[0];
    let b1 = s[1];
    let b2 = s[2];
    let b3 = s[3];
    let b4 = s[4];
    let b5 = s[5];
    let b6 = s[6];
    let b7 = s[7];
    let v = from_le64(s);
    assert(v == (b0 as u64) | ((b1 as u64) << 8) | ((b2 as u64) << 16) | ((b3 as u64) << 24) | ((
    b4 as u64) << 32) | ((b5 as u64) << 40) | ((b6 as u64) << 48) | ((b7 as u64) << 56));
    assert({
        let w = (b0 as u64) | ((b1 as u64) << 8) | ((b2 as u64) << 16) | ((b3 as u64) << 24) | ((
        b4 as u64) << 32) | ((b5 as u64) << 40) | ((b6 as u64) << 48) | ((b7 as u64) << 56);
        &&& ((w >> 0) & 0xFF) as u8 == b0
        &&& ((w >> 8) & 0xFF) as u8 == b1
        &&& ((w >> 16) & 0xFF) as u8 == b2
        &&& ((w >> 24) & 0xFF) as u8 == b3
        &&& ((w >> 32) & 0xFF) as u8 == b4
        &&& ((w >> 40) & 0xFF) as u8 == b5
        &&& ((w >> 48) & 0xFF) as u8 == b6
        &&& ((w >> 56) & 0xFF) as u8 == b7
    }) by (bit_vector);
}

/// Append a 64-bit value in little-endian order.
fn push_le64(out: &mut Vec<u8>, v: u64)
    ensures
        final(out)@ == old(out)@ + le64(v),
{
    proof {
        lemma_byte_mask(v);
    }
    out.push(((v >> 0) & 0xFF) as u8);
    out.push(((v >> 8) & 0xFF) as u8);
    out.push(((v >> 16) & 0xFF) as u8);
    out.push(((v >> 24) & 0xFF) as u8);
    out.push(((v >> 32) & 0xFF) as u8);
    out.push(((v >> 40) & 0xFF) as u8);
    out.push(((v >> 48) & 0xFF) as u8);
    out.push(((v >> 56) & 0xFF) as u8);
    proof {
        assert(out@ =~= old(out)@ + le64(v));
    }
}

/// Read a little-endian 64-bit value at `pos`.
fn read_le64(bytes: &Vec<u8>, pos: usize) -> (r: u64)
    requires
        pos + 8 <= bytes@.len(),
    ensures
        r == from_le64(bytes@.subrange(pos as int, pos + 8)),
{
    proof {
        vstd::std_specs::vec::axiom_spec_len(bytes);
    }
    let r = (bytes[pos] as u64) | ((bytes[pos + 1] as u64) << 8u64) | ((bytes[pos + 2] as u64)
        << 16u64) | ((bytes[pos + 3] as u64) << 24u64) | ((bytes[pos + 4] as u64) << 32u64) | ((
    bytes[pos + 5] as u64) << 40u64) | ((bytes[pos + 6] as u64) << 48u64) | ((bytes[pos + 7] as u64)
        << 56u64);
    proof {
        let s = bytes@.subrange(pos as int, pos + 8);
        assert(s[0] == bytes@[pos as int]);
        assert(s[1] == bytes@[pos + 1]);
        assert(s[2] == bytes@[pos + 2]);
        assert(s[3] == bytes@[pos + 3]);
        assert(s[4] == bytes@[pos + 4]);
        assert(s[5] == bytes@[pos + 5]);
        assert(s[6] == bytes@[pos + 6]);
        assert(s[7] == bytes@[pos + 7]);
    }
    r
}

/// Append `buf[from..from+len]` to `out`.
fn append_range(out: &mut Vec<u8>, buf: &Vec<u8>, from: usize, len: usize)
    requires
        from + len <= buf@.len(),
    ensures
        final(out)@ == old(out)@ + buf@.subrange(from as int, from + len),
{
    proof {
        vstd::std_specs::vec::axiom_spec_len(buf);
    }
    let mut t: usize = 0;
    while t < len
        invariant
            t <= len,
            from + len <= buf@.len(),
            buf@.len() <= usize::MAX,
            out@ == old(out)@ + buf@.subrange(from as int, from + t),
        decreases len - t,
    {
        out.push(buf[from + t]);
        proof {
            assert(buf@.subrange(from as int, from + t + 1) =~= buf@.subrange(
                from as int,
                from + t,
            ).push(buf@[from + t]));
            assert(old(out)@ + buf@.subrange(from as int, from + t + 1) =~= (old(out)@
                + buf@.subrange(from as int, from + t)).push(buf@[from + t]));
        }
        t = t + 1;
    }
}

impl Patch {
    /// Serialize the patch into its wire format.
    #[verifier::loop_isolation(false)]
    pub fn serialize(&self) -> (r: Vec<u8>)
        ensures
            r@ == serialize_spec(self@),
    {
        let mut out: Vec<u8> = Vec::new();
        out.push(0x44);
        out.push(0x45);
        out.push(0x4C);
        out.push(0x54);
        proof {
            assert(out@ =~= magic_tag());
        }
        push_le64(&mut out, self.literal.len() as u64);
        proof {
            vstd::std_specs::vec::axiom_spec_len(&self.literal);
        }
        append_range(&mut out, &self.literal, 0, self.literal.len());
        proof {
            assert(self.literal@.subrange(0, self.literal@.len() as int) =~= self.literal@);
        }
        push_le64(&mut out, self.entries.len() as u64);
        let ghost head = out@;
        let ghost es = self.entries@;
        let mut k: usize = 0;
        while k < self.entries.len()
            invariant
                k <= es.len(),
                es == self.entries@,
                head + entries_wire(es, 0) == out@ + entries_wire(es, k as int),
            decreases es.len() - k,
        {
            let e = self.entries[k];
            let (tag, offset, length): (u8, u64, u64) = match e {
                PatchEntry::CopySource { offset, length } => (1, offset, length),
                PatchEntry::CopyLiteral { offset, length } => (2, offset, length),
            };
            let ghost before = out@;
            out.push(tag);
            push_le64(&mut out, offset);
            push_le64(&mut out, length);
            proof {
                assert(entries_wire(es, k as int) == entry_wire(es[k as int]) + entries_wire(
                    es,
                    k + 1,
                ));
                assert(out@ =~= before + entry_wire(es[k as int]));
                assert(before + (entry_wire(es[k as int]) + entries_wire(es, k + 1)) =~= (before
                    + entry_wire(es[k as int])) + entries_wire(es, k + 1));
            }
            k = k + 1;
        }
        proof {
            assert(entries_wire(es, es.len() as int) =~= Seq::<u8>::empty());
            assert(out@ + Seq::<u8>::empty() =~= out@);
            assert(head + entries_wire(es, 0) == serialize_spec(self@));
        }
        out
    }
}

/// Parse a patch from its wire format. Succeeds exactly on the streams
/// `serialize_spec` produces; each malformed stream yields the error
/// `parse_spec` assigns it.
#[verifier::loop_isolation(false)]
pub fn deserialize(bytes: &Vec<u8>) -> (r: Result<Patch, PatchError>)
    ensures
        match r {
            Ok(p) => parse_spec(bytes@) == Ok::<PatchView, PatchError>(p@),
            Err(e) => parse_spec(bytes@) == Err::<PatchView, PatchError>(e),
        },
{
    proof {
        vstd::std_specs::vec::axiom_spec_len(bytes);
    }
    let n = bytes.len();
    if n < 4 {
        return Err(PatchError::Truncated);
    }
    if !(bytes[0] == 0x44 && bytes[1] == 0x45 && bytes[2] == 0x4C && bytes[3] == 0x54) {
        proof {
            assert(bytes@.subrange(0, 4) != magic_tag()) by {
                if bytes@.subrange(0, 4) == magic_tag() {
                    assert(bytes@.subrange(0, 4)[0] == bytes@[0]);
                    assert(bytes@.subrange(0, 4)[1] == bytes@[1]);
                    assert(bytes@.subrange(0, 4)[2] == bytes@[2]);
                    assert(bytes@.subrange(0, 4)[3] == bytes@[3]);
                }
            }
        }
        return Err(PatchError::BadMagic);
    }
    proof {
        assert(bytes@.subrange(0, 4) =~= magic_tag());
    }
    if n < 12 {
        return Err(PatchError::Truncated);
    }
    let lit_len64 = read_le64(bytes, 4);
    if lit_len64 > (n - 12) as u64 {
        return Err(PatchError::Truncated);
    }
    let lit_len = lit_len64 as usize;
    let mut literal: Vec<u8> = Vec::new();
    append_range(&mut literal, bytes, 12, lit_len);
    proof {
        assert(literal@ =~= bytes@.subrange(12, 12 + lit_len as int));
    }
    let p2 = 12 + lit_len;
    if n - p2 < 8 {
        return Err(PatchError::Truncated);
    }
    let count64 = read_le64(bytes, p2);
    let rest = n - p2 - 8;
    if count64 > (rest / 17) as u64 {
        proof {
            assert(rest < count64 * 17) by (nonlinear_arith)
                requires
                    count64 > rest as u64 / 17,
                    rest <= usize::MAX,
            ;
        }
        return Err(PatchError::Truncated);
    }
    let count = count64 as usize;
    proof {
        assert(count * 17 <= rest + 16 && count as u64 == count64) by (nonlinear_arith)
            requires
                count64 <= rest as u64 / 17,
                count == count64 as usize,
                rest <= usize::MAX,
        ;
    }
    if count * 17 < rest {
        return Err(PatchError::TrailingData);
    }
    if count * 17 > rest {
        return Err(PatchError::Truncated);
    }
    let start = p2 + 8;
    let mut entries: Vec<PatchEntry> = Vec::new();
    let mut k: usize = 0;
    let mut pos: usize = start;
    while k < count
        invariant
            k <= count,
            pos == start + k * 17,
            start + count * 17 == n,
            n == bytes@.len(),
            match parse_entries(bytes@, pos as int, count - k) {
                Some(es2) => parse_entries(bytes@, start as int, count as int) == Some(
                    entries@ + es2,
                ),
                None => parse_entries(bytes@, start as int, count as int) is None,
            },
        decreases count - k,
    {
        proof {
            assert(pos + 17 <= n) by (nonlinear_arith)
                requires
                    pos == start + k * 17,
                    start + count * 17 == n,
                    k < count,
            ;
        }
        let tag = bytes[pos];
        if tag != 1 && tag != 2 {
            return Err(PatchError::BadTag);
        }
        let offset = read_le64(bytes, pos + 1);
        let length = read_le64(bytes, pos + 9);
        let e = if tag == 1 {
            PatchEntry::CopySource { offset, length }
        } else {
            PatchEntry::CopyLiteral { offset, length }
        };
        proof {
            assert(parse_entries(bytes@, pos as int, count - k) matches Some(es2) ==> es2
                == seq![e] + parse_entries(bytes@, pos + 17, count - k - 1).unwrap());
            assert(entries@.push(e) + parse_entries(bytes@, pos + 17, count - k - 1).unwrap_or(
                Seq::empty(),
            ) =~= entries@ + (seq![e] + parse_entries(bytes@, pos + 17, count - k - 1).unwrap_or(
                Seq::empty(),
            )));
        }
        entries.push(e);
        k = k + 1;
        pos = pos + 17;
        proof {
            assert(pos == start + k * 17) by (nonlinear_arith)
                requires
                    pos == start + (k - 1) * 17 + 17,
            ;
        }
    }
    proof {
        assert(parse_entries(bytes@, pos as int, 0) == Some(Seq::<PatchEntry>::empty()));
        assert(entries@ + Seq::<PatchEntry>::empty() =~= entries@);
    }
    Ok(Patch { entries, literal })
}

/// Replay a patch over a source buffer, reconstructing the destination.
///
/// Fails, touching nothing, when any instruction references bytes
/// outside the source or the literal blob.
#[verifier::loop_isolation(false)]
pub fn apply_patch(source: &Vec<u8>, patch: &Patch) -> (r: Result<Vec<u8>, PatchError>)
    ensures
        match r {
            Ok(out) => replay(patch@, source@) == Some(out@),
            Err(e) => e == PatchError::OutOfRange && replay(patch@, source@) is None,
        },
{
    proof {
        vstd::std_specs::vec::axiom_spec_len(source);
        vstd::std_specs::vec::axiom_spec_len(&patch.literal);
    }
    let ghost es = patch.entries@;
    let ghost src = source@;
    let ghost lit = patch.literal@;
    let mut out: Vec<u8> = Vec::new();
    proof {
        assert(es.skip(0) =~= es);
        assert(Seq::<u8>::empty() + replay_entries(es, src, lit).unwrap_or(Seq::empty())
            =~= replay_entries(es, src, lit).unwrap_or(Seq::empty()));
    }
    let mut k: usize = 0;
    while k < patch.entries.len()
        invariant
            k <= es.len(),
            es == patch.entries@,
            src == source@,
            lit == patch.literal@,
            src.len() <= usize::MAX,
            lit.len() <= usize::MAX,
            match replay_entries(es.skip(k as int), src, lit) {
                Some(rest) => replay(patch@, src) == Some(out@ + rest),
                None => replay(patch@, src) is None,
            },
        decreases es.len() - k,
    {
        let e = patch.entries[k];
        let ghost out0 = out@;
        proof {
            assert(es.skip(k as int).drop_first() =~= es.skip(k + 1));
            assert(es.skip(k as int)[0] == es[k as int]);
        }
        match e {
            PatchEntry::CopySource { offset, length } => {
                if length > source.len() as u64 || offset > source.len() as u64 - length {
                    proof {
                        assert(entry_bytes(e, src, lit) is None);
                    }
                    return Err(PatchError::OutOfRange);
                }
                append_range(&mut out, source, offset as usize, length as usize);
            },
            PatchEntry::CopyLiteral { offset, length } => {
                if length > patch.literal.len() as u64 || offset > patch.literal.len() as u64
                    - length {
                    proof {
                        assert(entry_bytes(e, src, lit) is None);
                    }
                    return Err(PatchError::OutOfRange);
                }
                append_range(&mut out, &patch.literal, offset as usize, length as usize);
            },
        }
        proof {
            let b = entry_bytes(es[k as int], src, lit).unwrap();
            assert(out@ == out0 + b);
            if replay_entries(es.skip(k + 1), src, lit) is Some {
                let rest2 = replay_entries(es.skip(k + 1), src, lit).unwrap();
                assert(replay_entries(es.skip(k as int), src, lit) == Some(b + rest2));
                assert(out0 + (b + rest2) =~= (out0 + b) + rest2);
            } else {
                assert(replay_entries(es.skip(k as int), src, lit) is None);
            }
        }
        k = k + 1;
    }
    proof {
        assert(es.skip(es.len() as int) =~= Seq::<PatchEntry>::empty());
        assert(out@ + Seq::<u8>::empty() =~= out@);
    }
    Ok(out)
}

} // verus!
