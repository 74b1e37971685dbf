//! Literal deduplication: collapse byte-identical unmatched chunks so
//! each unique literal payload is stored exactly once.
//!
//! Unmatched destination ranges are scanned in order; a range whose
//! bytes were seen before reuses the earlier buffer's offset, otherwise
//! its bytes are appended as a new unique buffer. The blob is the
//! concatenation of the unique buffers in first-seen order.

use vstd::prelude::*;

use crate::chunking::range_eq;
use crate::delta::{UnmatchedEntry, UnmatchedSpec};

verus! {

/// The destination bytes an unmatched entry denotes.
pub open spec fn payload_of(dst: Seq<u8>, e: UnmatchedSpec) -> Seq<u8> {
    dst.subrange(e.dest_offset, e.dest_offset + e.length)
}

/// The payloads of a sequence of unmatched entries, in order.
pub open spec fn payloads(es: Seq<UnmatchedSpec>, dst: Seq<u8>) -> Seq<Seq<u8>> {
    Seq::new(es.len(), |i: int| payload_of(dst, es[i]))
}

/// The distinct payloads in first-seen order.
pub open spec fn uniques(ps: Seq<Seq<u8>>) -> Seq<Seq<u8>>
    decreases ps.len(),
{
    if ps.len() == 0 {
        Seq::empty()
    } else {
        let u = uniques(ps.drop_last());
        if u.contains(ps.last()) {
            u
        } else {
            u.push(ps.last())
        }
    }
}

/// Position of the first occurrence of `x` in `us` at or after `k`.
pub open spec fn find_first_from(us: Seq<Seq<u8>>, x: Seq<u8>, k: int) -> Option<int>
    decreases us.len() - k,
{
    if k < 0 || k >= us.len() {
        None
    } else if us[k] == x {
        Some(k)
    } else {
        find_first_from(us, x, k + 1)
    }
}

/// Position of the first occurrence of `x` in `us`.
pub open spec fn find_first(us: Seq<Seq<u8>>, x: Seq<u8>) -> Option<int> {
    find_first_from(us, x, 0)
}

/// Byte offset of buffer `k` within the concatenation of `us`.
pub open spec fn offset_of(us: Seq<Seq<u8>>, k: int) -> int
    decreases k,
{
    if k <= 0 {
        0
    } else {
        offset_of(us, k - 1) + us[k - 1].len()
    }
}

/// Concatenation of the buffers of `us`, in order.
pub open spec fn concat_bufs(us: Seq<Seq<u8>>) -> Seq<u8>
    decreases us.len(),
{
    if us.len() == 0 {
        Seq::empty()
    } else {
        concat_bufs(us.drop_last()) + us.last()
    }
}

/// What `find_first` returns: the first position holding `x`, if any.
pub proof fn lemma_find_first_from(us: Seq<Seq<u8>>, x: Seq<u8>, k: int)
    requires
        0 <= k <= us.len(),
    ensures
        match find_first_from(us, x, k) {
            Some(p) => k <= p < us.len() && us[p] == x && forall|q: int|
                k <= q < p ==> us[q] != x,
            None => forall|q: int| k <= q < us.len() ==> us[q] != x,
        },
    decreases us.len() - k,
{
    if k < us.len() && us[k] != x {
        lemma_find_first_from(us, x, k + 1);
    }
}

/// `find_first` is stable under extending the sequence on the right.
pub proof fn lemma_find_first_prefix(u1: Seq<Seq<u8>>, u2: Seq<Seq<u8>>, x: Seq<u8>, k: int)
    requires
        u1.len() <= u2.len(),
        forall|i: int| 0 <= i < u1.len() ==> u1[i] == u2[i],
        find_first(u1, x) == Some(k),
    ensures
        find_first(u2, x) == Some(k),
{
    lemma_find_first_from(u1, x, 0);
    lemma_find_first_from(u2, x, 0);
    assert(u2[k] == u1[k]);
    match find_first(u2, x) {
        Some(p) => {
            if p < k {
                assert(u1[p] == u2[p]);
            }
        },
        None => {
        },
    }
}

/// The offset of a later buffer is never smaller.
pub proof fn lemma_offset_monotone(us: Seq<Seq<u8>>, k1: int, k2: int)
    requires
        k1 <= k2,
    ensures
        offset_of(us, k1) <= offset_of(us, k2),
    decreases k2 - k1,
{
    if k1 < k2 {
        lemma_offset_monotone(us, k1, k2 - 1);
        if k2 > 0 {
        }
    }
}

/// Offsets only depend on the buffers before them.
pub proof fn lemma_offset_pointwise(u1: Seq<Seq<u8>>, u2: Seq<Seq<u8>>, k: int)
    requires
        k <= u1.len(),
        k <= u2.len(),
        forall|i: int| 0 <= i < k ==> u1[i] == u2[i],
    ensures
        offset_of(u1, k) == offset_of(u2, k),
    decreases k,
{
    if k > 0 {
        lemma_offset_pointwise(u1, u2, k - 1);
    }
}

/// The offset past the last buffer is the concatenation's length.
pub proof fn lemma_offset_total(us: Seq<Seq<u8>>)
    ensures
        offset_of(us, us.len() as int) == concat_bufs(us).len(),
    decreases us.len(),
{
    if us.len() > 0 {
        lemma_offset_total(us.drop_last());
        lemma_offset_pointwise(us, us.drop_last(), us.len() - 1);
    }
}

/// Buffer `k` sits at its offset within the concatenation.
pub proof fn lemma_concat_slice(us: Seq<Seq<u8>>, k: int)
    requires
        0 <= k < us.len(),
    ensures
        0 <= offset_of(us, k),
        offset_of(us, k) + us[k].len() <= concat_bufs(us).len(),
        concat_bufs(us).subrange(offset_of(us, k), offset_of(us, k) + us[k].len()) == us[k],
    decreases us.len(),
{
    lemma_offset_monotone(us, 0, k);
    let cd = concat_bufs(us.drop_last());
    if k == us.len() - 1 {
        lemma_offset_total(us.drop_last());
        lemma_offset_pointwise(us, us.drop_last(), k);
        assert(offset_of(us, k) == cd.len());
        assert((cd + us.last()).subrange(cd.len() as int, cd.len() + us.last().len() as int)
            =~= us.last());
    } else {
        lemma_concat_slice(us.drop_last(), k);
        lemma_offset_pointwise(us, us.drop_last(), k);
        let o = offset_of(us, k);
        assert(us.drop_last()[k] == us[k]);
        lemma_offset_monotone(us.drop_last(), k + 1, us.drop_last().len() as int);
        lemma_offset_total(us.drop_last());
        assert(offset_of(us.drop_last(), k) + us[k].len() == offset_of(us.drop_last(), k + 1));
        assert(o + us[k].len() <= cd.len());
        assert((cd + us.last()).subrange(o, o + us[k].len()) =~= cd.subrange(o, o + us[k].len()));
    }
}

/// The unique buffers are pairwise distinct.
pub proof fn lemma_uniques_distinct(ps: Seq<Seq<u8>>)
    ensures
        forall|p: int, q: int|
            0 <= p < q < uniques(ps).len() ==> uniques(ps)[p] != uniques(ps)[q],
    decreases ps.len(),
{
    if ps.len() > 0 {
        lemma_uniques_distinct(ps.drop_last());
        let u = uniques(ps.drop_last());
        let x = ps.last();
        if !u.contains(x) {
            let w = u.push(x);
            assert(uniques(ps) == w);
            assert forall|p: int, q: int| 0 <= p < q < w.len() implies w[p] != w[q] by {
                if q == w.len() - 1 {
                    assert(w[q] == x);
                    assert(w[p] == u[p]);
                    if u[p] == x {
                        assert(u.contains(x));
                    }
                } else {
                    assert(w[p] == u[p] && w[q] == u[q]);
                }
            }
        }
    }
}

/// A payload occurs among the unique buffers exactly when it occurs
/// among the payloads.
pub proof fn lemma_uniques_contains(ps: Seq<Seq<u8>>, x: Seq<u8>)
    ensures
        uniques(ps).contains(x) <==> ps.contains(x),
    decreases ps.len(),
{
    if ps.len() > 0 {
        let pd = ps.drop_last();
        lemma_uniques_contains(pd, x);
        let u = uniques(pd);
        let last = ps.last();

        // Transfer `contains` between the sequence and its front part.
        assert(pd.contains(x) ==> ps.contains(x)) by {
            if pd.contains(x) {
                let i = choose|i: int| 0 <= i < pd.len() && pd[i] == x;
                assert(ps[i] == x);
            }
        }
        assert(ps.contains(x) && last != x ==> pd.contains(x)) by {
            if ps.contains(x) && last != x {
                let i = choose|i: int| 0 <= i < ps.len() && ps[i] == x;
                assert(i < ps.len() - 1);
                assert(pd[i] == x);
            }
        }

        if u.contains(last) {
            assert(uniques(ps) == u);
            if ps.contains(x) && last == x {
                assert(u.contains(x));
            }
        } else {
            let w = u.push(last);
            assert(uniques(ps) == w);
            assert(w.contains(x) <==> u.contains(x) || x == last) by {
                if w.contains(x) {
                    let i = choose|i: int| 0 <= i < w.len() && w[i] == x;
                    if i < u.len() {
                        assert(u[i] == x);
                    } else {
                        assert(x == last);
                    }
                }
                if u.contains(x) {
                    let i = choose|i: int| 0 <= i < u.len() && u[i] == x;
                    assert(w[i] == x);
                }
                if x == last {
                    assert(w[u.len() as int] == x);
                }
            }
            if ps.contains(x) && last == x {
                assert(w.contains(x));
            }
        }
    }
}

/// The uniques of a longer payload prefix extend those of a shorter
/// one.
pub proof fn lemma_uniques_step(ps: Seq<Seq<u8>>, i: int)
    requires
        0 <= i < ps.len(),
    ensures
        uniques(ps.take(i + 1)) == if uniques(ps.take(i)).contains(ps[i]) {
            uniques(ps.take(i))
        } else {
            uniques(ps.take(i)).push(ps[i])
        },
{
    let cur = ps.take(i + 1);
    assert(cur.drop_last() =~= ps.take(i));
    assert(cur.last() == ps[i]);
}

/// A literal reference: the destination range of one unmatched chunk
/// and the range of the literal blob holding its bytes.
#[derive(Clone, Copy, PartialEq, Eq, Structural, Debug)]
pub struct LiteralRef {
    pub dest_offset: usize,
    pub literal_offset: usize,
    pub length: usize,
}

/// Mathematical counterpart of `LiteralRef`.
pub struct LiteralRefSpec {
    pub dest_offset: int,
    pub literal_offset: int,
    pub length: int,
}

impl View for LiteralRef {
    type V = LiteralRefSpec;

    open spec fn view(&self) -> LiteralRefSpec {
        LiteralRefSpec {
            dest_offset: self.dest_offset as int,
            literal_offset: self.literal_offset as int,
            length: self.length as int,
        }
    }
}

/// The reference the deduplicator assigns to entry `i`: its payload's
/// first-seen unique buffer, at that buffer's blob offset.
pub open spec fn lit_ref_spec(es: Seq<UnmatchedSpec>, dst: Seq<u8>, i: int) -> LiteralRefSpec {
    let ps = payloads(es, dst);
    let u = uniques(ps);
    let k = find_first(u, ps[i]).unwrap();
    LiteralRefSpec {
        dest_offset: es[i].dest_offset,
        literal_offset: offset_of(u, k),
        length: es[i].length,
    }
}

/// Result of deduplication: the literal blob, one reference per
/// unmatched entry in order, and the number of entries that reused an
/// earlier buffer.
pub struct DedupLiterals {
    pub blob: Vec<u8>,
    pub refs: Vec<LiteralRef>,
    pub eliminated: u64,
}

/// Every literal reference is valid: it repeats its entry's range, and
/// the blob bytes at its literal offset are exactly the entry's
/// destination payload.
pub proof fn lemma_lit_ref_valid(es: Seq<UnmatchedSpec>, dst: Seq<u8>, i: int)
    requires
        0 <= i < es.len(),
    ensures
        lit_ref_spec(es, dst, i).dest_offset == es[i].dest_offset,
        lit_ref_spec(es, dst, i).length == es[i].length,
        0 <= lit_ref_spec(es, dst, i).literal_offset,
        lit_ref_spec(es, dst, i).literal_offset + payload_of(dst, es[i]).len() <= concat_bufs(
            uniques(payloads(es, dst)),
        ).len(),
        concat_bufs(uniques(payloads(es, dst))).subrange(
            lit_ref_spec(es, dst, i).literal_offset,
            lit_ref_spec(es, dst, i).literal_offset + payload_of(dst, es[i]).len(),
        ) == payload_of(dst, es[i]),
{
    let ps = payloads(es, dst);
    let u = uniques(ps);
    let p = ps[i];
    assert(ps.contains(p)) by {
        assert(ps[i] == p);
    }
    lemma_uniques_contains(ps, p);
    lemma_find_first_from(u, p, 0);
    assert(find_first(u, p) is Some) by {
        if find_first(u, p) is None {
            let q = choose|q: int| 0 <= q < u.len() && u[q] == p;
        }
    }
    let k = find_first(u, p).unwrap();
    lemma_concat_slice(u, k);
    assert(p == payload_of(dst, es[i]));
}

/// Deduplication collapses byte-identical payloads: two unmatched
/// entries with the same bytes reference the same literal offset, and
/// that payload occurs exactly once among the blob's unique buffers.
pub proof fn lemma_dedup_collapses(es: Seq<UnmatchedSpec>, dst: Seq<u8>, i1: int, i2: int)
    requires
        0 <= i1 < es.len(),
        0 <= i2 < es.len(),
        payload_of(dst, es[i1]) == payload_of(dst, es[i2]),
    ensures
        lit_ref_spec(es, dst, i1).literal_offset == lit_ref_spec(es, dst, i2).literal_offset,
        exists|k: int|
            0 <= k < uniques(payloads(es, dst)).len() && uniques(payloads(es, dst))[k]
                == payload_of(dst, es[i1]),
        forall|k1: int, k2: int|
            0 <= k1 < uniques(payloads(es, dst)).len() && 0 <= k2 < uniques(
                payloads(es, dst),
            ).len() && uniques(payloads(es, dst))[k1] == payload_of(dst, es[i1]) && uniques(
                payloads(es, dst),
            )[k2] == payload_of(dst, es[i1]) ==> k1 == k2,
{
    let ps = payloads(es, dst);
    let u = uniques(ps);
    let p = ps[i1];
    assert(ps[i2] == p);
    lemma_lit_ref_valid(es, dst, i1);
    lemma_lit_ref_valid(es, dst, i2);
    assert(ps.contains(p)) by {
        assert(ps[i1] == p);
    }
    lemma_uniques_contains(ps, p);
    lemma_find_first_from(u, p, 0);
    assert(find_first(u, p) is Some) by {
        if find_first(u, p) is None {
            let q = choose|q: int| 0 <= q < u.len() && u[q] == p;
        }
    }
    let k = find_first(u, p).unwrap();
    assert(0 <= k < u.len() && u[k] == p);
    lemma_uniques_distinct(ps);
}

/// Concatenation distributes over prepending one buffer.
pub proof fn lemma_concat_prepend(x: Seq<u8>, s: Seq<Seq<u8>>)
    ensures
        concat_bufs(seq![x] + s) == x + concat_bufs(s),
    decreases s.len(),
{
    let t = seq![x] + s;
    if s.len() == 0 {
        assert(t.drop_last() =~= Seq::<Seq<u8>>::empty());
        assert(t.last() == x);
        assert(concat_bufs(t.drop_last()) == Seq::<u8>::empty());
        assert(concat_bufs(t) == Seq::<u8>::empty() + x);
        assert(Seq::<u8>::empty() + x =~= x);
        assert(concat_bufs(s) == Seq::<u8>::empty());
        assert(x + Seq::<u8>::empty() =~= x);
    } else {
        assert(t.drop_last() =~= seq![x] + s.drop_last());
        assert(t.last() == s.last());
        lemma_concat_prepend(x, s.drop_last());
        assert(x + (concat_bufs(s.drop_last()) + s.last()) =~= (x + concat_bufs(s.drop_last()))
            + s.last());
    }
}

/// Deduplication never grows the data: the concatenated unique buffers
/// are no longer than the concatenated payloads.
pub proof fn lemma_uniques_concat_le(ps: Seq<Seq<u8>>)
    ensures
        concat_bufs(uniques(ps)).len() <= concat_bufs(ps).len(),
    decreases ps.len(),
{
    if ps.len() > 0 {
        lemma_uniques_concat_le(ps.drop_last());
        let u = uniques(ps.drop_last());
        if !u.contains(ps.last()) {
            assert(u.push(ps.last()).drop_last() =~= u);
            assert(u.push(ps.last()).last() == ps.last());
        }
    }
}

/// The uniques of a payload prefix form a pointwise prefix of the
/// uniques of any longer prefix.
pub proof fn lemma_uniques_prefix(ps: Seq<Seq<u8>>, i: int, j: int)
    requires
        0 <= i <= j <= ps.len(),
    ensures
        uniques(ps.take(i)).len() <= uniques(ps.take(j)).len(),
        forall|k: int|
            0 <= k < uniques(ps.take(i)).len() ==> uniques(ps.take(i))[k] == uniques(ps.take(j))[k],
    decreases j - i,
{
    if i < j {
        lemma_uniques_step(ps, j - 1);
        lemma_uniques_prefix(ps, i, j - 1);
    }
}

/// All unmatched entries denote ranges inside the destination.
pub open spec fn unmatched_in_bounds(es: Seq<UnmatchedSpec>, n: int) -> bool {
    forall|i: int|
        0 <= i < es.len() ==> 0 <= (#[trigger] es[i]).dest_offset && 0 <= es[i].length
            && es[i].dest_offset + es[i].length <= n
}

/// Deduplicate the unmatched destination ranges.
///
/// The blob is the concatenation of the distinct payloads in first-seen
/// order; each entry's reference points at its payload's unique buffer.
pub fn dedup_literals(unmatched: &Vec<UnmatchedEntry>, dst: &Vec<u8>) -> (r: DedupLiterals)
    requires
        unmatched_in_bounds(unmatched@.map_values(|e: UnmatchedEntry| e@), dst@.len() as int),
    ensures
        r.blob@ == concat_bufs(
            uniques(payloads(unmatched@.map_values(|e: UnmatchedEntry| e@), dst@)),
        ),
        r.refs@.len() == unmatched@.len(),
        forall|i: int|
            0 <= i < unmatched@.len() ==> (#[trigger] r.refs@[i])@ == lit_ref_spec(
                unmatched@.map_values(|e: UnmatchedEntry| e@),
                dst@,
                i,
            ),
        r.eliminated as int == unmatched@.len() - uniques(
            payloads(unmatched@.map_values(|e: UnmatchedEntry| e@), dst@),
        ).len(),
{
    let ghost es = unmatched@.map_values(|e: UnmatchedEntry| e@);
    let ghost ps = payloads(es, dst@);
    let ghost u_all = uniques(ps);
    let mut blob: Vec<u8> = Vec::new();
    let mut refs: Vec<LiteralRef> = Vec::new();
    let mut uq: Vec<(usize, usize)> = Vec::new();
    let mut eliminated: u64 = 0;
    let mut i: usize = 0;
    proof {
        assert(ps.take(0) =~= Seq::<Seq<u8>>::empty());
    }
    while i < unmatched.len()
        invariant
            unmatched_in_bounds(es, dst@.len() as int),
            es == unmatched@.map_values(|e: UnmatchedEntry| e@),
            ps == payloads(es, dst@),
            u_all == uniques(ps),
            i <= unmatched@.len(),
            blob@ == concat_bufs(uniques(ps.take(i as int))),
            uq@.len() == uniques(ps.take(i as int)).len(),
            forall|k: int|
                0 <= k < uq@.len() ==> (#[trigger] uq@[k]).0 == offset_of(
                    uniques(ps.take(i as int)),
                    k,
                ) && uq@[k].1 == uniques(ps.take(i as int))[k].len(),
            refs@.len() == i,
            forall|k: int| 0 <= k < i ==> (#[trigger] refs@[k])@ == lit_ref_spec(es, dst@, k),
            eliminated as int == i - uniques(ps.take(i as int)).len(),
        decreases unmatched@.len() - i,
    {
        let e = unmatched[i];
        let ghost ui = uniques(ps.take(i as int));
        let ghost p = ps[i as int];
        proof {
            assert(es[i as int] == unmatched@[i as int]@);
            assert(p == payload_of(dst@, es[i as int]));
            assert(p.len() == e@.length);
        }
        // Linear scan of the unique buffers for a byte-identical one.
        let mut hit: Option<usize> = None;
        let mut k: usize = 0;
        while k < uq.len()
            invariant
                uq@.len() == ui.len(),
                forall|k2: int|
                    0 <= k2 < uq@.len() ==> (#[trigger] uq@[k2]).0 == offset_of(ui, k2)
                        && uq@[k2].1 == ui[k2].len(),
                blob@ == concat_bufs(ui),
                unmatched_in_bounds(es, dst@.len() as int),
                i < es.len(),
                es[i as int] == e@,
                p == payload_of(dst@, es[i as int]),
                k <= uq@.len(),
                match hit {
                    Some(h) => h < ui.len() && ui[h as int] == p && forall|q: int|
                        0 <= q < h ==> ui[q] != p,
                    None => forall|q: int| 0 <= q < k ==> ui[q] != p,
                },
            decreases uq@.len() - k,
        {
            if hit.is_none() {
                let (uoff, ulen) = uq[k];
                proof {
                    lemma_concat_slice(ui, k as int);
                }
                if ulen == e.length && range_eq(dst, e.dest_offset, &blob, uoff, e.length) {
                    proof {
                        assert(blob@.subrange(uoff as int, uoff + ulen) == ui[k as int]);
                        assert(ui[k as int] == p);
                    }
                    hit = Some(k);
                } else {
                    proof {
                        if ui[k as int] == p {
                            assert(ui[k as int].len() == p.len());
                            assert(blob@.subrange(uoff as int, uoff + ulen) == ui[k as int]);
                        }
                    }
                }
            }
            k = k + 1;
        }
        proof {
            lemma_uniques_step(ps, i as int);
            lemma_uniques_prefix(ps, i + 1, ps.len() as int);
            assert(ps.take(ps.len() as int) =~= ps);
        }
        match hit {
            Some(h) => {
                let (uoff, _ulen) = uq[h];
                refs.push(
                    LiteralRef {
                        dest_offset: e.dest_offset,
                        literal_offset: uoff,
                        length: e.length,
                    },
                );
                eliminated = eliminated + 1;
                proof {
                    // The payload was seen: the uniques are unchanged and
                    // the reference reuses the first occurrence.
                    assert(ui.contains(p)) by {
                        assert(ui[h as int] == p);
                    }
                    assert(uniques(ps.take(i + 1)) == ui);
                    lemma_find_first_from(ui, p, 0);
                    let ff = find_first(ui, p);
                    assert(ff == Some(h as int)) by {
                        lemma_find_first_from(ui, p, 0);
                        match ff {
                            Some(q) => {
                                if q < h {
                                    assert(ui[q] != p);
                                } else if q > h {
                                    assert(ui[h as int] != p);
                                }
                            },
                            None => {
                                assert(ui[h as int] != p);
                            },
                        }
                    }
                    lemma_find_first_prefix(ui, u_all, p, h as int);
                    lemma_offset_pointwise(ui, u_all, h as int);
                    assert(refs@[i as int]@ == lit_ref_spec(es, dst@, i as int));
                    assert forall|k2: int| 0 <= k2 < i + 1 implies (#[trigger] refs@[k2])@
                        == lit_ref_spec(es, dst@, k2) by {}
                }
            },
            None => {
                let off = blob.len();
                proof {
                    vstd::std_specs::vec::axiom_spec_len(dst);
                }
                let mut t: usize = 0;
                while t < e.length
                    invariant
                        unmatched_in_bounds(es, dst@.len() as int),
                        i < es.len(),
                        es[i as int] == e@,
                        t <= e.length,
                        dst@.len() <= usize::MAX,
                        blob@ == concat_bufs(ui) + dst@.subrange(
                            e@.dest_offset,
                            e@.dest_offset + t,
                        ),
                    decreases e.length - t,
                {
                    blob.push(dst[e.dest_offset + t]);
                    proof {
                        assert(dst@.subrange(e@.dest_offset, e@.dest_offset + t + 1)
                            =~= dst@.subrange(e@.dest_offset, e@.dest_offset + t).push(
                            dst@[e@.dest_offset + t],
                        ));
                    }
                    t = t + 1;
                }
                uq.push((off, e.length));
                refs.push(
                    LiteralRef {
                        dest_offset: e.dest_offset,
                        literal_offset: off,
                        length: e.length,
                    },
                );
                proof {
                    // A new payload: it becomes the next unique buffer,
                    // appended at the end of the blob.
                    assert(!ui.contains(p)) by {
                        if ui.contains(p) {
                            let q = choose|q: int| 0 <= q < ui.len() && ui[q] == p;
                        }
                    }
                    let un = uniques(ps.take(i + 1));
                    assert(un == ui.push(p));
                    assert(un.drop_last() =~= ui);
                    assert(un.last() == p);
                    assert(blob@ == concat_bufs(un));
                    lemma_offset_total(ui);
                    lemma_offset_pointwise(un, ui, ui.len() as int);
                    assert(off as int == offset_of(un, ui.len() as int));
                    assert forall|k2: int|
                        0 <= k2 < un.len() implies (#[trigger] uq@[k2]).0 == offset_of(un, k2)
                        && uq@[k2].1 == un[k2].len() by {
                        if k2 < ui.len() {
                            lemma_offset_pointwise(un, ui, k2);
                            assert(uq@[k2] == uq@.drop_last()[k2]);
                            assert(un[k2] == ui[k2]);
                        } else {
                            assert(uq@[k2] == (off, e.length));
                        }
                    }
                    // The reference points at the new final buffer.
                    lemma_find_first_from(un, p, 0);
                    let ff = find_first(un, p);
                    assert(ff == Some(ui.len() as int)) by {
                        match ff {
                            Some(q) => {
                                if q < ui.len() {
                                    assert(un[q] == ui[q]);
                                    assert(ui[q] != p);
                                }
                            },
                            None => {
                                assert(un[ui.len() as int] == p);
                            },
                        }
                    }
                    lemma_find_first_prefix(un, u_all, p, ui.len() as int);
                    lemma_offset_pointwise(un, u_all, ui.len() as int);
                    assert(refs@[i as int]@ == lit_ref_spec(es, dst@, i as int));
                    assert forall|k2: int| 0 <= k2 < i + 1 implies (#[trigger] refs@[k2])@
                        == lit_ref_spec(es, dst@, k2) by {}
                }
            },
        }
        i = i + 1;
    }
    proof {
        assert(ps.take(ps.len() as int) =~= ps);
    }
    DedupLiterals { blob, refs, eliminated }
}

} // verus!
