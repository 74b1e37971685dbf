//! Rolling checksum over a fixed 64-byte window, updatable in O(1) per
//! byte, with the boundary predicate used for content-defined chunking.
//!
//! The checksum keeps two running sums: `s1`, a sum of the window bytes
//! (each offset by a fixed constant), and `s2`, a second-order sum of
//! `s1`'s history. Both wrap modulo 2^32 by design; boundary positions
//! are a pure function of the byte stream.

use vstd::prelude::*;

verus! {

/// Additive constant applied to every byte before summing; avoids
/// correlated zero runs degrading the checksum.
pub const ROLLSUM_CHAR_OFFSET: u32 = 31;

/// Number of low bits of `s2` tested by the boundary predicate.
pub const BUP_BLOBBITS: u32 = 13;

/// 1 << BUP_BLOBBITS; the expected chunk size in bytes.
pub const BUP_BLOBSIZE: u32 = 8192;

/// Size in bytes of the sliding window.
pub const BUP_WINDOWSIZE: u32 = 64;

/// BUP_BLOBSIZE - 1: the mask selecting the bits tested by the
/// boundary predicate.
pub const BUP_BLOBMASK: u32 = 8191;

/// Initial value of `s1`: the window starts as 64 zero bytes, each
/// contributing the character offset.
pub const S1_INIT: u32 = 64 * 31;

/// Initial value of `s2`: 64 * 63 * 31, the second-order sum over the
/// initial zero window.
pub const S2_INIT: u32 = 64 * 63 * 31;

/// Mathematical state of the rolling checksum: the two wrapping sums,
/// the window contents and the circular cursor.
pub struct RollsumView {
    pub s1: u32,
    pub s2: u32,
    pub window: Seq<u8>,
    pub wofs: int,
}

/// State of a fresh checksum: zero-filled window, cursor at the start.
pub open spec fn rollsum_init() -> RollsumView {
    RollsumView { s1: S1_INIT, s2: S2_INIT, window: Seq::new(64, |i: int| 0u8), wofs: 0 }
}

/// Effect of dropping `dropped` and adding `added` on the two sums,
/// with wrapping 32-bit arithmetic.
pub open spec fn sum_add(m: RollsumView, dropped: u8, added: u8) -> RollsumView {
    let s1 = vstd::wrapping::u32_specs::wrapping_add(
        m.s1,
        vstd::wrapping::u32_specs::wrapping_sub(added as u32, dropped as u32),
    );
    let s2 = vstd::wrapping::u32_specs::wrapping_add(
        m.s2,
        vstd::wrapping::u32_specs::wrapping_sub(
            s1,
            (BUP_WINDOWSIZE * (dropped as u32 + ROLLSUM_CHAR_OFFSET)) as u32,
        ),
    );
    RollsumView { s1, s2, window: m.window, wofs: m.wofs }
}

/// Effect of rolling one byte: the byte under the cursor is dropped,
/// `ch` takes its place, and the cursor advances modulo the window size.
pub open spec fn sum_roll(m: RollsumView, ch: u8) -> RollsumView {
    let dropped = m.window[m.wofs];
    let added = sum_add(m, dropped, ch);
    RollsumView {
        s1: added.s1,
        s2: added.s2,
        window: m.window.update(m.wofs, ch),
        wofs: (m.wofs + 1) % 64,
    }
}

/// State after rolling a whole byte sequence into a fresh checksum.
/// Opaque: callers reason through the step equations, revealed where a
/// scan is unrolled.
#[verifier::opaque]
pub open spec fn rollsum_after(bytes: Seq<u8>) -> RollsumView
    decreases bytes.len(),
{
    if bytes.len() == 0 {
        rollsum_init()
    } else {
        sum_roll(rollsum_after(bytes.drop_last()), bytes.last())
    }
}

/// The 32-bit digest: `s1`'s low 16 bits in the high half, `s2`'s low
/// 16 bits in the low half.
pub open spec fn digest_view(m: RollsumView) -> u32 {
    (m.s1 << 16) | (m.s2 & 0xFFFF)
}

/// Position `i` is a candidate chunk boundary: after rolling bytes
/// `0..=i` the low 13 bits of `s2` are all ones.
pub open spec fn is_split_boundary(bytes: Seq<u8>, i: int) -> bool {
    &&& 0 <= i < bytes.len()
    &&& rollsum_after(bytes.take(i + 1)).s2 & BUP_BLOBMASK == BUP_BLOBMASK
}

/// Offset (position plus one) of the first candidate boundary of the
/// sequence at or after position `i`, if any.
pub open spec fn find_ofs_from(bytes: Seq<u8>, i: int) -> Option<int>
    decreases bytes.len() - i,
{
    if i < 0 || i >= bytes.len() {
        None
    } else if is_split_boundary(bytes, i) {
        Some(i + 1)
    } else {
        find_ofs_from(bytes, i + 1)
    }
}

/// Offset of the first candidate boundary of the whole sequence.
pub open spec fn find_ofs_spec(bytes: Seq<u8>) -> Option<int> {
    find_ofs_from(bytes, 0)
}

/// Rolling checksum state over the last 64 bytes of a stream.
pub struct Rollsum {
    pub s1: u32,
    pub s2: u32,
    pub window: Vec<u8>,
    pub wofs: usize,
}

impl View for Rollsum {
    type V = RollsumView;

    open spec fn view(&self) -> RollsumView {
        RollsumView { s1: self.s1, s2: self.s2, window: self.window@, wofs: self.wofs as int }
    }
}

impl Rollsum {
    /// The window always holds exactly 64 bytes and the cursor stays
    /// inside it.
    pub open spec fn wf(&self) -> bool {
        &&& self.window@.len() == 64
        &&& self.wofs < 64
    }

    /// A fresh checksum over a zero-filled window.
    pub fn new() -> (r: Rollsum)
        ensures
            r.wf(),
            r@ == rollsum_init(),
    {
        let r = Rollsum { s1: S1_INIT, s2: S2_INIT, window: vec![0u8; 64], wofs: 0 };
        proof {
            assert(r@.window =~= rollsum_init().window);
        }
        r
    }

    /// Update the two sums for one byte leaving the window and one
    /// byte entering it. The window itself is untouched.
    pub fn add(&mut self, dropped: u8, added: u8)
        ensures
            final(self)@ == sum_add(old(self)@, dropped, added),
            final(self).window == old(self).window,
            final(self).wofs == old(self).wofs,
    {
        let dropped_expanded: u32 = dropped as u32;
        let added_expanded: u32 = added as u32;
        self.s1 = self.s1.wrapping_add(added_expanded.wrapping_sub(dropped_expanded));
        self.s2 = self.s2.wrapping_add(
            self.s1.wrapping_sub(BUP_WINDOWSIZE * (dropped_expanded + ROLLSUM_CHAR_OFFSET)),
        );
    }

    /// Roll one byte into the window, dropping the byte it displaces.
    pub fn roll(&mut self, ch: u8)
        requires
            old(self).wf(),
        ensures
            final(self).wf(),
            final(self)@ == sum_roll(old(self)@, ch),
    {
        let wofs = self.wofs;
        let dval = self.window[wofs];
        self.add(dval, ch);
        self.window[wofs] = ch;
        self.wofs = (self.wofs + 1) % 64;
    }

    /// The combined 32-bit digest of the current state.
    pub fn digest(&self) -> (r: u32)
        ensures
            r == digest_view(self@),
    {
        (self.s1 << 16u32) | (self.s2 & 0xFFFF)
    }
}

/// Digest of a whole buffer rolled into a fresh checksum.
pub fn bupsplit_sum(buf: &[u8]) -> (r: u32)
    ensures
        r == digest_view(rollsum_after(buf@)),
{
    let mut r = Rollsum::new();
    proof {
        reveal(rollsum_after);
        assert(buf@.take(0) =~= Seq::<u8>::empty());
    }
    let mut i: usize = 0;
    while i < buf.len()
        invariant
            r.wf(),
            i <= buf@.len(),
            r@ == rollsum_after(buf@.take(i as int)),
        decreases buf@.len() - i,
    {
        r.roll(buf[i]);
        proof {
            reveal(rollsum_after);
            assert(buf@.take(i + 1).drop_last() =~= buf@.take(i as int));
            assert(buf@.take(i + 1).last() == buf@[i as int]);
        }
        i = i + 1;
    }
    proof {
        assert(buf@.take(buf@.len() as int) =~= buf@);
    }
    r.digest()
}

/// Offset just past the first candidate boundary of the buffer, or
/// `None` when no prefix of the buffer ends at a boundary.
pub fn bupsplit_find_ofs(sbuf: &[u8]) -> (r: Option<usize>)
    ensures
        match r {
            Some(ofs) => find_ofs_spec(sbuf@) == Some(ofs as int),
            None => find_ofs_spec(sbuf@) is None,
        },
{
    let mut r = Rollsum::new();
    proof {
        reveal(rollsum_after);
        assert(sbuf@.take(0) =~= Seq::<u8>::empty());
    }
    let mut i: usize = 0;
    while i < sbuf.len()
        invariant
            r.wf(),
            i <= sbuf@.len(),
            r@ == rollsum_after(sbuf@.take(i as int)),
            find_ofs_spec(sbuf@) == find_ofs_from(sbuf@, i as int),
        decreases sbuf@.len() - i,
    {
        r.roll(sbuf[i]);
        proof {
            reveal(rollsum_after);
            assert(sbuf@.take(i + 1).drop_last() =~= sbuf@.take(i as int));
            assert(sbuf@.take(i + 1).last() == sbuf@[i as int]);
        }
        if (r.s2 & BUP_BLOBMASK) == (u32::MAX & BUP_BLOBMASK) {
            proof {
                assert(u32::MAX & BUP_BLOBMASK == BUP_BLOBMASK) by (bit_vector);
                assert(is_split_boundary(sbuf@, i as int));
            }
            return Some(i + 1);
        }
        proof {
            assert(u32::MAX & BUP_BLOBMASK == BUP_BLOBMASK) by (bit_vector);
            assert(!is_split_boundary(sbuf@, i as int));
        }
        i = i + 1;
    }
    None
}

} // verus!
