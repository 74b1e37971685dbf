//! CRC-32 (IEEE, reflected polynomial) over byte ranges, used as the
//! content half of a chunk identity.
//!
//! The checksum only pre-filters candidate matches: equal CRC values
//! never substitute for the mandatory byte-for-byte verification.

use vstd::prelude::*;

verus! {

/// Reflected form of the IEEE CRC-32 polynomial.
pub const CRC32_POLY: u32 = 0xEDB88320;

/// Initial register value; also the final whitening mask.
pub const CRC32_INIT: u32 = 0xFFFFFFFF;

/// One bit step: shift the register right, folding in the polynomial
/// when the dropped bit was set.
pub open spec fn crc32_bit(c: u32) -> u32 {
    if c & 1 == 1 {
        (c >> 1) ^ CRC32_POLY
    } else {
        c >> 1
    }
}

/// `n` bit steps applied to the register.
pub open spec fn crc32_bits(c: u32, n: nat) -> u32
    decreases n,
{
    if n == 0 {
        c
    } else {
        crc32_bit(crc32_bits(c, (n - 1) as nat))
    }
}

/// Fold one byte into the register: xor it in, then eight bit steps.
pub open spec fn crc32_byte(c: u32, b: u8) -> u32 {
    crc32_bits(c ^ (b as u32), 8)
}

/// Fold a whole byte sequence into the register.
pub open spec fn crc32_acc(c: u32, bytes: Seq<u8>) -> u32
    decreases bytes.len(),
{
    if bytes.len() == 0 {
        c
    } else {
        crc32_byte(crc32_acc(c, bytes.drop_last()), bytes.last())
    }
}

/// The CRC-32 of a byte sequence: accumulate from the all-ones
/// register, then invert. Opaque: identity reasoning only ever needs
/// that it is a function of the bytes.
#[verifier::opaque]
pub open spec fn crc32_spec(bytes: Seq<u8>) -> u32 {
    crc32_acc(CRC32_INIT, bytes) ^ CRC32_INIT
}

/// CRC-32 of `buf[start..end]`.
pub fn crc32_range(buf: &Vec<u8>, start: usize, end: usize) -> (r: u32)
    requires
        start <= end <= buf@.len(),
    ensures
        r == crc32_spec(buf@.subrange(start as int, end as int)),
{
    let ghost range = buf@.subrange(start as int, end as int);
    let mut c: u32 = CRC32_INIT;
    let mut i: usize = start;
    while i < end
        invariant
            start <= i <= end <= buf@.len(),
            c == crc32_acc(CRC32_INIT, buf@.subrange(start as int, i as int)),
        decreases end - i,
    {
        c = c ^ (buf[i] as u32);
        let mut k: usize = 0;
        let ghost c0 = c;
        while k < 8
            invariant
                k <= 8,
                c == crc32_bits(c0, k as nat),
            decreases 8 - k,
        {
            if c & 1 == 1 {
                c = (c >> 1u32) ^ CRC32_POLY;
            } else {
                c = c >> 1u32;
            }
            k = k + 1;
        }
        proof {
            let pre = buf@.subrange(start as int, i as int);
            let next = buf@.subrange(start as int, i + 1);
            assert(next.drop_last() =~= pre);
            assert(next.last() == buf@[i as int]);
        }
        i = i + 1;
    }
    proof {
        reveal(crc32_spec);
    }
    c ^ CRC32_INIT
}

} // verus!
