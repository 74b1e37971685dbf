//! Tests of the rolling checksum and the CRC-32 chunk identity.

use rehydrator::crc::crc32_range;
use rehydrator::index::{chunk_id, pack, ChunkId};
use rehydrator::chunking::ChunkMeta;
use rehydrator::rollsum::{bupsplit_find_ofs, bupsplit_sum, Rollsum};

fn lcg_data(n: usize, seed: u64) -> Vec<u8> {
    let mut x = seed;
    let mut v = Vec::with_capacity(n);
    for _ in 0..n {
        x = x
            .wrapping_mul(6364136223846793005)
            .wrapping_add(1442695040888963407);
        v.push((x >> 33) as u8);
    }
    v
}

#[test]
fn rollsum_digest_values() {
    // Exact digests of the initial state and small inputs.
    assert_eq!(bupsplit_sum(&[]), 130082880);
    assert_eq!(bupsplit_sum(&[42]), 132835434);
    assert_eq!(bupsplit_sum(b"hello world"), 203162176);
}

#[test]
fn rollsum_streaming_matches_sum() {
    let data = lcg_data(500, 6);
    let mut r = Rollsum::new();
    for b in &data {
        r.roll(*b);
    }
    assert_eq!(r.digest(), bupsplit_sum(&data));
}

#[test]
fn find_ofs_first_boundary() {
    let data = lcg_data(100000, 12345);
    // The first chunk cut of this buffer, found independently of the
    // chunker.
    assert_eq!(bupsplit_find_ofs(&data), Some(1211));
    assert_eq!(bupsplit_find_ofs(&[]), None);
    // Zero bytes never reach the all-ones boundary state.
    assert_eq!(bupsplit_find_ofs(&vec![0u8; 50000]), None);
}

#[test]
fn crc32_known_value() {
    let data: Vec<u8> = b"123456789".to_vec();
    assert_eq!(crc32_range(&data, 0, 9), 0xCBF43926);
    assert_eq!(crc32_range(&data, 0, 0), 0);
}

#[test]
fn chunk_identity_separates_content_and_length() {
    let data: Vec<u8> = vec![1, 2, 3, 4, 1, 2, 3, 4];
    let a = chunk_id(&data, &ChunkMeta { start: 0, len: 4 });
    let b = chunk_id(&data, &ChunkMeta { start: 4, len: 4 });
    let c = chunk_id(&data, &ChunkMeta { start: 0, len: 5 });
    assert_eq!(a, b);
    assert_ne!(a, c);
    assert_eq!(pack(a), pack(b));
    assert_ne!(pack(a), pack(c));
    assert_eq!(
        a,
        ChunkId {
            checksum: crc32_range(&data, 0, 4),
            length: 4
        }
    );
}
