//! End-to-end tests of the chunking, delta, dedup and patch pipeline.

use rehydrator::chunking::chunk_buffer;
use rehydrator::delta::compute_delta;
use rehydrator::patch::{apply_patch, dehydrate, deserialize, Patch, PatchEntry, PatchError};

/// Deterministic pseudo-random bytes from a 64-bit linear congruential
/// generator.
fn lcg_bytes(n: usize, seed: u64) -> Vec<u8> {
    let mut x = seed;
    let mut v = Vec::with_capacity(n);
    for _ in 0..n {
        x = x
            .wrapping_mul(6364136223846793005)
            .wrapping_add(1442695040888963407);
        v.push((x >> 33) as u8);
    }
    v
}

fn round_trip(source: &Vec<u8>, destination: &Vec<u8>) -> Vec<u8> {
    let patch = dehydrate(source, destination);
    let wire = patch.serialize();
    let patch2 = deserialize(&wire).expect("serialized patch must parse");
    apply_patch(source, &patch2).expect("replay must stay in bounds")
}

#[test]
fn chunking_partition_and_determinism() {
    let buf = lcg_bytes(100000, 12345);
    let chunks = chunk_buffer(&buf);
    assert_eq!(chunks.len(), 19);
    assert_eq!((chunks[0].start, chunks[0].len), (0, 1211));
    assert_eq!((chunks[1].start, chunks[1].len), (1211, 11632));
    let mut pos: usize = 0;
    for c in &chunks {
        assert_eq!(c.start, pos);
        assert!(c.len >= 1);
        assert!(c.len <= 32768);
        pos += c.len;
    }
    assert_eq!(pos, buf.len());
    let again = chunk_buffer(&buf);
    assert_eq!(chunks, again);
}

#[test]
fn chunking_empty_buffer() {
    let chunks = chunk_buffer(&Vec::new());
    assert!(chunks.is_empty());
}

#[test]
fn chunking_caps_degenerate_input() {
    // Zero bytes never satisfy the boundary predicate: every chunk is
    // cut by the hard cap.
    let buf = vec![0u8; 98304];
    let chunks = chunk_buffer(&buf);
    assert_eq!(chunks.len(), 3);
    for c in &chunks {
        assert_eq!(c.len, 32768);
    }
}

#[test]
fn delta_both_empty() {
    let delta = compute_delta(&Vec::new(), &Vec::new());
    assert_eq!(delta.matched.len(), 0);
    assert_eq!(delta.unmatched.len(), 0);
    assert_eq!(delta.stats.matched_bytes, 0);
    assert_eq!(delta.stats.unmatched_bytes, 0);
    assert_eq!(delta.stats.dest_chunks, 0);
    assert_eq!(delta.stats.destination_size, 0);
}

#[test]
fn delta_single_equal_byte() {
    let delta = compute_delta(&vec![42u8], &vec![42u8]);
    assert_eq!(delta.matched.len(), 1);
    assert_eq!(delta.matched[0].dest_offset, 0);
    assert_eq!(delta.matched[0].source_offset, 0);
    assert_eq!(delta.matched[0].length, 1);
    assert_eq!(delta.unmatched.len(), 0);
    assert_eq!(delta.stats.matched_bytes, 1);
    assert_eq!(delta.stats.unmatched_bytes, 0);
}

#[test]
fn delta_empty_source() {
    let delta = compute_delta(&Vec::new(), &vec![42u8]);
    assert_eq!(delta.matched.len(), 0);
    assert_eq!(delta.unmatched.len(), 1);
    assert_eq!(delta.unmatched[0].dest_offset, 0);
    assert_eq!(delta.unmatched[0].length, 1);
    assert_eq!(delta.stats.unmatched_bytes, 1);
    assert_eq!(delta.stats.id_misses, 1);
}

#[test]
fn delta_identity_matches_everything() {
    let buf = lcg_bytes(100000, 12345);
    let delta = compute_delta(&buf, &buf);
    assert_eq!(delta.unmatched.len(), 0);
    assert_eq!(delta.stats.unmatched_bytes, 0);
    assert_eq!(delta.stats.matched_bytes, 100000);
    assert_eq!(delta.stats.id_misses, 0);
    assert_eq!(delta.matched.len() as u64, delta.stats.dest_chunks);
}

#[test]
fn delta_disjoint_matches_nothing() {
    let source = vec![0xAAu8; 5000];
    let destination = vec![0x55u8; 5000];
    let delta = compute_delta(&source, &destination);
    assert_eq!(delta.matched.len(), 0);
    assert_eq!(delta.stats.matched_bytes, 0);
    assert_eq!(delta.stats.unmatched_bytes, 5000);
}

#[test]
fn identity_collision_is_not_a_match() {
    // Two six-byte buffers with equal CRC-32 (and equal length) share a
    // chunk identity but differ in content: the matcher must verify
    // bytes, count the collision, and classify the chunk as unmatched.
    let source: Vec<u8> = vec![162, 193, 33, 172, 152, 116];
    let destination: Vec<u8> = vec![163, 2, 106, 14, 238, 111];
    assert_eq!(
        rehydrator::crc::crc32_range(&source, 0, 6),
        rehydrator::crc::crc32_range(&destination, 0, 6)
    );
    let delta = compute_delta(&source, &destination);
    assert_eq!(delta.matched.len(), 0);
    assert_eq!(delta.unmatched.len(), 1);
    assert_eq!(delta.stats.crc_collisions, 1);
    assert_eq!(delta.stats.id_misses, 0);
    assert_eq!(round_trip(&source, &destination), destination);
}

#[test]
fn stats_split_destination() {
    let source = lcg_bytes(40000, 1);
    let mut destination = lcg_bytes(20000, 1);
    destination.extend_from_slice(&lcg_bytes(20000, 2));
    let delta = compute_delta(&source, &destination);
    assert_eq!(
        delta.stats.matched_bytes + delta.stats.unmatched_bytes,
        destination.len() as u64
    );
    assert_eq!(delta.stats.destination_size, destination.len() as u64);
}

#[test]
fn dedup_collapses_identical_literals() {
    // Three identical cap-sized zero chunks against a disjoint source:
    // the blob stores the payload once, all instructions reuse it.
    let source = vec![0xFFu8; 100];
    let destination = vec![0u8; 98304];
    let delta = compute_delta(&source, &destination);
    assert_eq!(delta.unmatched.len(), 3);
    assert_eq!(delta.stats.duplicates_eliminated, 2);
    let patch = Patch::build(&delta, &destination);
    assert_eq!(patch.literal.len(), 32768);
    assert_eq!(patch.entries.len(), 3);
    for e in &patch.entries {
        match e {
            PatchEntry::CopyLiteral { offset, length } => {
                assert_eq!(*offset, 0);
                assert_eq!(*length, 32768);
            }
            PatchEntry::CopySource { .. } => panic!("nothing can match a disjoint source"),
        }
    }
    assert_eq!(round_trip(&source, &destination), destination);
}

#[test]
fn round_trip_small_buffers() {
    let cases: Vec<(Vec<u8>, Vec<u8>)> = vec![
        (Vec::new(), Vec::new()),
        (vec![42], vec![42]),
        (Vec::new(), vec![42]),
        (vec![1, 2, 3], Vec::new()),
        (lcg_bytes(5000, 3), lcg_bytes(5000, 4)),
        (lcg_bytes(70000, 5), lcg_bytes(70000, 5)),
    ];
    for (source, destination) in cases {
        assert_eq!(round_trip(&source, &destination), destination);
    }
}

#[test]
fn round_trip_shifted_content() {
    // Insert bytes near the front: content-defined chunking still
    // matches the shifted remainder.
    let source = lcg_bytes(200000, 77);
    let mut destination = vec![9u8; 100];
    destination.extend_from_slice(&source);
    let delta = compute_delta(&source, &destination);
    assert!(delta.stats.matched_bytes > 0);
    assert_eq!(round_trip(&source, &destination), destination);
}

#[test]
fn large_flip_stays_local() {
    // One flipped byte in 1 MiB of pseudo-random data leaves all but a
    // few chunks matched: the unmatched total is a couple of chunk
    // sizes, not proportional to the buffer.
    let source = lcg_bytes(1 << 20, 999);
    let mut destination = source.clone();
    let mid = destination.len() / 2;
    destination[mid] ^= 0xFF;
    let delta = compute_delta(&source, &destination);
    assert_eq!(
        delta.stats.matched_bytes + delta.stats.unmatched_bytes,
        destination.len() as u64
    );
    assert!(delta.stats.unmatched_bytes <= 65536);
    assert_eq!(round_trip(&source, &destination), destination);
}

#[test]
fn wire_format_is_exact() {
    let patch = Patch {
        entries: vec![PatchEntry::CopySource {
            offset: 1,
            length: 2,
        }],
        literal: vec![7, 8],
    };
    let wire = patch.serialize();
    let mut expected: Vec<u8> = Vec::new();
    expected.extend_from_slice(b"DELT");
    expected.extend_from_slice(&2u64.to_le_bytes());
    expected.extend_from_slice(&[7, 8]);
    expected.extend_from_slice(&1u64.to_le_bytes());
    expected.push(1);
    expected.extend_from_slice(&1u64.to_le_bytes());
    expected.extend_from_slice(&2u64.to_le_bytes());
    assert_eq!(wire, expected);
    let back = deserialize(&wire).unwrap();
    assert_eq!(back.entries, patch.entries);
    assert_eq!(back.literal, patch.literal);
}

#[test]
fn decode_rejects_bad_magic() {
    let mut wire = Patch {
        entries: Vec::new(),
        literal: Vec::new(),
    }
    .serialize();
    wire[0] = b'X';
    assert!(matches!(deserialize(&wire), Err(PatchError::BadMagic)));
}

#[test]
fn decode_rejects_truncation() {
    assert!(matches!(
        deserialize(&vec![b'D', b'E']),
        Err(PatchError::Truncated)
    ));
    let wire = Patch {
        entries: vec![PatchEntry::CopyLiteral {
            offset: 0,
            length: 1,
        }],
        literal: vec![5],
    }
    .serialize();
    let cut = wire[..wire.len() - 1].to_vec();
    assert!(matches!(deserialize(&cut), Err(PatchError::Truncated)));
}

#[test]
fn decode_rejects_trailing_data() {
    let mut wire = Patch {
        entries: Vec::new(),
        literal: Vec::new(),
    }
    .serialize();
    wire.push(0);
    assert!(matches!(deserialize(&wire), Err(PatchError::TrailingData)));
}

#[test]
fn decode_rejects_bad_tag() {
    let mut wire = Patch {
        entries: vec![PatchEntry::CopySource {
            offset: 0,
            length: 0,
        }],
        literal: Vec::new(),
    }
    .serialize();
    // The tag byte of the only instruction sits right after the
    // 20-byte head (magic, literal length, empty blob, count).
    wire[20] = 9;
    assert!(matches!(deserialize(&wire), Err(PatchError::BadTag)));
}

#[test]
fn apply_rejects_out_of_range() {
    let source = vec![1u8, 2, 3];
    let patch = Patch {
        entries: vec![PatchEntry::CopySource {
            offset: 5,
            length: 10,
        }],
        literal: Vec::new(),
    };
    assert_eq!(apply_patch(&source, &patch), Err(PatchError::OutOfRange));
    let patch2 = Patch {
        entries: vec![PatchEntry::CopyLiteral {
            offset: 0,
            length: 1,
        }],
        literal: Vec::new(),
    };
    assert_eq!(apply_patch(&source, &patch2), Err(PatchError::OutOfRange));
}
