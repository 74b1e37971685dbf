//! Content-defined chunking and binary delta encoding for large,
//! highly similar disk images.
//!
//! The pipeline: a rolling checksum drives a content-defined chunker,
//! chunks are indexed by a compact identity (CRC-32 plus length), a
//! matcher classifies every destination chunk as a byte-verified copy
//! from the source or as new literal data, byte-identical literals are
//! deduplicated, and a patch codec serializes the result into a wire
//! format that reconstructs the destination exactly from the source.
//!
//! Beside the engine live the pure naming rules for artifact files and
//! the stream-id to stream-URL mapping.

pub mod chunking;
pub mod crc;
pub mod dedup;
pub mod delta;
pub mod index;
pub mod names;
pub mod patch;
pub mod rollsum;
pub mod streams;
