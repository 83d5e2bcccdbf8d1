//! A two-tier deduplication cache for a stream of byte strings (text lines),
//! with bounded peak memory use.
//!
//! Items are buffered verbatim in an exact in-memory tier until their
//! accumulated size reaches a configured byte budget; they are then spilled
//! into a memory-compact presence table (odht's open-addressing hash table),
//! keyed by fixed-width encodings of the items' 127-byte chunks.  Lookups have
//! no false negatives; once items have migrated to the compact tier, chunk-key
//! collisions can produce false positives.

pub mod cache;
pub mod chunk;
pub mod compact;
pub mod exact;
