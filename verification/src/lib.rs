//! A word-frequency indexer built around a bounded, size-aware deque.
//!
//! The library walks descriptors of text sources (plain files handed in as
//! bytes, and zip archives expanded in memory), tokenizes and canonicalizes
//! words, counts them in per-run partial maps, reduces the partial maps
//! pairwise to a single frequency map, and renders two sorted reports from it.

pub mod archives;
pub mod list_and_read;
pub mod mt;
pub mod parallel_merge;
pub mod parsing;
pub mod reports;
pub mod strutil;
pub mod unicode;
pub mod word_count;
pub mod word_map;
