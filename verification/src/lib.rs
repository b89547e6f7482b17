//! An embedded, single-file, transactional key-value store backed by a
//! memory-mapped region.
//!
//! The engine lays the region out as a small header (two alternating
//! superblock slots) followed by a uniform page array. Every committed tree
//! is immutable: a write transaction allocates fresh pages, builds new trees
//! copy-on-write, and publishes them with a single one-byte slot flip, so a
//! crash at any point leaves the file at the previous commit. Readers pin a
//! root page and are isolated from writers for their whole lifetime.
//!
//! Superseded pages are not reclaimed: the allocator only grows until the
//! fixed region is exhausted (the simplest correct policy for a store whose
//! size is fixed at creation).

pub mod error;
pub mod order;
pub mod entries;
pub mod mvalues;
pub mod codec;
pub mod mem;
pub mod pages;
pub mod tree;
pub mod header;
pub mod storage;
pub mod db;
pub mod mm;
