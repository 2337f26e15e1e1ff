//! An embedded, ordered key-value storage engine built on the
//! log-structured merge-tree model: writes land in an in-memory sorted
//! structure backed by a write-ahead log, are flushed into immutable
//! sorted tables, and are reorganized by levelled compaction. Large
//! values live in an append-only value log; a replayable manifest is
//! the durable ledger of table membership; an oracle hands out MVCC
//! timestamps and detects write conflicts.
//!
//! Blocks and value-log records are held and framed in plain bytes:
//! the key material, per-offset nonce derivation and checksums around
//! an encrypted or compressed deployment are modeled here, while the
//! cipher and compressor transforms themselves stay outside this
//! crate.

pub mod codec;
pub mod errors;
pub mod kv;
pub mod db;
pub mod level;
pub mod lsm;
pub mod manifest;
pub mod skl;
pub mod txn;
pub mod vlog;
pub mod checksum;
pub mod table;

