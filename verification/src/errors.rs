//! The engine's error taxonomy: corruption of on-disk bytes, manifest
//! framing problems, transaction conflicts, and resource limits.

use vstd::prelude::*;

verus! {

#[derive(Debug, Clone, Copy, PartialEq, Eq, Structural)]
pub enum DBError {
    /// A checksum mismatch or malformed record.
    Corruption,
    /// The manifest does not begin with the expected magic bytes.
    BadMagic,
    /// The manifest's format version is not the one this engine writes.
    UnsupportedVersion,
    /// The manifest's external magic differs from the caller's.
    ExternalVersionMismatch,
    /// The manifest creates a table id that already exists.
    TableExists,
    /// The manifest deletes a table id that does not exist.
    TableMissing,
    /// Another transaction wrote a key this one read.
    Conflict,
    /// An allocation would exceed the arena's fixed capacity.
    ArenaFull,
    /// A value-log request would exceed the hard segment limit.
    RequestTooLarge,
    /// The key belongs to a banned namespace.
    BannedKey,
}

impl DBError {
    /// A short description, for callers that print errors.
    pub fn message(&self) -> &'static str {
        match self {
            DBError::Corruption => "checksum mismatch or malformed record",
            DBError::BadMagic => "bad magic bytes",
            DBError::UnsupportedVersion => "unsupported format version",
            DBError::ExternalVersionMismatch => "external magic version does not match",
            DBError::TableExists => "table already exists",
            DBError::TableMissing => "table does not exist",
            DBError::Conflict => "transaction conflict, please retry",
            DBError::ArenaFull => "arena capacity exceeded",
            DBError::RequestTooLarge => "request exceeds maximum segment size",
            DBError::BannedKey => "key namespace is banned",
        }
    }
}

} // verus!
