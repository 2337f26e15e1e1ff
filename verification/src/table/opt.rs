//! Table construction and verification options.

use vstd::prelude::*;

use crate::checksum::ChecksumAlgorithm;

verus! {

/// When the engine verifies checksums for table blocks.
#[derive(Debug, Clone, Copy, PartialEq, Eq, Structural)]
pub enum ChecksumVerificationMode {
    /// Do not verify checksums.
    NoVerification,
    /// Verify while opening a table.
    OnTableRead,
    /// Verify on every block read.
    OnBlockRead,
    /// Verify both on table open and on every block read.
    OnTableAndBlockRead,
}

impl Default for ChecksumVerificationMode {
    fn default() -> (r: Self)
        ensures
            r == ChecksumVerificationMode::NoVerification,
    {
        ChecksumVerificationMode::NoVerification
    }
}

impl ChecksumVerificationMode {
    /// Whether blocks are checked as a table is opened.
    pub fn verify_on_table_read(&self) -> (r: bool)
        ensures
            r == (*self == ChecksumVerificationMode::OnTableRead || *self
                == ChecksumVerificationMode::OnTableAndBlockRead),
    {
        match self {
            ChecksumVerificationMode::OnTableRead => true,
            ChecksumVerificationMode::OnTableAndBlockRead => true,
            _ => false,
        }
    }

    /// Whether blocks are checked on every read.
    pub fn verify_on_block_read(&self) -> (r: bool)
        ensures
            r == (*self == ChecksumVerificationMode::OnBlockRead || *self
                == ChecksumVerificationMode::OnTableAndBlockRead),
    {
        match self {
            ChecksumVerificationMode::OnBlockRead => true,
            ChecksumVerificationMode::OnTableAndBlockRead => true,
            _ => false,
        }
    }
}

/// Which compression runs over closed blocks.
#[derive(Debug, Clone, Copy, PartialEq, Eq, Structural)]
pub enum CompressionType {
    NoCompression,
    Snappy,
    Zstd,
}

impl Default for CompressionType {
    fn default() -> (r: Self)
        ensures
            r == CompressionType::NoCompression,
    {
        CompressionType::NoCompression
    }
}

/// A data key handed out by the key registry.
#[derive(Debug, Clone)]
pub struct DataKey {
    pub key_id: u64,
    pub data: Vec<u8>,
}

/// The engine's view of an AEAD cipher: the raw key material and
/// whether the nonce-misuse-resistant mode is on. The cipher itself is
/// a collaborator outside this crate's core.
#[derive(Debug, Clone)]
pub struct AesCipher {
    pub key: Vec<u8>,
    pub is_siv: bool,
}

impl AesCipher {
    /// Accepts standard AES key sizes (or doubled for the misuse
    /// resistant mode).
    pub fn new(key: &[u8], is_siv: bool) -> (r: Result<AesCipher, crate::errors::DBError>)
        ensures
            match r {
                Ok(c) => (key@.len() == 16 || key@.len() == 24 || key@.len() == 32 || key@.len()
                    == 64) && c.key@ == key@ && c.is_siv == is_siv,
                Err(_) => !(key@.len() == 16 || key@.len() == 24 || key@.len() == 32 || key@.len()
                    == 64),
            },
    {
        let n = key.len();
        if n == 16 || n == 24 || n == 32 || n == 64 {
            Ok(AesCipher { key: vstd::slice::slice_to_vec(key), is_siv })
        } else {
            Err(crate::errors::DBError::Corruption)
        }
    }
}

/// Everything a table builder or reader needs to know.
#[derive(Debug, Clone)]
pub struct TableOption {
    /// Maximum size of the table.
    table_size: usize,
    /// Roughly 0.95 times the table size.
    table_capacity: u64,
    /// When to verify block checksums.
    checksum_verify_mode: ChecksumVerificationMode,
    block_checksum_algo: ChecksumAlgorithm,
    /// False-positive rate of the bloom filter, in parts per million.
    bloom_false_positive_ppm: u32,
    /// Size of each block inside an on-disk table, in bytes.
    block_size: usize,
    /// The key used to decrypt encrypted text, when encryption is on.
    cipher: Option<AesCipher>,
    /// The compression algorithm for block compression.
    compression: CompressionType,
    zstd_compression_level: i32,
}

impl Default for TableOption {
    fn default() -> (r: Self)
        ensures
            r.table_size() == (2usize << 20),
            r.block_size() == 4096,
            r.compression() == CompressionType::NoCompression,
            r.cipher_view() is None,
    {
        TableOption {
            table_size: 2usize << 20,
            table_capacity: 0,
            checksum_verify_mode: ChecksumVerificationMode::NoVerification,
            block_checksum_algo: ChecksumAlgorithm::Crc32,
            bloom_false_positive_ppm: 10000,
            block_size: 4 * 1024,
            cipher: None,
            compression: CompressionType::NoCompression,
            zstd_compression_level: 1,
        }
    }
}

impl TableOption {
    pub closed spec fn table_size(&self) -> usize {
        self.table_size
    }

    pub closed spec fn block_size(&self) -> usize {
        self.block_size
    }

    pub closed spec fn compression(&self) -> CompressionType {
        self.compression
    }

    pub closed spec fn cipher_view(&self) -> Option<AesCipher> {
        self.cipher
    }

    /// Builds the options from explicit tunables.
    pub fn new(
        table_size: usize,
        block_size: usize,
        compression: CompressionType,
        checksum_verify_mode: ChecksumVerificationMode,
        cipher: Option<AesCipher>,
    ) -> (r: TableOption)
        requires
            table_size <= u64::MAX,
        ensures
            r.table_size() == table_size,
            r.block_size() == block_size,
            r.compression() == compression,
            r.cipher_view() == cipher,
            r.checksum_verify_mode_view() == checksum_verify_mode,
    {
        TableOption {
            table_size,
            table_capacity: (table_size as u64 / 100) * 95,
            checksum_verify_mode,
            block_checksum_algo: ChecksumAlgorithm::Crc32,
            bloom_false_positive_ppm: 10000,
            block_size,
            cipher,
            compression,
            zstd_compression_level: 1,
        }
    }

    pub closed spec fn checksum_verify_mode_view(&self) -> ChecksumVerificationMode {
        self.checksum_verify_mode
    }

    pub fn get_block_size(&self) -> (r: usize)
        ensures
            r == self.block_size(),
    {
        self.block_size
    }

    pub fn checksum_verify_mode(&self) -> (r: ChecksumVerificationMode)
        ensures
            r == self.checksum_verify_mode_view(),
    {
        self.checksum_verify_mode
    }

    pub fn get_table_size(&self) -> (r: usize)
        ensures
            r == self.table_size(),
    {
        self.table_size
    }

    /// Sets the table size; the capacity follows at 95 percent.
    pub fn set_table_size(&mut self, table_size: usize)
        requires
            table_size <= u64::MAX,
        ensures
            final(self).table_size() == table_size,
            final(self).block_size() == old(self).block_size(),
            final(self).compression() == old(self).compression(),
            final(self).cipher_view() == old(self).cipher_view(),
    {
        self.table_size = table_size;
        self.table_capacity = (table_size as u64 / 100) * 95;
    }

    pub fn zstd_compression_level(&self) -> i32 {
        self.zstd_compression_level
    }

    pub fn block_checksum_algo(&self) -> (r: ChecksumAlgorithm)
        ensures
            r == ChecksumAlgorithm::Crc32,
    {
        self.block_checksum_algo
    }

    pub fn cipher(&self) -> (r: Option<&AesCipher>)
        ensures
            r is Some <==> self.cipher_view() is Some,
            r is Some ==> *r->0 == self.cipher_view()->0,
    {
        self.cipher.as_ref()
    }

    pub fn cipher_clone(&self) -> (r: Option<AesCipher>)
        ensures
            r is Some <==> self.cipher_view() is Some,
    {
        self.cipher.clone()
    }

    /// Installs a cipher from a data key, if the key material is a
    /// usable size; otherwise leaves the option unchanged.
    pub fn set_cipher_with_key(&mut self, cipher: Option<DataKey>)
        ensures
            final(self).table_size() == old(self).table_size(),
            final(self).block_size() == old(self).block_size(),
            final(self).compression() == old(self).compression(),
    {
        if let Some(key) = cipher {
            if let Ok(c) = AesCipher::new(key.data.as_slice(), false) {
                self.cipher = Some(c);
            }
        }
    }

    pub fn get_compression(&self) -> (r: CompressionType)
        ensures
            r == self.compression(),
    {
        self.compression
    }

    pub fn set_compression(&mut self, compression: CompressionType)
        ensures
            final(self).compression() == compression,
            final(self).table_size() == old(self).table_size(),
            final(self).block_size() == old(self).block_size(),
            final(self).cipher_view() == old(self).cipher_view(),
    {
        self.compression = compression;
    }
}

} // verus!
