//! Block and record checksums.
//!
//! The CRC-32 itself comes from the `crc32fast` crate; everything the
//! engine states about it goes through the name `crc32_of`, which
//! stands for the checksum of a byte string.

use vstd::prelude::*;

use crate::codec::{be64_of, get_u64_be, put_u64_be};

verus! {

/// The CRC-32 (IEEE) checksum of a byte string. The result depends on
/// the bytes alone.
pub uninterp spec fn crc32_of(data: Seq<u8>) -> u32;

/// Relies on crc32fast::hash: the CRC-32 (IEEE) checksum of the bytes.
#[verifier::external_body]
pub fn crc32(data: &[u8]) -> (r: u32)
    ensures
        r == crc32_of(data@),
{
    crc32fast::hash(data)
}

/// Which checksum algorithm a record carries.
#[derive(Debug, Clone, Copy, PartialEq, Eq, Structural)]
pub enum ChecksumAlgorithm {
    Crc32,
}

/// A checksum record as appended after a block's payload: one byte
/// naming the algorithm, then the sum widened to eight big-endian
/// bytes.
pub const CHECKSUM_RECORD_SIZE: usize = 9;

pub open spec fn checksum_record_bytes(sum: u64) -> Seq<u8> {
    seq![0u8] + be64_of(sum)
}

/// Serializes a checksum record for `sum`.
pub fn encode_checksum_record(sum: u64) -> (r: Vec<u8>)
    ensures
        r@ == checksum_record_bytes(sum),
        r@.len() == CHECKSUM_RECORD_SIZE,
{
    let mut out: Vec<u8> = Vec::new();
    out.push(0u8);
    put_u64_be(&mut out, sum);
    proof {
        assert(out@ =~= checksum_record_bytes(sum));
    }
    out
}

/// Reads a checksum record starting at `pos`; `None` when the
/// algorithm byte is unknown.
pub fn decode_checksum_record(buf: &[u8], pos: usize) -> (r: Option<u64>)
    requires
        pos + CHECKSUM_RECORD_SIZE <= buf@.len(),
    ensures
        match r {
            Some(sum) => buf@.subrange(pos as int, pos + CHECKSUM_RECORD_SIZE)
                == checksum_record_bytes(sum),
            None => buf@[pos as int] != 0,
        },
{
    if buf[pos] != 0 {
        return None;
    }
    let sum = get_u64_be(buf, pos + 1);
    proof {
        crate::codec::lemma_be64_inverse(buf@.subrange(pos + 1, pos + 9));
        assert(buf@.subrange(pos as int, pos + 9) =~= checksum_record_bytes(sum));
    }
    Some(sum)
}

} // verus!
