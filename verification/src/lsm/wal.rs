//! The write-ahead log's on-disk frame: a fixed header carrying the
//! encryption key id and the segment's base nonce, and the per-record
//! nonce derived from that base and a record's byte offset.

use vstd::prelude::*;

use crate::codec::{be64_val, lemma_be64_inverse, lemma_be64_round_trip};

verus! {

/// Bytes of the fixed segment header: the key id, then the base nonce.
pub const WAL_HEADER_SIZE: usize = 20;

/// Bytes of an encryption nonce.
pub const NONCE_LEN: usize = 12;

/// The fixed header: an 8-byte big-endian key id, then the 12-byte
/// base nonce.
pub open spec fn wal_header_bytes(key_id: u64, base_nonce: Seq<u8>) -> Seq<u8>
    recommends
        base_nonce.len() == NONCE_LEN,
{
    crate::codec::be64_of(key_id) + base_nonce
}

/// A record's nonce: the first four bytes of the segment's base nonce,
/// then the record's byte offset in its fixed-width little-endian
/// bytes. Distinct offsets give distinct nonces under one base.
pub open spec fn nonce_of(base: Seq<u8>, offset: u64) -> Seq<u8>
    recommends
        base.len() == NONCE_LEN,
{
    base.take(4) + seq![
        (offset & 0xff) as u8,
        ((offset >> 8) & 0xff) as u8,
        ((offset >> 16) & 0xff) as u8,
        ((offset >> 24) & 0xff) as u8,
        ((offset >> 32) & 0xff) as u8,
        ((offset >> 40) & 0xff) as u8,
        ((offset >> 48) & 0xff) as u8,
        ((offset >> 56) & 0xff) as u8,
    ]
}

/// Lays the fixed header down: key id, then base nonce.
pub fn encode_wal_header(key_id: u64, base_nonce: &[u8]) -> (r: Vec<u8>)
    requires
        base_nonce@.len() == NONCE_LEN,
    ensures
        r@ == wal_header_bytes(key_id, base_nonce@),
        r@.len() == WAL_HEADER_SIZE,
{
    let mut out: Vec<u8> = Vec::new();
    crate::codec::put_u64_be(&mut out, key_id);
    let mut i: usize = 0;
    while i < NONCE_LEN
        invariant
            i <= NONCE_LEN == base_nonce@.len(),
            out@.len() == 8 + i,
            out@.take(8) == crate::codec::be64_of(key_id),
            forall|j: int| 0 <= j < i ==> out@[8 + j] == base_nonce@[j],
        decreases NONCE_LEN - i,
    {
        let ghost pre = out@;
        out.push(base_nonce[i]);
        proof {
            assert(out@.take(8) =~= pre.take(8));
        }
        i = i + 1;
    }
    proof {
        assert(out@ =~= wal_header_bytes(key_id, base_nonce@));
    }
    out
}

/// Reads the fixed header back; refused exactly when the segment is
/// shorter than the header, and otherwise the inverse of the layout.
pub fn decode_wal_header(buf: &[u8]) -> (r: Option<(u64, Vec<u8>)>)
    ensures
        r is Some <==> buf@.len() >= WAL_HEADER_SIZE,
        match r {
            Some(h) => {
                &&& h.1@.len() == NONCE_LEN
                &&& buf@.take(WAL_HEADER_SIZE as int) == wal_header_bytes(h.0, h.1@)
                &&& h.0 == be64_val(buf@.take(8))
                &&& h.1@ == buf@.subrange(8, WAL_HEADER_SIZE as int)
            },
            None => true,
        },
{
    if buf.len() < WAL_HEADER_SIZE {
        return None;
    }
    let key_id = crate::codec::get_u64_be(buf, 0);
    let nonce = vstd::slice::slice_to_vec(
        vstd::slice::slice_subrange(buf, 8, WAL_HEADER_SIZE),
    );
    proof {
        assert(buf@.subrange(0, 8) =~= buf@.take(8));
        lemma_be64_inverse(buf@.take(8));
        assert(buf@.take(WAL_HEADER_SIZE as int) =~= wal_header_bytes(
            be64_val(buf@.take(8)),
            buf@.subrange(8, WAL_HEADER_SIZE as int),
        ));
    }
    Some((key_id, nonce))
}

/// Derives a record's nonce from the segment's base nonce and the
/// record's byte offset.
pub fn derive_nonce(base: &[u8], offset: u64) -> (r: Vec<u8>)
    requires
        base@.len() == NONCE_LEN,
    ensures
        r@ == nonce_of(base@, offset),
        r@.len() == NONCE_LEN,
{
    let mut out: Vec<u8> = Vec::new();
    out.push(base[0]);
    out.push(base[1]);
    out.push(base[2]);
    out.push(base[3]);
    out.push((offset & 0xff) as u8);
    out.push(((offset >> 8) & 0xff) as u8);
    out.push(((offset >> 16) & 0xff) as u8);
    out.push(((offset >> 24) & 0xff) as u8);
    out.push(((offset >> 32) & 0xff) as u8);
    out.push(((offset >> 40) & 0xff) as u8);
    out.push(((offset >> 48) & 0xff) as u8);
    out.push(((offset >> 56) & 0xff) as u8);
    proof {
        assert(out@ =~= nonce_of(base@, offset));
    }
    out
}

/// Two records at different offsets never share a nonce under one
/// base: the offset bytes stand verbatim in the nonce's tail.
pub proof fn lemma_nonce_unique(base: Seq<u8>, o1: u64, o2: u64)
    requires
        base.len() == NONCE_LEN,
        o1 != o2,
    ensures
        nonce_of(base, o1) != nonce_of(base, o2),
{
    let n1 = nonce_of(base, o1);
    let n2 = nonce_of(base, o2);
    if n1 == n2 {
        assert((o1 & 0xff) as u8 == (o2 & 0xff) as u8 && ((o1 >> 8) & 0xff) as u8 == ((o2 >> 8)
            & 0xff) as u8 && ((o1 >> 16) & 0xff) as u8 == ((o2 >> 16) & 0xff) as u8 && ((o1 >> 24)
            & 0xff) as u8 == ((o2 >> 24) & 0xff) as u8 && ((o1 >> 32) & 0xff) as u8 == ((o2 >> 32)
            & 0xff) as u8 && ((o1 >> 40) & 0xff) as u8 == ((o2 >> 40) & 0xff) as u8 && ((o1 >> 48)
            & 0xff) as u8 == ((o2 >> 48) & 0xff) as u8 && ((o1 >> 56) & 0xff) as u8 == ((o2 >> 56)
            & 0xff) as u8) by {
            assert(n1[4] == n2[4] && n1[5] == n2[5] && n1[6] == n2[6] && n1[7] == n2[7] && n1[8]
                == n2[8] && n1[9] == n2[9] && n1[10] == n2[10] && n1[11] == n2[11]);
        }
        assert(o1 == o2) by (bit_vector)
            requires
                (o1 & 0xff) as u8 == (o2 & 0xff) as u8,
                ((o1 >> 8) & 0xff) as u8 == ((o2 >> 8) & 0xff) as u8,
                ((o1 >> 16) & 0xff) as u8 == ((o2 >> 16) & 0xff) as u8,
                ((o1 >> 24) & 0xff) as u8 == ((o2 >> 24) & 0xff) as u8,
                ((o1 >> 32) & 0xff) as u8 == ((o2 >> 32) & 0xff) as u8,
                ((o1 >> 40) & 0xff) as u8 == ((o2 >> 40) & 0xff) as u8,
                ((o1 >> 48) & 0xff) as u8 == ((o2 >> 48) & 0xff) as u8,
                ((o1 >> 56) & 0xff) as u8 == ((o2 >> 56) & 0xff) as u8,
        ;
    }
}

} // verus!
