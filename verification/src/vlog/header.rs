//! Value-log record headers.
//!
//! A record starts with two metadata bytes, then the key, value and
//! expiry lengths as varints; the key and value bytes follow, and a
//! CRC-32 over everything before it closes the record.

use vstd::prelude::*;

use crate::codec::{get_varint, put_varint, varint_at, varint_of};

verus! {

/// Upper bound on an encoded header: two metadata bytes and three
/// varints of at most ten bytes worth of lengths.
pub const MAX_HEADER_SIZE: usize = 22;

/// The header of one value-log record.
#[derive(Debug, Clone, Copy, PartialEq, Eq, Structural)]
pub struct EntryHeader {
    pub key_len: u32,
    pub value_len: u32,
    pub expires_at: u64,
    pub meta: u8,
    pub user_meta: u8,
}

/// The wire form of a record header.
pub open spec fn vlog_header_bytes(h: EntryHeader) -> Seq<u8> {
    seq![h.meta, h.user_meta] + varint_of(h.key_len as u64) + varint_of(h.value_len as u64)
        + varint_of(h.expires_at)
}

impl EntryHeader {
    pub fn new(key_len: u32, value_len: u32, expires_at: u64, meta: u8, user_meta: u8) -> (r:
        EntryHeader)
        ensures
            r == (EntryHeader { key_len, value_len, expires_at, meta, user_meta }),
    {
        EntryHeader { key_len, value_len, expires_at, meta, user_meta }
    }

    pub fn get_key_len(&self) -> (r: u32)
        ensures
            r == self.key_len,
    {
        self.key_len
    }

    pub fn get_value_len(&self) -> (r: u32)
        ensures
            r == self.value_len,
    {
        self.value_len
    }

    pub fn get_meta(&self) -> (r: u8)
        ensures
            r == self.meta,
    {
        self.meta
    }

    pub fn get_user_meta(&self) -> (r: u8)
        ensures
            r == self.user_meta,
    {
        self.user_meta
    }

    pub fn get_expires_at(&self) -> (r: u64)
        ensures
            r == self.expires_at,
    {
        self.expires_at
    }

    /// Serializes the header.
    pub fn encode(&self) -> (r: Vec<u8>)
        ensures
            r@ == vlog_header_bytes(*self),
            r@.len() <= MAX_HEADER_SIZE,
    {
        let mut out: Vec<u8> = Vec::new();
        out.push(self.meta);
        out.push(self.user_meta);
        put_varint(&mut out, self.key_len as u64);
        put_varint(&mut out, self.value_len as u64);
        put_varint(&mut out, self.expires_at);
        proof {
            crate::codec::lemma_varint_len(self.key_len as u64);
            crate::codec::lemma_varint_len(self.value_len as u64);
            crate::codec::lemma_varint_len(self.expires_at);
            assert(out@ =~= vlog_header_bytes(*self));
            assert(varint_of(self.key_len as u64).len() <= 5) by {
                let x = self.key_len as u64;
                let x1 = x / 128;
                let x2 = x1 / 128;
                let x3 = x2 / 128;
                let x4 = x3 / 128;
                assert(x4 < 128);
                assert(varint_of(x4).len() == 1);
                assert(varint_of(x3).len() <= 1 + varint_of(x4).len());
                assert(varint_of(x2).len() <= 1 + varint_of(x3).len());
                assert(varint_of(x1).len() <= 1 + varint_of(x2).len());
                assert(varint_of(x).len() <= 1 + varint_of(x1).len());
            }
            assert(varint_of(self.value_len as u64).len() <= 5) by {
                let x = self.value_len as u64;
                let x1 = x / 128;
                let x2 = x1 / 128;
                let x3 = x2 / 128;
                let x4 = x3 / 128;
                assert(x4 < 128);
                assert(varint_of(x4).len() == 1);
                assert(varint_of(x3).len() <= 1 + varint_of(x4).len());
                assert(varint_of(x2).len() <= 1 + varint_of(x3).len());
                assert(varint_of(x1).len() <= 1 + varint_of(x2).len());
                assert(varint_of(x).len() <= 1 + varint_of(x1).len());
            }
        }
        out
    }

    /// Parses a header from the start of `buf`; returns it and how many
    /// bytes it took. Exact: `None` only when no header starts there.
    pub fn decode(buf: &[u8]) -> (r: Option<(EntryHeader, usize)>)
        ensures
            match r {
                Some((h, n)) => {
                    &&& n == vlog_header_bytes(h).len()
                    &&& n <= buf@.len()
                    &&& buf@.subrange(0, n as int) == vlog_header_bytes(h)
                },
                None => forall|h: EntryHeader|
                    !(vlog_header_bytes(h).len() <= buf@.len() && buf@.subrange(
                        0,
                        #[trigger] vlog_header_bytes(h).len() as int,
                    ) == vlog_header_bytes(h)),
            },
{
        if buf.len() < 2 {
            proof {
                assert forall|h: EntryHeader|
                    !(vlog_header_bytes(h).len() <= buf@.len() && buf@.subrange(
                        0,
                        #[trigger] vlog_header_bytes(h).len() as int,
                    ) == vlog_header_bytes(h)) by {
                    crate::codec::lemma_varint_len(h.key_len as u64);
                    crate::codec::lemma_varint_len(h.value_len as u64);
                    crate::codec::lemma_varint_len(h.expires_at);
                }
            }
            return None;
        }
        let meta = buf[0];
        let user_meta = buf[1];
        let (kl64, n1) = match get_varint(buf, 2) {
            Some(x) => x,
            None => {
                proof {
                    lemma_no_header(buf@, 2, 0, 0);
                }
                return None;
            },
        };
        let (vl64, n2) = match get_varint(buf, 2 + n1) {
            Some(x) => x,
            None => {
                proof {
                    lemma_no_header(buf@, 2, 1, kl64);
                }
                return None;
            },
        };
        let (exp, n3) = match get_varint(buf, 2 + n1 + n2) {
            Some(x) => x,
            None => {
                proof {
                    lemma_no_header2(buf@, kl64, vl64, n1 as int, n2 as int);
                }
                return None;
            },
        };
        if kl64 > u32::MAX as u64 || vl64 > u32::MAX as u64 {
            proof {
                lemma_no_header3(buf@, kl64, vl64, exp, n1 as int, n2 as int, n3 as int);
            }
            return None;
        }
        let h = EntryHeader {
            key_len: kl64 as u32,
            value_len: vl64 as u32,
            expires_at: exp,
            meta,
            user_meta,
        };
        let n = 2 + n1 + n2 + n3;
        proof {
            assert(buf@.subrange(0, n as int) =~= vlog_header_bytes(h)) by {
                assert(buf@.subrange(2, 2 + n1 as int) == varint_of(kl64));
                assert(buf@.subrange(2 + n1 as int, 2 + n1 + n2 as int) =~= varint_of(vl64)) by {
                    assert(buf@.subrange(2 + n1 as int, 2 + (n1 + n2) as int) == varint_of(vl64));
                }
                assert(buf@.subrange(2 + (n1 + n2) as int, 2 + (n1 + n2 + n3) as int)
                    == varint_of(exp));
            }
        }
        Some((h, n))
    }
}

/// When a varint in the header chain fails to parse, no header fits.
proof fn lemma_no_header(buf: Seq<u8>, pos: int, which: int, prev: u64)
    requires
        pos == 2,
        which == 0 || which == 1,
        which == 0 ==> !varint_at(buf, 2),
        which == 1 ==> {
            &&& 2 <= buf.len()
            &&& buf.subrange(2, 2 + varint_of(prev).len() as int) == varint_of(prev)
            &&& 2 + varint_of(prev).len() <= buf.len()
            &&& !varint_at(buf, 2 + varint_of(prev).len() as int)
        },
    ensures
        forall|h: EntryHeader|
            !(vlog_header_bytes(h).len() <= buf.len() && buf.subrange(
                0,
                #[trigger] vlog_header_bytes(h).len() as int,
            ) == vlog_header_bytes(h)),
{
    assert forall|h: EntryHeader|
        !(vlog_header_bytes(h).len() <= buf.len() && buf.subrange(
            0,
            #[trigger] vlog_header_bytes(h).len() as int,
        ) == vlog_header_bytes(h)) by {
        if vlog_header_bytes(h).len() <= buf.len() && buf.subrange(
            0,
            vlog_header_bytes(h).len() as int,
        ) == vlog_header_bytes(h) {
            let hb = vlog_header_bytes(h);
            let k = varint_of(h.key_len as u64);
            let v = varint_of(h.value_len as u64);
            let e = varint_of(h.expires_at);
            assert(buf.subrange(2, 2 + k.len() as int) =~= k) by {
                assert(forall|q: int| 0 <= q < k.len() ==> buf[2 + q] == hb[2 + q] && hb[2 + q]
                    == k[q]);
            }
            if which == 0 {
                assert(varint_at(buf, 2));
            } else {
                crate::codec::lemma_varint_unique_at(buf, 2, h.key_len as u64, prev);
                let off = 2 + k.len() as int;
                assert(buf.subrange(off, off + v.len() as int) =~= v) by {
                    assert(forall|q: int|
                        0 <= q < v.len() ==> buf[off + q] == hb[off + q] && hb[off + q] == v[q]);
                }
                assert(varint_at(buf, off));
            }
        }
    }
}

proof fn lemma_no_header2(buf: Seq<u8>, kl: u64, vl: u64, n1: int, n2: int)
    requires
        2 + n1 + n2 <= buf.len(),
        buf.subrange(2, 2 + n1) == varint_of(kl),
        n1 == varint_of(kl).len(),
        buf.subrange(2 + n1, 2 + n1 + n2) == varint_of(vl),
        n2 == varint_of(vl).len(),
        !varint_at(buf, 2 + n1 + n2),
    ensures
        forall|h: EntryHeader|
            !(vlog_header_bytes(h).len() <= buf.len() && buf.subrange(
                0,
                #[trigger] vlog_header_bytes(h).len() as int,
            ) == vlog_header_bytes(h)),
{
    assert forall|h: EntryHeader|
        !(vlog_header_bytes(h).len() <= buf.len() && buf.subrange(
            0,
            #[trigger] vlog_header_bytes(h).len() as int,
        ) == vlog_header_bytes(h)) by {
        if vlog_header_bytes(h).len() <= buf.len() && buf.subrange(
            0,
            vlog_header_bytes(h).len() as int,
        ) == vlog_header_bytes(h) {
            let hb = vlog_header_bytes(h);
            let k = varint_of(h.key_len as u64);
            let v = varint_of(h.value_len as u64);
            let e = varint_of(h.expires_at);
            assert(buf.subrange(2, 2 + k.len() as int) =~= k) by {
                assert(forall|q: int| 0 <= q < k.len() ==> buf[2 + q] == hb[2 + q] && hb[2 + q]
                    == k[q]);
            }
            crate::codec::lemma_varint_unique_at(buf, 2, h.key_len as u64, kl);
            let off = 2 + n1;
            assert(buf.subrange(off, off + v.len() as int) =~= v) by {
                assert(forall|q: int|
                    0 <= q < v.len() ==> buf[off + q] == hb[off + q] && hb[off + q] == v[q]);
            }
            crate::codec::lemma_varint_unique_at(buf, off, h.value_len as u64, vl);
            let off2 = 2 + n1 + n2;
            assert(buf.subrange(off2, off2 + e.len() as int) =~= e) by {
                assert(forall|q: int|
                    0 <= q < e.len() ==> buf[off2 + q] == hb[off2 + q] && hb[off2 + q] == e[q]);
            }
            assert(varint_at(buf, off2));
        }
    }
}

proof fn lemma_no_header3(buf: Seq<u8>, kl: u64, vl: u64, exp: u64, n1: int, n2: int, n3: int)
    requires
        2 + n1 + n2 + n3 <= buf.len(),
        buf.subrange(2, 2 + n1) == varint_of(kl),
        n1 == varint_of(kl).len(),
        buf.subrange(2 + n1, 2 + n1 + n2) == varint_of(vl),
        n2 == varint_of(vl).len(),
        buf.subrange(2 + n1 + n2, 2 + n1 + n2 + n3) == varint_of(exp),
        n3 == varint_of(exp).len(),
        kl > u32::MAX || vl > u32::MAX,
    ensures
        forall|h: EntryHeader|
            !(vlog_header_bytes(h).len() <= buf.len() && buf.subrange(
                0,
                #[trigger] vlog_header_bytes(h).len() as int,
            ) == vlog_header_bytes(h)),
{
    assert forall|h: EntryHeader|
        !(vlog_header_bytes(h).len() <= buf.len() && buf.subrange(
            0,
            #[trigger] vlog_header_bytes(h).len() as int,
        ) == vlog_header_bytes(h)) by {
        if vlog_header_bytes(h).len() <= buf.len() && buf.subrange(
            0,
            vlog_header_bytes(h).len() as int,
        ) == vlog_header_bytes(h) {
            let hb = vlog_header_bytes(h);
            let k = varint_of(h.key_len as u64);
            let v = varint_of(h.value_len as u64);
            assert(buf.subrange(2, 2 + k.len() as int) =~= k) by {
                assert(forall|q: int| 0 <= q < k.len() ==> buf[2 + q] == hb[2 + q] && hb[2 + q]
                    == k[q]);
            }
            crate::codec::lemma_varint_unique_at(buf, 2, h.key_len as u64, kl);
            let off = 2 + n1;
            assert(buf.subrange(off, off + v.len() as int) =~= v) by {
                assert(forall|q: int|
                    0 <= q < v.len() ==> buf[off + q] == hb[off + q] && hb[off + q] == v[q]);
            }
            crate::codec::lemma_varint_unique_at(buf, off, h.value_len as u64, vl);
        }
    }
}

} // verus!
