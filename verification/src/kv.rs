//! Versioned keys and value metadata.
//!
//! A stored key is the user key followed by an 8-byte big-endian
//! suffix that encodes the transaction timestamp inverted, so that the
//! engine's total order is ascending by user key and, within one user
//! key, descending by timestamp: the newest version sorts first.

use vstd::prelude::*;

use crate::codec::{
    be32_of, be64_of, be64_val, bytes_le, get_u32_be, get_varint, lemma_be64_round_trip,
    lex_le, put_u32_be, put_u64_be, put_varint, varint_at, varint_of,
};

verus! {

/// Length of the timestamp suffix on every stored key.
pub const TS_SUFFIX_LEN: usize = 8;

/// Tombstone marker: the version deletes the key.
pub const BIT_DELETE: u8 = 1;

/// The value bytes are a pointer into the value log.
pub const BIT_VALUE_POINTER: u8 = 2;

/// Older versions of this key may be discarded by compaction.
pub const BIT_DISCARD_EARLIER_VERSIONS: u8 = 4;

/// The entry was written inside a transaction.
pub const BIT_TXN: u8 = 64;

/// The entry marks the end of a transaction in the log.
pub const BIT_FIN_TXN: u8 = 128;

// ---------------------------------------------------------------------
// Key encoding
// ---------------------------------------------------------------------

/// The stored form of `user` at timestamp `ts`.
pub open spec fn key_ts_of(user: Seq<u8>, ts: u64) -> Seq<u8> {
    user + be64_of((u64::MAX - ts) as u64)
}

/// A byte string long enough to carry the timestamp suffix.
pub open spec fn is_key_ts(k: Seq<u8>) -> bool {
    k.len() >= TS_SUFFIX_LEN
}

/// The user-key part of a stored key.
pub open spec fn user_key_of(k: Seq<u8>) -> Seq<u8>
    recommends
        is_key_ts(k),
{
    k.take(k.len() - TS_SUFFIX_LEN as int)
}

/// The timestamp part of a stored key.
pub open spec fn ts_of(k: Seq<u8>) -> u64
    recommends
        is_key_ts(k),
{
    (u64::MAX - be64_val(k.skip(k.len() - TS_SUFFIX_LEN as int))) as u64
}

pub proof fn lemma_key_ts_parts(user: Seq<u8>, ts: u64)
    ensures
        is_key_ts(key_ts_of(user, ts)),
        user_key_of(key_ts_of(user, ts)) == user,
        ts_of(key_ts_of(user, ts)) == ts,
{
    let k = key_ts_of(user, ts);
    lemma_be64_round_trip((u64::MAX - ts) as u64);
    assert(k.take(k.len() - 8) =~= user);
    assert(k.skip(k.len() - 8) =~= be64_of((u64::MAX - ts) as u64));
}

/// Appends the timestamp suffix to a user key.
pub fn key_with_ts(user_key: &[u8], ts: u64) -> (r: Vec<u8>)
    ensures
        r@ == key_ts_of(user_key@, ts),
        is_key_ts(r@),
        user_key_of(r@) == user_key@,
        ts_of(r@) == ts,
{
    let mut r = vstd::slice::slice_to_vec(user_key);
    put_u64_be(&mut r, u64::MAX - ts);
    proof {
        lemma_key_ts_parts(user_key@, ts);
    }
    r
}

/// Strips the timestamp suffix, leaving the bare user key.
pub fn parse_key(k: &[u8]) -> (r: &[u8])
    requires
        is_key_ts(k@),
    ensures
        r@ == user_key_of(k@),
{
    let r = vstd::slice::slice_subrange(k, 0, k.len() - TS_SUFFIX_LEN);
    assert(r@ =~= user_key_of(k@));
    r
}

/// Reads the timestamp out of a stored key's suffix.
pub fn parse_ts(k: &[u8]) -> (r: u64)
    requires
        is_key_ts(k@),
    ensures
        r == ts_of(k@),
{
    let start = k.len() - TS_SUFFIX_LEN;
    let raw = crate::codec::get_u64_be(k, start);
    proof {
        assert(k@.subrange(start as int, start + 8) =~= k@.skip(k@.len() - 8));
    }
    u64::MAX - raw
}

// ---------------------------------------------------------------------
// Key order
// ---------------------------------------------------------------------

/// The engine's total order on stored keys: ascending by user key,
/// then descending by timestamp.
pub open spec fn key_le(a: Seq<u8>, b: Seq<u8>) -> bool
    recommends
        is_key_ts(a),
        is_key_ts(b),
{
    if user_key_of(a) == user_key_of(b) {
        lex_le(a.skip(a.len() - TS_SUFFIX_LEN as int), b.skip(b.len() - TS_SUFFIX_LEN as int))
    } else {
        lex_le(user_key_of(a), user_key_of(b))
    }
}

/// For two stored keys of one user key, the engine's order is exactly
/// descending timestamp order: the newer version sorts first. The
/// suffix stores the complemented timestamp big-endian, so its
/// lexicographic order is the complement's numeric order.
pub proof fn lemma_same_user_ts_order(a: Seq<u8>, b: Seq<u8>)
    requires
        is_key_ts(a),
        is_key_ts(b),
        user_key_of(a) == user_key_of(b),
    ensures
        key_le(a, b) <==> ts_of(a) >= ts_of(b),
{
    let p = a.skip(a.len() - TS_SUFFIX_LEN as int);
    let q = b.skip(b.len() - TS_SUFFIX_LEN as int);
    crate::codec::lemma_lex_le_is_be64_le(p, q);
}

pub open spec fn key_lt(a: Seq<u8>, b: Seq<u8>) -> bool {
    key_le(a, b) && a != b
}

pub proof fn lemma_key_le_total(a: Seq<u8>, b: Seq<u8>)
    requires
        is_key_ts(a),
        is_key_ts(b),
    ensures
        key_le(a, b) || key_le(b, a),
        key_le(a, b) && key_le(b, a) ==> a == b,
{
    crate::codec::lemma_lex_le_total(user_key_of(a), user_key_of(b));
    crate::codec::lemma_lex_le_total(
        a.skip(a.len() - TS_SUFFIX_LEN as int),
        b.skip(b.len() - TS_SUFFIX_LEN as int),
    );
    if key_le(a, b) && key_le(b, a) {
        if user_key_of(a) == user_key_of(b) {
            assert(a.skip(a.len() - 8) == b.skip(b.len() - 8));
            assert(a =~= user_key_of(a) + a.skip(a.len() - 8));
            assert(b =~= user_key_of(b) + b.skip(b.len() - 8));
        }
    }
}

pub proof fn lemma_key_le_trans(a: Seq<u8>, b: Seq<u8>, c: Seq<u8>)
    requires
        is_key_ts(a),
        is_key_ts(b),
        is_key_ts(c),
        key_le(a, b),
        key_le(b, c),
    ensures
        key_le(a, c),
{
    let ua = user_key_of(a);
    let ub = user_key_of(b);
    let uc = user_key_of(c);
    crate::codec::lemma_lex_le_total(ua, ub);
    crate::codec::lemma_lex_le_total(ub, uc);
    crate::codec::lemma_lex_le_total(ua, uc);
    if ua == ub && ub == uc {
        crate::codec::lemma_lex_le_trans(
            a.skip(a.len() - TS_SUFFIX_LEN as int),
            b.skip(b.len() - TS_SUFFIX_LEN as int),
            c.skip(c.len() - TS_SUFFIX_LEN as int),
        );
    } else if ua == ub {
        // a and b share a user key; order against c is by user key
    } else if ub == uc {
    } else {
        crate::codec::lemma_lex_le_trans(ua, ub, uc);
        if lex_le(uc, ua) {
            crate::codec::lemma_lex_le_trans(ub, uc, ua);
            crate::codec::lemma_lex_le_trans(uc, ua, ub);
        }
    }
}

/// Compares two stored keys in the engine's order.
pub fn compare_key_le(a: &[u8], b: &[u8]) -> (r: bool)
    requires
        is_key_ts(a@),
        is_key_ts(b@),
    ensures
        r == key_le(a@, b@),
{
    let ua = vstd::slice::slice_subrange(a, 0, a.len() - TS_SUFFIX_LEN);
    let ub = vstd::slice::slice_subrange(b, 0, b.len() - TS_SUFFIX_LEN);
    proof {
        assert(ua@ =~= user_key_of(a@));
        assert(ub@ =~= user_key_of(b@));
    }
    let le = bytes_le(ua, ub);
    let ge = bytes_le(ub, ua);
    proof {
        crate::codec::lemma_lex_le_total(ua@, ub@);
    }
    if le && ge {
        let sa = vstd::slice::slice_subrange(a, a.len() - TS_SUFFIX_LEN, a.len());
        let sb = vstd::slice::slice_subrange(b, b.len() - TS_SUFFIX_LEN, b.len());
        proof {
            assert(sa@ =~= a@.skip(a@.len() - TS_SUFFIX_LEN as int));
            assert(sb@ =~= b@.skip(b@.len() - TS_SUFFIX_LEN as int));
        }
        bytes_le(sa, sb)
    } else {
        le
    }
}

/// A run of stored keys sorted in the engine's order, strictly:
/// no stored key occurs twice.
pub open spec fn entries_sorted<T>(s: Seq<T>, key_of: spec_fn(T) -> Seq<u8>) -> bool {
    forall|i: int, j: int|
        0 <= i < j < s.len() ==> key_lt(key_of(#[trigger] s[i]), key_of(#[trigger] s[j]))
}

// ---------------------------------------------------------------------
// Key hashing (for bloom filters and conflict detection)
// ---------------------------------------------------------------------

/// FNV-1a over the first `n` bytes of `key`.
pub open spec fn key_hash_upto(key: Seq<u8>, n: int) -> u32
    decreases n,
{
    if n <= 0 {
        2166136261u32
    } else {
        mul32(key_hash_upto(key, n - 1) ^ (key[n - 1] as u32), 16777619u32)
    }
}

/// 32-bit wrapping product.
pub open spec fn mul32(a: u32, b: u32) -> u32 {
    ((a * b) % 0x1_0000_0000) as u32
}

/// The engine's key hash: FNV-1a over the user key.
pub open spec fn key_hash_of(key: Seq<u8>) -> u32 {
    key_hash_upto(key, key.len() as int)
}

/// Computes the FNV-1a hash of a bare user key.
pub fn key_hash(key: &[u8]) -> (r: u32)
    ensures
        r == key_hash_of(key@),
{
    let mut h: u32 = 2166136261;
    let mut i: usize = 0;
    let n = key.len();
    while i < n
        invariant
            i <= n == key@.len(),
            h == key_hash_upto(key@, i as int),
        decreases n - i,
    {
        let b = key[i];
        let h2 = (h ^ (b as u32)).wrapping_mul(16777619);
        proof {
            assert(h2 == mul32(h ^ (b as u32), 16777619u32));
        }
        h = h2;
        i = i + 1;
    }
    h
}

// ---------------------------------------------------------------------
// Value metadata
// ---------------------------------------------------------------------

/// A value plus its metadata bits; immutable once written.
#[derive(Debug, Clone)]
pub struct ValueMeta {
    pub meta: u8,
    pub user_meta: u8,
    pub expires_at: u64,
    pub value: Vec<u8>,
}

/// Mathematical image of a `ValueMeta`.
pub struct ValueMetaView {
    pub meta: u8,
    pub user_meta: u8,
    pub expires_at: u64,
    pub value: Seq<u8>,
}

impl View for ValueMeta {
    type V = ValueMetaView;

    open spec fn view(&self) -> ValueMetaView {
        ValueMetaView {
            meta: self.meta,
            user_meta: self.user_meta,
            expires_at: self.expires_at,
            value: self.value@,
        }
    }
}

/// The serialized form of a value: two metadata bytes, the expiry as a
/// varint, then the raw value bytes running to the end of the record.
pub open spec fn value_meta_bytes(v: ValueMetaView) -> Seq<u8> {
    seq![v.meta, v.user_meta] + varint_of(v.expires_at) + v.value
}

impl ValueMeta {
    pub fn new(value: Vec<u8>, meta: u8, user_meta: u8, expires_at: u64) -> (r: ValueMeta)
        ensures
            r@.value == value@,
            r@.meta == meta,
            r@.user_meta == user_meta,
            r@.expires_at == expires_at,
    {
        ValueMeta { meta, user_meta, expires_at, value }
    }

    /// Serializes the value record.
    pub fn serialize(&self) -> (r: Vec<u8>)
        ensures
            r@ == value_meta_bytes(self@),
    {
        let mut out: Vec<u8> = Vec::new();
        out.push(self.meta);
        out.push(self.user_meta);
        put_varint(&mut out, self.expires_at);
        let mut i: usize = 0;
        let n = self.value.len();
        while i < n
            invariant
                i <= n,
                n == self.value@.len(),
                out@ == seq![self@.meta, self@.user_meta] + varint_of(self@.expires_at)
                    + self.value@.take(i as int),
            decreases n - i,
        {
            let b = self.value[i];
            out.push(b);
            proof {
                assert(self.value@.take(i + 1) =~= self.value@.take(i as int) + seq![b]);
            }
            i = i + 1;
        }
        proof {
            assert(self.value@.take(n as int) =~= self.value@);
        }
        out
    }

    /// Parses a value record that runs to the end of `buf`.
    pub fn deserialize(buf: &[u8]) -> (r: Option<ValueMeta>)
        ensures
            match r {
                Some(v) => value_meta_bytes(v@) == buf@,
                None => buf@.len() < 2 || !varint_at(buf@, 2),
            },
    {
        if buf.len() < 2 {
            return None;
        }
        let meta = buf[0];
        let user_meta = buf[1];
        match get_varint(buf, 2) {
            None => None,
            Some((expires_at, n)) => {
                let value = vstd::slice::slice_to_vec(
                    vstd::slice::slice_subrange(buf, 2 + n, buf.len()),
                );
                let v = ValueMeta { meta, user_meta, expires_at, value };
                proof {
                    assert(value_meta_bytes(v@) =~= buf@);
                }
                Some(v)
            },
        }
    }
}

/// Tests two value records for equality.
pub fn value_meta_equal(a: &ValueMeta, b: &ValueMeta) -> (r: bool)
    ensures
        r == (a@ == b@),
{
    let r = a.meta == b.meta && a.user_meta == b.user_meta && a.expires_at == b.expires_at
        && crate::codec::bytes_equal(a.value.as_slice(), b.value.as_slice());
    proof {
        if r {
            assert(a@ == b@);
        }
    }
    r
}

/// Serializing is injective: equal records mean equal values.
pub proof fn lemma_value_meta_bytes_injective(a: ValueMetaView, b: ValueMetaView)
    requires
        value_meta_bytes(a) == value_meta_bytes(b),
    ensures
        a == b,
{
    let sa = value_meta_bytes(a);
    let sb = value_meta_bytes(b);
    crate::codec::lemma_varint_len(a.expires_at);
    crate::codec::lemma_varint_len(b.expires_at);
    assert(sa.subrange(2, 2 + varint_of(a.expires_at).len() as int) =~= varint_of(a.expires_at));
    assert(sb.subrange(2, 2 + varint_of(b.expires_at).len() as int) =~= varint_of(b.expires_at));
    crate::codec::lemma_varint_unique_at(sa, 2, a.expires_at, b.expires_at);
    assert(a.meta == sa[0] && a.user_meta == sa[1]);
    assert(b.meta == sb[0] && b.user_meta == sb[1]);
    let na = varint_of(a.expires_at).len() as int;
    assert(a.value =~= sa.skip(2 + na));
    assert(b.value =~= sb.skip(2 + na));
    assert(a == b) by {
        assert(a.meta == b.meta && a.user_meta == b.user_meta && a.expires_at == b.expires_at
            && a.value == b.value);
    }
}

// ---------------------------------------------------------------------
// Value pointers
// ---------------------------------------------------------------------

/// A reference into the value log: which segment, where, how long.
#[derive(Debug, Clone, Copy, PartialEq, Eq, Structural)]
pub struct ValuePointer {
    pub fid: u32,
    pub len: u32,
    pub offset: u32,
}

/// The 12-byte serialized form of a value pointer.
pub open spec fn value_pointer_bytes(p: ValuePointer) -> Seq<u8> {
    be32_of(p.fid) + be32_of(p.len) + be32_of(p.offset)
}

impl ValuePointer {
    pub fn new(fid: u32, len: u32, offset: u32) -> (r: ValuePointer)
        ensures
            r.fid == fid && r.len == len && r.offset == offset,
    {
        ValuePointer { fid, len, offset }
    }

    pub fn default() -> (r: ValuePointer)
        ensures
            r.fid == 0 && r.len == 0 && r.offset == 0,
    {
        ValuePointer { fid: 0, len: 0, offset: 0 }
    }

    pub fn is_empty(&self) -> (r: bool)
        ensures
            r == (self.fid == 0 && self.len == 0 && self.offset == 0),
    {
        self.fid == 0 && self.len == 0 && self.offset == 0
    }

    pub fn encode(&self) -> (r: Vec<u8>)
        ensures
            r@ == value_pointer_bytes(*self),
    {
        let mut out: Vec<u8> = Vec::new();
        put_u32_be(&mut out, self.fid);
        put_u32_be(&mut out, self.len);
        put_u32_be(&mut out, self.offset);
        out
    }

    pub fn decode(buf: &[u8]) -> (r: Option<ValuePointer>)
        ensures
            match r {
                Some(p) => buf@.len() == 12 && value_pointer_bytes(p) == buf@,
                None => buf@.len() != 12,
            },
    {
        if buf.len() != 12 {
            return None;
        }
        let fid = get_u32_be(buf, 0);
        let len = get_u32_be(buf, 4);
        let offset = get_u32_be(buf, 8);
        let p = ValuePointer { fid, len, offset };
        proof {
            crate::codec::lemma_be32_inverse(buf@.subrange(0, 4));
            crate::codec::lemma_be32_inverse(buf@.subrange(4, 8));
            crate::codec::lemma_be32_inverse(buf@.subrange(8, 12));
            assert(value_pointer_bytes(p) =~= buf@);
        }
        Some(p)
    }
}

} // verus!
