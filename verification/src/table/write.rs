//! The write side of the sorted-block format.
//!
//! A block holds a bounded run of key/value pairs. Keys are
//! prefix-compressed against the block's first key (the base key): each
//! entry stores a 4-byte header giving how many bytes it shares with
//! the base key (`overlap`) and how many follow (`diff`), then the
//! differing key bytes, then the serialized value. Closing a block
//! appends the entry-offset table, the entry count, and a checksum
//! record over everything before it.

use vstd::prelude::*;

use crate::checksum::{
    checksum_record_bytes, crc32, crc32_of, encode_checksum_record, CHECKSUM_RECORD_SIZE,
};
use crate::codec::{be16_of, be32_of, be16_val, lex_le, put_u16_be, put_u32_be};
use crate::kv::{value_meta_bytes, ValueMeta, ValueMetaView};

verus! {

/// Bytes of an entry header: overlap and diff, two bytes each.
pub const HEADER_SIZE: usize = 4;

/// One key/value pair as a block logically holds it.
pub struct EntryView {
    pub key: Seq<u8>,
    pub val: ValueMetaView,
}

/// Whether `e` is a version of `user` readable at `read_ts`: the same
/// user key, stamped no later than the read.
pub open spec fn visible_version(e: EntryView, user: Seq<u8>, read_ts: u64) -> bool {
    crate::kv::user_key_of(e.key) == user && crate::kv::ts_of(e.key) <= read_ts
}

/// Among a sorted run's visible versions of one user key, the first
/// in key order carries the greatest timestamp: the entry a lookup
/// stops at is the newest version the read may see.
pub proof fn lemma_first_visible_is_newest(
    s: Seq<EntryView>,
    user: Seq<u8>,
    read_ts: u64,
    i: int,
    j: int,
)
    requires
        crate::kv::entries_sorted(s, |e: EntryView| e.key),
        forall|k: int| 0 <= k < s.len() ==> crate::kv::is_key_ts((#[trigger] s[k]).key),
        0 <= i < j < s.len(),
        visible_version(s[i], user, read_ts),
        visible_version(s[j], user, read_ts),
    ensures
        crate::kv::ts_of(s[j].key) <= crate::kv::ts_of(s[i].key),
{
    assert(crate::kv::key_lt(
        (|e: EntryView| e.key)(s[i]),
        (|e: EntryView| e.key)(s[j]),
    ));
    crate::kv::lemma_same_user_ts_order(s[i].key, s[j].key);
}

// ---------------------------------------------------------------------
// Entry headers
// ---------------------------------------------------------------------

/// The per-entry header: how much of the base key is reused and how
/// many differing bytes follow.
#[derive(Debug, Clone, Copy, PartialEq, Eq, Structural)]
pub struct EntryHeader {
    pub overlap: u16,
    pub diff: u16,
}

pub open spec fn entry_header_bytes(h: EntryHeader) -> Seq<u8> {
    be16_of(h.overlap) + be16_of(h.diff)
}

impl EntryHeader {
    pub fn new(overlap: u16, diff: u16) -> (r: EntryHeader)
        ensures
            r.overlap == overlap && r.diff == diff,
    {
        EntryHeader { overlap, diff }
    }

    #[inline]
    pub fn serialize(&self) -> (r: Vec<u8>)
        ensures
            r@ == entry_header_bytes(*self),
            r@.len() == HEADER_SIZE,
    {
        let mut v: Vec<u8> = Vec::new();
        put_u16_be(&mut v, self.overlap);
        put_u16_be(&mut v, self.diff);
        v
    }

    #[inline]
    pub fn deserialize(data: &[u8]) -> (r: EntryHeader)
        requires
            data@.len() >= HEADER_SIZE,
        ensures
            entry_header_bytes(r) == data@.subrange(0, HEADER_SIZE as int),
    {
        let overlap = crate::codec::get_u16_be(data, 0);
        let diff = crate::codec::get_u16_be(data, 2);
        let r = EntryHeader { overlap, diff };
        proof {
            crate::codec::lemma_be16_inverse(data@.subrange(0, 2));
            crate::codec::lemma_be16_inverse(data@.subrange(2, 4));
            assert(entry_header_bytes(r) =~= data@.subrange(0, 4));
        }
        r
    }

    #[inline]
    pub fn get_diff(&self) -> (r: usize)
        ensures
            r == self.diff,
    {
        self.diff as usize
    }

    #[inline]
    pub fn get_overlap(&self) -> (r: usize)
        ensures
            r == self.overlap,
    {
        self.overlap as usize
    }
}

// ---------------------------------------------------------------------
// Longest common prefix
// ---------------------------------------------------------------------

pub open spec fn lcp_len(a: Seq<u8>, b: Seq<u8>) -> nat
    decreases a.len(),
{
    if a.len() == 0 || b.len() == 0 || a[0] != b[0] {
        0
    } else {
        1 + lcp_len(a.drop_first(), b.drop_first())
    }
}

pub proof fn lemma_lcp_char(a: Seq<u8>, b: Seq<u8>)
    ensures
        lcp_len(a, b) <= a.len(),
        lcp_len(a, b) <= b.len(),
        forall|j: int| 0 <= j < lcp_len(a, b) ==> a[j] == b[j],
        lcp_len(a, b) < a.len() && lcp_len(a, b) < b.len()
            ==> a[lcp_len(a, b) as int] != b[lcp_len(a, b) as int],
    decreases a.len(),
{
    if a.len() != 0 && b.len() != 0 && a[0] == b[0] {
        lemma_lcp_char(a.drop_first(), b.drop_first());
        let n = lcp_len(a, b);
        assert forall|j: int| 0 <= j < n implies a[j] == b[j] by {
            if j > 0 {
                assert(a.drop_first()[j - 1] == b.drop_first()[j - 1]);
            }
        }
        if n < a.len() && n < b.len() {
            assert(a.drop_first()[n - 1] != b.drop_first()[n - 1]);
        }
    }
}

// ---------------------------------------------------------------------
// Entry regions: what a stretch of block bytes says
// ---------------------------------------------------------------------

/// The bytes `data[start..end]` encode entry `e` against `base` with
/// overlap `o`.
pub open spec fn region_ok_at(
    data: Seq<u8>,
    base: Seq<u8>,
    start: int,
    end: int,
    e: EntryView,
    first: bool,
    o: nat,
) -> bool {
    let diff = e.key.len() - o;
    &&& 0 <= start
    &&& start + HEADER_SIZE <= end <= data.len()
    &&& o <= base.len()
    &&& o <= e.key.len()
    &&& (first ==> o == 0)
    &&& o <= u16::MAX
    &&& diff <= u16::MAX
    &&& data.subrange(start, start + 2) == be16_of(o as u16)
    &&& data.subrange(start + 2, start + 4) == be16_of(diff as u16)
    &&& start + HEADER_SIZE + diff <= end
    &&& data.subrange(start + HEADER_SIZE, start + HEADER_SIZE + diff) == e.key.skip(o as int)
    &&& e.key.take(o as int) == base.take(o as int)
    &&& data.subrange(start + HEADER_SIZE + diff, end) == value_meta_bytes(e.val)
}

pub open spec fn region_ok(
    data: Seq<u8>,
    base: Seq<u8>,
    start: int,
    end: int,
    e: EntryView,
    first: bool,
) -> bool {
    exists|o: nat| #[trigger] region_ok_at(data, base, start, end, e, first, o)
}

/// Where the region of entry `i` ends: at the next entry's offset, or
/// at the offset table for the last entry.
pub open spec fn region_end(offsets: Seq<u32>, index_start: int, i: int) -> int {
    if i == offsets.len() - 1 {
        index_start
    } else {
        offsets[i + 1] as int
    }
}

/// The entry area `data[0..index_start]`, cut at `offsets`, encodes
/// `entries` one region each, prefix-compressed against the first key.
pub open spec fn block_wf(
    data: Seq<u8>,
    offsets: Seq<u32>,
    index_start: int,
    entries: Seq<EntryView>,
) -> bool {
    &&& offsets.len() == entries.len()
    &&& entries.len() > 0
    &&& index_start <= data.len()
    &&& offsets[0] == 0
    &&& forall|i: int| 0 <= i < entries.len() ==> (#[trigger] entries[i]).key.len() > 0
    &&& forall|i: int|
        0 <= i < entries.len() ==> region_ok(
            data,
            entries[0].key,
            offsets[i] as int,
            region_end(offsets, index_start, i),
            #[trigger] entries[i],
            i == 0,
        )
}

/// Two reads of the same regions agree: the encoding is unambiguous.
pub proof fn lemma_block_parse_deterministic(
    data: Seq<u8>,
    offsets: Seq<u32>,
    index_start: int,
    e1: Seq<EntryView>,
    e2: Seq<EntryView>,
)
    requires
        block_wf(data, offsets, index_start, e1),
        block_wf(data, offsets, index_start, e2),
    ensures
        e1.len() == e2.len(),
        forall|i: int|
            0 <= i < e1.len() ==> (#[trigger] e1[i]).key == e2[i].key && e1[i].val == e2[i].val,
{
    assert forall|i: int|
        0 <= i < e1.len() implies (#[trigger] e1[i]).key == e2[i].key && e1[i].val
        == e2[i].val by {
        lemma_region_deterministic(
            data,
            e1[0].key,
            e2[0].key,
            offsets[0] as int,
            region_end(offsets, index_start, 0),
            e1[0],
            e2[0],
            true,
        );
        if i > 0 {
            lemma_region_deterministic(
                data,
                e1[0].key,
                e2[0].key,
                offsets[i] as int,
                region_end(offsets, index_start, i),
                e1[i],
                e2[i],
                false,
            );
        }
    }
}

proof fn lemma_region_deterministic(
    data: Seq<u8>,
    base1: Seq<u8>,
    base2: Seq<u8>,
    start: int,
    end: int,
    e1: EntryView,
    e2: EntryView,
    first: bool,
)
    requires
        region_ok(data, base1, start, end, e1, first),
        region_ok(data, base2, start, end, e2, first),
        first ==> base1 == e1.key && base2 == e2.key,
        !first ==> base1 == base2,
    ensures
        e1.key == e2.key,
        e1.val == e2.val,
{
    let o1 = choose|o: nat| region_ok_at(data, base1, start, end, e1, first, o);
    let o2 = choose|o: nat| region_ok_at(data, base2, start, end, e2, first, o);
    crate::codec::lemma_be16_round_trip(o1 as u16);
    crate::codec::lemma_be16_round_trip(o2 as u16);
    assert(be16_val(data.subrange(start, start + 2)) == o1 as u16);
    assert(be16_val(data.subrange(start, start + 2)) == o2 as u16);
    assert(o1 == o2);
    let d1 = e1.key.len() - o1;
    let d2 = e2.key.len() - o2;
    crate::codec::lemma_be16_round_trip(d1 as u16);
    crate::codec::lemma_be16_round_trip(d2 as u16);
    assert(be16_val(data.subrange(start + 2, start + 4)) == d1 as u16);
    assert(be16_val(data.subrange(start + 2, start + 4)) == d2 as u16);
    assert(d1 == d2);
    if first {
        assert(o1 == 0);
        assert(e1.key =~= e1.key.skip(0));
        assert(e2.key =~= e2.key.skip(0));
        assert(e1.key == e2.key);
    } else {
        assert(e1.key =~= e1.key.take(o1 as int) + e1.key.skip(o1 as int));
        assert(e2.key =~= e2.key.take(o2 as int) + e2.key.skip(o2 as int));
        assert(e1.key == e2.key);
    }
    crate::kv::lemma_value_meta_bytes_injective(e1.val, e2.val);
}

// ---------------------------------------------------------------------
// Building a block
// ---------------------------------------------------------------------

/// A block under construction: raw entry bytes, the base key, and the
/// offset of every entry pushed so far.
pub struct BackendBlock {
    pub data: Vec<u8>,
    pub basekey: Vec<u8>,
    pub entry_offsets: Vec<u32>,
    pub entries: Ghost<Seq<EntryView>>,
}

impl BackendBlock {
    /// The pairs this block holds, in push order.
    pub open spec fn entries_view(&self) -> Seq<EntryView> {
        self.entries@
    }

    pub open spec fn wf(&self) -> bool {
        &&& self.entries@.len() == 0 ==> self.data@.len() == 0 && self.basekey@.len() == 0
            && self.entry_offsets@.len() == 0
        &&& self.entries@.len() > 0 ==> block_wf(
            self.data@,
            self.entry_offsets@,
            self.data@.len() as int,
            self.entries@,
        ) && self.basekey@ == self.entries@[0].key && self.entries@[0].key.len() > 0
    }

    pub fn new(block_size: usize) -> (r: BackendBlock)
        ensures
            r.wf(),
            r.entries_view().len() == 0,
            r.data@.len() == 0,
    {
        BackendBlock {
            data: Vec::new(),
            basekey: Vec::new(),
            entry_offsets: Vec::new(),
            entries: Ghost(Seq::empty()),
        }
    }

    pub fn len(&self) -> (r: usize)
        ensures
            r == self.data@.len(),
    {
        self.data.len()
    }

    pub fn num_entries(&self) -> (r: usize)
        requires
            self.wf(),
        ensures
            r == self.entries_view().len(),
    {
        self.entry_offsets.len()
    }

    /// How many leading bytes `new_key` shares with the base key.
    pub fn diff_base_key(&self, new_key: &[u8]) -> (r: usize)
        ensures
            r == lcp_len(self.basekey@, new_key@),
    {
        let mut i: usize = 0;
        let base: &[u8] = self.basekey.as_slice();
        let n = if base.len() < new_key.len() {
            base.len()
        } else {
            new_key.len()
        };
        proof {
            lemma_lcp_char(base@, new_key@);
        }
        loop
            invariant
                i <= n,
                n == vstd::math::min(base@.len() as int, new_key@.len() as int),
                base@ == self.basekey@,
                forall|j: int| 0 <= j < i ==> base@[j] == new_key@[j],
                lcp_len(base@, new_key@) <= base@.len(),
                lcp_len(base@, new_key@) <= new_key@.len(),
                forall|j: int| 0 <= j < lcp_len(base@, new_key@) ==> base@[j] == new_key@[j],
                lcp_len(base@, new_key@) < n ==> base@[lcp_len(base@, new_key@) as int]
                    != new_key@[lcp_len(base@, new_key@) as int],
                i <= lcp_len(base@, new_key@),
            decreases n - i,
        {
            if i >= n {
                return i;
            }
            if base[i] != new_key[i] {
                proof {
                    let l = lcp_len(base@, new_key@);
                    if i < l {
                        assert(base@[i as int] == new_key@[i as int]);
                    }
                }
                return i;
            }
            i = i + 1;
            proof {
                let l = lcp_len(base@, new_key@);
                if l < i {
                    assert(base@[l as int] == new_key@[l as int]);
                }
            }
        }
    }

    /// Appends one entry. The first key pushed becomes the base key.
    #[verifier::rlimit(60)]
    pub fn push_entry(&mut self, key_ts: &[u8], value: &ValueMeta)
        requires
            old(self).wf(),
            key_ts@.len() > 0,
            key_ts@.len() <= u16::MAX,
            old(self).data@.len() + HEADER_SIZE + key_ts@.len() + value_meta_bytes(value@).len()
                <= u32::MAX,
        ensures
            final(self).wf(),
            final(self).entries_view() == old(self).entries_view().push(
                EntryView { key: key_ts@, val: value@ },
            ),
            final(self).entries_view().len() > 0,
            final(self).basekey@ == final(self).entries_view()[0].key,
            final(self).data@.len() <= old(self).data@.len() + HEADER_SIZE + key_ts@.len()
                + value_meta_bytes(value@).len(),
            final(self).entry_offsets@ == old(self).entry_offsets@.push(
                old(self).data@.len() as u32,
            ),
            // the first key becomes the base key and is stored whole;
            // every later key shares exactly its longest common prefix
            // with the base key and stores the rest
            old(self).entries_view().len() == 0 ==> final(self).data@ == old(self).data@
                + entry_header_bytes(
                EntryHeader { overlap: 0u16, diff: key_ts@.len() as u16 },
            ) + key_ts@ + value_meta_bytes(value@),
            old(self).entries_view().len() > 0 ==> final(self).data@ == old(self).data@
                + entry_header_bytes(
                EntryHeader {
                    overlap: lcp_len(old(self).basekey@, key_ts@) as u16,
                    diff: (key_ts@.len() - lcp_len(old(self).basekey@, key_ts@)) as u16,
                },
            ) + key_ts@.skip(lcp_len(old(self).basekey@, key_ts@) as int) + value_meta_bytes(
                value@,
            ),
    {
        let ghost e = EntryView { key: key_ts@, val: value@ };
        let ghost entries0 = self.entries@;
        let ghost offsets0 = self.entry_offsets@;
        let ghost data0 = self.data@;
        let first = self.basekey.len() == 0;
        let overlap: usize = if first {
            self.basekey = vstd::slice::slice_to_vec(key_ts);
            0
        } else {
            let o = self.diff_base_key(key_ts);
            proof {
                lemma_lcp_char(self.basekey@, key_ts@);
            }
            o
        };
        let diff_len = key_ts.len() - overlap;
        let start = self.data.len();
        let header = EntryHeader::new(overlap as u16, diff_len as u16);
        self.entry_offsets.push(start as u32);
        let hdr = header.serialize();
        crate::codec::extend_bytes(&mut self.data, hdr.as_slice());
        crate::codec::extend_bytes_range(&mut self.data, key_ts, overlap, key_ts.len());
        let vbytes = value.serialize();
        crate::codec::extend_bytes(&mut self.data, vbytes.as_slice());
        proof {
            self.entries@ = entries0.push(e);
            let data = self.data@;
            let entries = self.entries@;
            let offsets = self.entry_offsets@;
            let base = entries[0].key;
            assert(data == data0 + hdr@ + e.key.skip(overlap as int) + vbytes@);
            assert(data.len() == start + HEADER_SIZE + diff_len + vbytes@.len());
            assert(offsets == offsets0.push(start as u32));
            assert(entries.len() == entries0.len() + 1);
            assert(entries[entries.len() - 1] == e);
            assert forall|lo: int, hi: int| 0 <= lo <= hi <= data0.len() implies #[trigger]
                data.subrange(lo, hi) == data0.subrange(lo, hi) by {
                assert(data.subrange(lo, hi) =~= data0.subrange(lo, hi));
            }
            if entries0.len() > 0 {
                assert(base == entries0[0].key);
            }
            // the regions already present are untouched
            assert forall|i2: int| 0 <= i2 < entries.len() - 1 implies region_ok(
                data,
                base,
                offsets[i2] as int,
                region_end(offsets, data.len() as int, i2),
                #[trigger] entries[i2],
                i2 == 0,
            ) by {
                let fst = (i2 == 0);
                let oend = region_end(offsets0, data0.len() as int, i2);
                assert(entries[i2] == entries0[i2]);
                assert(region_ok(data0, base, offsets0[i2] as int, oend, entries0[i2], fst));
                let o = choose|o: nat|
                    #[trigger] region_ok_at(data0, base, offsets0[i2] as int, oend, entries0[i2], fst, o);
                let nstart = offsets[i2] as int;
                let nend = region_end(offsets, data.len() as int, i2);
                assert(nstart == offsets0[i2] as int);
                if i2 == entries0.len() - 1 {
                    assert(nend == start);
                    assert(oend == data0.len());
                } else {
                    assert(nend == offsets0[i2 + 1] as int);
                }
                assert(nend == oend);
                assert(region_ok_at(data, base, nstart, nend, entries[i2], fst, o));
            }
            // the new region parses back to the entry just pushed
            let fst_new = (entries.len() == 1);
            assert(region_ok_at(
                data,
                base,
                start as int,
                data.len() as int,
                e,
                fst_new,
                overlap as nat,
            )) by {
                assert(hdr@ == entry_header_bytes(header));
                assert(forall|q: int|
                    0 <= q < 2 ==> hdr@[q] == be16_of(header.overlap)[q] && hdr@[2 + q]
                        == be16_of(header.diff)[q]);
                assert(data.subrange(start as int, start + 2) =~= be16_of(overlap as u16));
                assert(data.subrange(start + 2, start + 4) =~= be16_of(diff_len as u16));
                assert(data.subrange(start + 4, start + 4 + diff_len) =~= e.key.skip(
                    overlap as int,
                ));
                assert(data.subrange(start + 4 + diff_len, data.len() as int)
                    =~= value_meta_bytes(e.val));
                if fst_new {
                    assert(e.key.take(0) =~= base.take(0));
                } else {
                    lemma_lcp_char(base, e.key);
                    assert(e.key.take(overlap as int) =~= base.take(overlap as int));
                }
            }
            if entries.len() == 1 {
                assert(offsets[0] == 0);
            }
            assert(block_wf(data, offsets, data.len() as int, entries));
            if entries0.len() == 0 {
                assert(entries[0] == e);
                assert(self.basekey@ == e.key);
                assert(e.key.skip(0) =~= key_ts@);
            } else {
                assert(entries[0] == entries0[0]);
                assert(self.basekey@ == entries0[0].key);
            }
        }
    }

    /// Whether pushing one more entry of the given size would take the
    /// block past `block_size`, counting the offset table and checksum
    /// trailer that closing will append.
    pub fn should_finish_block(
        &self,
        key_len: usize,
        value_enc_len: usize,
        block_size: usize,
    ) -> (r: bool)
        requires
            self.wf(),
            key_len <= u16::MAX,
            value_enc_len <= u32::MAX,
            self.data@.len() <= u32::MAX,
            block_size <= u32::MAX,
        ensures
            self.entries_view().len() == 0 ==> r == false,
            self.entries_view().len() > 0 ==> r == (self.data@.len() + 6 + key_len + value_enc_len
                + (self.entry_offsets@.len() + 1) * 4 + 4 + 8 + 4 > block_size),
    {
        if self.entry_offsets.len() == 0 {
            return false;
        }
        proof {
            lemma_block_count_bound(
                self.data@,
                self.entry_offsets@,
                self.data@.len() as int,
                self.entries@,
            );
        }
        let entries_offsets_size: u64 = (self.entry_offsets.len() as u64 + 1) * 4 + 4 + 8 + 4;
        let estimate: u64 = self.data.len() as u64 + 6 + key_len as u64 + value_enc_len as u64
            + entries_offsets_size;
        estimate > block_size as u64
    }

    /// Closes the block: appends the offset table, the entry count,
    /// and a checksum record over everything before it.
    pub fn finish_block(&mut self)
        requires
            old(self).wf(),
            old(self).entries_view().len() > 0,
            old(self).entry_offsets@.len() <= u32::MAX,
        ensures
            final(self).data@ == block_full_bytes(old(self).data@, old(self).entry_offsets@),
            final(self).entry_offsets@ == old(self).entry_offsets@,
            final(self).entries_view() == old(self).entries_view(),
            final(self).basekey@ == old(self).basekey@,
            block_wf(
                final(self).data@,
                final(self).entry_offsets@,
                old(self).data@.len() as int,
                final(self).entries_view(),
            ),
    {
        let ghost data0 = self.data@;
        let ghost offsets0 = self.entry_offsets@;
        let count = self.entry_offsets.len();
        let mut i: usize = 0;
        while i < count
            invariant
                i <= count == self.entry_offsets@.len(),
                self.entry_offsets@ == offsets0,
                self.entries@ == old(self).entries@,
                self.basekey@ == old(self).basekey@,
                self.data@ == data0 + u32s_bytes(offsets0.take(i as int)),
            decreases count - i,
        {
            let off = self.entry_offsets[i];
            put_u32_be(&mut self.data, off);
            proof {
                assert(offsets0.take(i + 1).drop_last() =~= offsets0.take(i as int));
                assert(u32s_bytes(offsets0.take(i + 1)) == u32s_bytes(offsets0.take(i as int))
                    + be32_of(off));
                assert(self.data@ =~= data0 + u32s_bytes(offsets0.take(i + 1)));
            }
            i = i + 1;
        }
        proof {
            assert(offsets0.take(count as int) =~= offsets0);
        }
        put_u32_be(&mut self.data, count as u32);
        let ghost body = self.data@;
        let sum = crate::checksum::crc32(self.data.as_slice());
        let record = encode_checksum_record(sum as u64);
        crate::codec::extend_bytes(&mut self.data, record.as_slice());
        put_u32_be(&mut self.data, CHECKSUM_RECORD_SIZE as u32);
        proof {
            assert(self.data@ =~= block_full_bytes(data0, offsets0));
            assert(self.data@.subrange(0, data0.len() as int) =~= data0);
            lemma_block_wf_extend(
                data0,
                self.data@,
                offsets0,
                data0.len() as int,
                self.entries@,
            );
        }
    }
}

// ---------------------------------------------------------------------
// The assembled block
// ---------------------------------------------------------------------

/// Offsets as consecutive 4-byte big-endian words.
pub open spec fn u32s_bytes(offs: Seq<u32>) -> Seq<u8>
    decreases offs.len(),
{
    if offs.len() == 0 {
        Seq::empty()
    } else {
        u32s_bytes(offs.drop_last()) + be32_of(offs.last())
    }
}

pub proof fn lemma_u32s_bytes_len(offs: Seq<u32>)
    ensures
        u32s_bytes(offs).len() == 4 * offs.len(),
    decreases offs.len(),
{
    if offs.len() > 0 {
        lemma_u32s_bytes_len(offs.drop_last());
    }
}

pub proof fn lemma_u32s_bytes_index(offs: Seq<u32>, i: int)
    requires
        0 <= i < offs.len(),
    ensures
        u32s_bytes(offs).subrange(4 * i, 4 * i + 4) == be32_of(offs[i]),
    decreases offs.len(),
{
    lemma_u32s_bytes_len(offs);
    lemma_u32s_bytes_len(offs.drop_last());
    if i == offs.len() - 1 {
        assert(u32s_bytes(offs).subrange(4 * i, 4 * i + 4) =~= be32_of(offs.last()));
    } else {
        lemma_u32s_bytes_index(offs.drop_last(), i);
        assert(u32s_bytes(offs).subrange(4 * i, 4 * i + 4) =~= u32s_bytes(
            offs.drop_last(),
        ).subrange(4 * i, 4 * i + 4));
    }
}

/// The full byte image of a closed block: the entry area, the offset
/// table, the entry count, a checksum record over all of that, and the
/// record's length.
pub open spec fn block_full_bytes(data: Seq<u8>, offsets: Seq<u32>) -> Seq<u8> {
    let body = data + u32s_bytes(offsets) + be32_of(offsets.len() as u32);
    body + checksum_record_bytes(crc32_of(body) as u64) + be32_of(CHECKSUM_RECORD_SIZE as u32)
}

/// Appending bytes after the entry area disturbs no region.
pub proof fn lemma_block_wf_extend(
    data: Seq<u8>,
    data2: Seq<u8>,
    offsets: Seq<u32>,
    index_start: int,
    entries: Seq<EntryView>,
)
    requires
        block_wf(data, offsets, index_start, entries),
        data2.len() >= data.len(),
        data2.subrange(0, data.len() as int) == data,
    ensures
        block_wf(data2, offsets, index_start, entries),
{
    assert forall|lo: int, hi: int| 0 <= lo <= hi <= data.len() implies #[trigger] data2.subrange(
        lo,
        hi,
    ) == data.subrange(lo, hi) by {
        assert(data2.subrange(lo, hi) =~= data.subrange(lo, hi));
    }
    assert forall|i: int| 0 <= i < entries.len() implies region_ok(
        data2,
        entries[0].key,
        offsets[i] as int,
        region_end(offsets, index_start, i),
        #[trigger] entries[i],
        i == 0,
    ) by {
        let fst = (i == 0);
        let oend = region_end(offsets, index_start, i);
        assert(region_ok(data, entries[0].key, offsets[i] as int, oend, entries[i], fst));
        let o = choose|o: nat|
            #[trigger] region_ok_at(data, entries[0].key, offsets[i] as int, oend, entries[i], fst, o);
        assert(region_ok_at(data2, entries[0].key, offsets[i] as int, oend, entries[i], fst, o));
    }
}

/// No region is narrower than its header: a block holds at most a
/// quarter as many entries as entry-area bytes.
pub proof fn lemma_block_count_bound(
    data: Seq<u8>,
    offsets: Seq<u32>,
    index_start: int,
    entries: Seq<EntryView>,
)
    requires
        block_wf(data, offsets, index_start, entries),
    ensures
        4 * offsets.len() <= index_start,
{
    if offsets.len() > 0 {
        let last = offsets.len() - 1;
        lemma_offsets_grow(data, offsets, index_start, entries, last);
        lemma_region_bounds(data, offsets, index_start, entries, last);
        assert(4 * last + 4 <= region_end(offsets, index_start, last));
        assert(region_end(offsets, index_start, last) == index_start);
    }
}

proof fn lemma_region_bounds(
    data: Seq<u8>,
    offsets: Seq<u32>,
    index_start: int,
    entries: Seq<EntryView>,
    i: int,
)
    requires
        block_wf(data, offsets, index_start, entries),
        0 <= i < offsets.len(),
    ensures
        offsets[i] + 4 <= region_end(offsets, index_start, i) <= index_start,
    decreases offsets.len() - i,
{
    let fst = (i == 0);
    let e = region_end(offsets, index_start, i);
    assert(region_ok(data, entries[0].key, offsets[i] as int, e, entries[i], fst));
    let o = choose|o: nat|
        #[trigger] region_ok_at(data, entries[0].key, offsets[i] as int, e, entries[i], fst, o);
    if i < offsets.len() - 1 {
        lemma_region_bounds(data, offsets, index_start, entries, i + 1);
    }
}

proof fn lemma_offsets_grow(
    data: Seq<u8>,
    offsets: Seq<u32>,
    index_start: int,
    entries: Seq<EntryView>,
    i: int,
)
    requires
        block_wf(data, offsets, index_start, entries),
        0 <= i < offsets.len(),
    ensures
        4 * i <= offsets[i] as int,
        4 * i + 4 <= region_end(offsets, index_start, i),
    decreases i,
{
    lemma_region_bounds(data, offsets, index_start, entries, i);
    if i > 0 {
        lemma_offsets_grow(data, offsets, index_start, entries, i - 1);
    }
}

/// Law: closing a block over `entries` gives bytes that stand for
/// `entries` and nothing else; whatever entry list those bytes are
/// read back as is the original, pair for pair.
pub proof fn lemma_block_round_trip(
    data: Seq<u8>,
    offsets: Seq<u32>,
    entries: Seq<EntryView>,
    es2: Seq<EntryView>,
    d2: Seq<u8>,
    o2: Seq<u32>,
)
    requires
        block_wf(data, offsets, data.len() as int, entries),
        offsets.len() <= u32::MAX,
        crate::table::block::encodes_block(block_full_bytes(data, offsets), d2, o2, es2),
    ensures
        es2.len() == entries.len(),
        forall|i: int|
            0 <= i < entries.len() ==> (#[trigger] es2[i]).key == entries[i].key && es2[i].val
                == entries[i].val,
{
    let bytes = block_full_bytes(data, offsets);
    crate::table::block::lemma_full_bytes_facts(data, offsets, bytes);
    crate::table::block::lemma_full_bytes_facts(d2, o2, bytes);
    crate::codec::lemma_be32_round_trip(offsets.len() as u32);
    crate::codec::lemma_be32_round_trip(o2.len() as u32);
    assert(o2.len() == offsets.len());
    assert(d2.len() == data.len());
    assert(d2 =~= data);
    assert(o2 =~= offsets) by {
        assert forall|i: int| 0 <= i < offsets.len() implies o2[i] == offsets[i] by {
            crate::codec::lemma_be32_round_trip(o2[i]);
            crate::codec::lemma_be32_round_trip(offsets[i]);
        }
    }
    lemma_block_parse_deterministic(d2, o2, d2.len() as int, es2, entries);
}

// ---------------------------------------------------------------------
// Table builder
// ---------------------------------------------------------------------

/// Builds an immutable table from a strictly ascending stream of pairs:
/// entries go into the current block, closed blocks pile up, and `done`
/// seals the footer metadata.
pub struct TableBuilder {
    pub cur_block: BackendBlock,
    pub finished: Vec<Vec<u8>>,
    pub finished_entries: Ghost<Seq<Seq<EntryView>>>,
    pub key_hashes: Vec<u32>,
    pub max_version: u64,
    pub on_disk_size: u32,
    pub uncompressed_size: u32,
    pub stale_data_size: u32,
    pub first_key: Vec<u8>,
    pub last_key: Vec<u8>,
    pub opt: crate::table::opt::TableOption,
}

/// The entries that survive the drop-prefix filter, in order.
pub open spec fn keep_entries(entries: Seq<EntryView>, prefixes: Seq<Seq<u8>>) -> Seq<EntryView>
    decreases entries.len(),
{
    if entries.len() == 0 {
        Seq::empty()
    } else if has_dropped_prefix(entries.last().key, prefixes) {
        keep_entries(entries.drop_last(), prefixes)
    } else {
        keep_entries(entries.drop_last(), prefixes).push(entries.last())
    }
}

/// The key starts with one of the prefixes slated for dropping. Only
/// the user-key part is tested.
pub open spec fn has_dropped_prefix(key: Seq<u8>, prefixes: Seq<Seq<u8>>) -> bool {
    exists|p: int|
        0 <= p < prefixes.len() && crate::codec::has_prefix(
            crate::kv::user_key_of(key),
            #[trigger] prefixes[p],
        )
}

/// Everything the prefix filter keeps was in the run.
pub proof fn lemma_keep_entries_member(entries: Seq<EntryView>, prefixes: Seq<Seq<u8>>, k: int)
    requires
        0 <= k < keep_entries(entries, prefixes).len(),
    ensures
        exists|j: int|
            0 <= j < entries.len() && keep_entries(entries, prefixes)[k] == #[trigger] entries[j],
    decreases entries.len(),
{
    if entries.len() > 0 {
        let pre = entries.drop_last();
        let kp = keep_entries(pre, prefixes);
        if has_dropped_prefix(entries.last().key, prefixes) || k < kp.len() {
            lemma_keep_entries_member(pre, prefixes, k);
            let j = choose|j: int|
                0 <= j < pre.len() && keep_entries(pre, prefixes)[k] == #[trigger] pre[j];
            assert(entries[j] == pre[j]);
        } else {
            assert(keep_entries(entries, prefixes)[k] == entries[entries.len() - 1]);
        }
    }
}

/// The kept entries are a subsequence: the last one kept is one of the
/// originals.
pub proof fn lemma_keep_last(entries: Seq<EntryView>, prefixes: Seq<Seq<u8>>)
    requires
        keep_entries(entries, prefixes).len() > 0,
    ensures
        exists|j: int|
            0 <= j < entries.len() && keep_entries(entries, prefixes).last() == #[trigger] entries[j],
    decreases entries.len(),
{
    if has_dropped_prefix(entries.last().key, prefixes) {
        lemma_keep_last(entries.drop_last(), prefixes);
        let j = choose|j: int|
            0 <= j < entries.drop_last().len() && keep_entries(entries.drop_last(), prefixes).last()
                == #[trigger] entries.drop_last()[j];
        assert(entries[j] == entries.drop_last()[j]);
    } else {
        assert(keep_entries(entries, prefixes).last() == entries[entries.len() - 1]);
    }
}

impl TableBuilder {
    /// Every pair the builder holds so far, in push order.
    pub open spec fn entries_view(&self) -> Seq<EntryView> {
        crate::table::read::flat_entries(self.finished_entries@) + self.cur_block.entries_view()
    }

    pub open spec fn wf(&self) -> bool {
        &&& self.cur_block.wf()
        &&& self.cur_block.data@.len() <= u32::MAX
        &&& self.opt.block_size() <= u32::MAX
        &&& self.finished@.len() == self.finished_entries@.len()
        &&& forall|b: int|
            0 <= b < self.finished@.len() ==> crate::table::read::is_block_encoding(
                (#[trigger] self.finished@[b])@,
                self.finished_entries@[b],
            )
        &&& forall|b: int|
            0 <= b < self.finished_entries@.len() ==> (#[trigger] self.finished_entries@[b]).len()
                > 0
        &&& forall|i: int|
            0 <= i < self.entries_view().len() ==> crate::kv::is_key_ts(
                (#[trigger] self.entries_view()[i]).key,
            )
        &&& crate::kv::entries_sorted(self.entries_view(), |e: EntryView| e.key)
        &&& self.entries_view().len() > 0 ==> self.first_key@ == self.entries_view()[0].key
            && self.last_key@ == self.entries_view().last().key
        &&& self.entries_view().len() == 0 ==> self.first_key@.len() == 0
        &&& forall|i: int|
            0 <= i < self.entries_view().len() ==> crate::kv::ts_of(
                (#[trigger] self.entries_view()[i]).key,
            ) <= self.max_version
    }

    pub fn new(opt: crate::table::opt::TableOption) -> (r: TableBuilder)
        requires
            opt.block_size() <= u32::MAX,
        ensures
            r.wf(),
            r.entries_view().len() == 0,
            r.opt == opt,
    {
        let r = TableBuilder {
            cur_block: BackendBlock::new(opt.get_block_size()),
            finished: Vec::new(),
            finished_entries: Ghost(Seq::empty()),
            key_hashes: Vec::new(),
            max_version: 0,
            on_disk_size: 0,
            uncompressed_size: 0,
            stale_data_size: 0,
            first_key: Vec::new(),
            last_key: Vec::new(),
            opt,
        };
        proof {
            assert(r.entries_view() =~= Seq::<EntryView>::empty());
        }
        r
    }

    pub fn is_empty(&self) -> (r: bool)
        requires
            self.wf(),
        ensures
            r == (self.entries_view().len() == 0),
    {
        proof {
            crate::table::read::lemma_flat_len(self.finished_entries@);
            if self.finished_entries@.len() > 0 {
                crate::table::read::lemma_flat_index(self.finished_entries@, 0, 0);
            }
        }
        self.finished.len() == 0 && self.cur_block.num_entries() == 0
    }

    /// Closes the current block, if it holds anything, and stores its
    /// final byte image.
    pub fn finish_cur_block(&mut self)
        requires
            old(self).wf(),
        ensures
            final(self).wf(),
            final(self).entries_view() == old(self).entries_view(),
            final(self).cur_block.entries_view().len() == 0,
            final(self).opt == old(self).opt,
            final(self).max_version == old(self).max_version,
            final(self).first_key@ == old(self).first_key@,
            final(self).last_key@ == old(self).last_key@,
            final(self).key_hashes == old(self).key_hashes,
            final(self).on_disk_size == old(self).on_disk_size,
            final(self).stale_data_size == old(self).stale_data_size,
            // the uncompressed tally grows by the closed block's full
            // bytes, saturating at the counter's width
            final(self).uncompressed_size as int == (if old(self).cur_block.entries_view().len()
                == 0 {
                old(self).uncompressed_size as int
            } else {
                if old(self).uncompressed_size + block_full_bytes(
                    old(self).cur_block.data@,
                    old(self).cur_block.entry_offsets@,
                ).len() > u32::MAX {
                    u32::MAX as int
                } else {
                    old(self).uncompressed_size + block_full_bytes(
                        old(self).cur_block.data@,
                        old(self).cur_block.entry_offsets@,
                    ).len()
                }
            }),
    {
        if self.cur_block.num_entries() == 0 {
            proof {
                assert(final(self).entries_view() =~= old(self).entries_view());
            }
            return ;
        }
        proof {
            lemma_block_count_bound(
                self.cur_block.data@,
                self.cur_block.entry_offsets@,
                self.cur_block.data@.len() as int,
                self.cur_block.entries@,
            );
        }
        let mut block = BackendBlock::new(self.opt.get_block_size());
        core::mem::swap(&mut block, &mut self.cur_block);
        let ghost es = block.entries@;
        let ghost pre_data = block.data@;
        let ghost pre_offsets = block.entry_offsets@;
        block.finish_block();
        let blen = block.data.len();
        let add32: u32 = if blen > u32::MAX as usize {
            u32::MAX
        } else {
            blen as u32
        };
        self.uncompressed_size = if self.uncompressed_size > u32::MAX - add32 {
            u32::MAX
        } else {
            self.uncompressed_size + add32
        };
        let ghost bes0 = self.finished_entries@;
        self.finished.push(block.data);
        proof {
            self.finished_entries@ = bes0.push(es);
            assert(crate::table::block::encodes_block(
                block_full_bytes(pre_data, pre_offsets),
                pre_data,
                pre_offsets,
                es,
            ));
            assert(crate::table::read::is_block_encoding(
                block_full_bytes(pre_data, pre_offsets),
                es,
            ));
            assert(crate::table::read::flat_entries(self.finished_entries@)
                == crate::table::read::flat_entries(bes0) + es) by {
                assert(self.finished_entries@.drop_last() =~= bes0);
            }
            assert(final(self).entries_view() =~= old(self).entries_view());
        }
    }

    /// Appends one pair. Closes the current block first when it is
    /// full. Keys must arrive in strictly ascending order.
    pub fn push_internal(
        &mut self,
        key_ts: &[u8],
        value: &ValueMeta,
        vptr_len: Option<u32>,
        is_stale: bool,
    ) -> (r: Result<(), crate::errors::DBError>)
        requires
            old(self).wf(),
            crate::kv::is_key_ts(key_ts@),
            key_ts@.len() <= u16::MAX,
            old(self).entries_view().len() > 0 ==> crate::kv::key_lt(
                old(self).entries_view().last().key,
                key_ts@,
            ),
        ensures
            final(self).wf(),
            final(self).opt == old(self).opt,
            r is Err <==> value@.value.len() > u32::MAX / 8,
            match r {
                Ok(()) => {
                    &&& final(self).entries_view() == old(self).entries_view().push(
                        EntryView { key: key_ts@, val: value@ },
                    )
                    &&& final(self).max_version == (if crate::kv::ts_of(key_ts@) > old(
                        self,
                    ).max_version {
                        crate::kv::ts_of(key_ts@)
                    } else {
                        old(self).max_version
                    })
                    &&& final(self).key_hashes@ == old(self).key_hashes@.push(
                        crate::kv::key_hash_of(crate::kv::user_key_of(key_ts@)),
                    )
                    &&& final(self).on_disk_size == (if old(self).on_disk_size + (match vptr_len {
                        Some(v) => v as int,
                        None => 0int,
                    }) <= u32::MAX {
                        (old(self).on_disk_size + (match vptr_len {
                            Some(v) => v as u32,
                            None => 0u32,
                        })) as u32
                    } else {
                        old(self).on_disk_size
                    })
                    &&& (!is_stale ==> final(self).stale_data_size == old(self).stale_data_size)
                },
                Err(e) => e == crate::errors::DBError::RequestTooLarge && final(self).entries_view() == old(self).entries_view(),
            },
    {
        let ghost pre = self.entries_view();
        if value.value.len() > (u32::MAX / 8) as usize {
            return Err(crate::errors::DBError::RequestTooLarge);
        }
        let venc_size_u64: u64 = 2u64 + crate::codec::varint_size(value.expires_at) as u64
            + value.value.len() as u64;
        let venc_size = venc_size_u64 as usize;
        proof {
            assert(value_meta_bytes(value@).len() == venc_size);
        }
        if self.cur_block.should_finish_block(
            key_ts.len(),
            venc_size,
            self.opt.get_block_size(),
        ) {
            if is_stale {
                if key_ts.len() as u64 + 4 + self.stale_data_size as u64 <= u32::MAX as u64 {
                    self.stale_data_size = self.stale_data_size + key_ts.len() as u32 + 4;
                }
            }
            self.finish_cur_block();
        }
        proof {
            // the next entry always fits a block's 32-bit address space:
            // either the block was just closed, or it was small enough
            // to take another entry
            if self.cur_block.entries_view().len() > 0 {
                assert(self.cur_block.data@.len() + 6 + key_ts@.len() + venc_size
                    + (self.cur_block.entry_offsets@.len() + 1) * 4 + 4 + 8 + 4
                    <= self.opt.block_size());
            }
        }
        let ghost mid = self.entries_view();
        match vptr_len {
            Some(v) => {
                if v <= u32::MAX - self.on_disk_size {
                    self.on_disk_size = self.on_disk_size + v;
                }
            },
            None => {},
        }
        let ghost cur0 = self.cur_block.entries_view();
        let hash = crate::kv::key_hash(crate::kv::parse_key(key_ts));
        self.key_hashes.push(hash);
        let ts = crate::kv::parse_ts(key_ts);
        if ts > self.max_version {
            self.max_version = ts;
        }
        self.cur_block.push_entry(key_ts, value);
        if self.first_key.len() == 0 {
            self.first_key = vstd::slice::slice_to_vec(key_ts);
        }
        self.last_key.truncate(0);
        crate::codec::extend_bytes(&mut self.last_key, key_ts);
        proof {
            let e = EntryView { key: key_ts@, val: value@ };
            assert(self.cur_block.entries_view() == cur0.push(e));
            assert(self.entries_view() =~= mid.push(e));
            assert(mid =~= pre);
            assert(self.entries_view() =~= pre.push(e));
            let es = self.entries_view();
            assert forall|i: int, j: int|
                0 <= i < j < es.len() implies crate::kv::key_lt(
                (|e2: EntryView| e2.key)(#[trigger] es[i]),
                (|e2: EntryView| e2.key)(#[trigger] es[j]),
            ) by {
                if j < es.len() - 1 {
                    assert(es[i] == pre[i] && es[j] == pre[j]);
                    assert(crate::kv::entries_sorted(pre, |e2: EntryView| e2.key));
                    assert(crate::kv::key_lt(
                        (|e2: EntryView| e2.key)(pre[i]),
                        (|e2: EntryView| e2.key)(pre[j]),
                    ));
                } else if j == es.len() - 1 && es.len() >= 2 {
                    assert(es[j] == e);
                    assert(es[i] == pre[i]);
                    if i < pre.len() - 1 {
                        assert(crate::kv::key_lt(
                            (|e2: EntryView| e2.key)(pre[i]),
                            (|e2: EntryView| e2.key)(pre[pre.len() - 1]),
                        ));
                        crate::kv::lemma_key_le_total(pre[i].key, pre.last().key);
                        crate::kv::lemma_key_le_total(pre.last().key, e.key);
                        crate::kv::lemma_key_le_trans(pre[i].key, pre.last().key, e.key);
                        crate::kv::lemma_key_le_total(pre[i].key, e.key);
                        if pre[i].key == e.key {
                            crate::kv::lemma_key_le_trans(pre.last().key, e.key, pre[i].key);
                            crate::kv::lemma_key_le_total(pre.last().key, pre[i].key);
                        }
                    } else {
                        assert(pre[i] == pre.last());
                    }
                }
            }
            if pre.len() > 0 {
                assert(es[0] == pre[0]);
            }
            assert(es.last() == e);
            assert forall|i: int| 0 <= i < es.len() implies crate::kv::is_key_ts(
                (#[trigger] es[i]).key,
            ) by {
                if i < es.len() - 1 {
                    assert(es[i] == pre[i]);
                } else {
                    assert(es[i] == e);
                }
            }
            assert forall|i: int| 0 <= i < es.len() implies crate::kv::ts_of(
                (#[trigger] es[i]).key,
            ) <= self.max_version by {
                if i < es.len() - 1 {
                    assert(es[i] == pre[i]);
                    assert(crate::kv::ts_of(pre[i].key) <= old(self).max_version);
                } else {
                    assert(es[i] == e);
                }
            }
        }
        Ok(())
    }

    /// Appends one live pair.
    pub fn push(&mut self, key_ts: &[u8], value: &ValueMeta, vptr_len: Option<u32>) -> (r: Result<
        (),
        crate::errors::DBError,
    >)
        requires
            old(self).wf(),
            crate::kv::is_key_ts(key_ts@),
            key_ts@.len() <= u16::MAX,
            old(self).entries_view().len() > 0 ==> crate::kv::key_lt(
                old(self).entries_view().last().key,
                key_ts@,
            ),
        ensures
            final(self).wf(),
            final(self).opt == old(self).opt,
            r is Err <==> value@.value.len() > u32::MAX / 8,
            match r {
                Ok(()) => final(self).entries_view() == old(self).entries_view().push(
                    EntryView { key: key_ts@, val: value@ },
                ) && final(self).max_version == (if crate::kv::ts_of(key_ts@) > old(
                    self,
                ).max_version {
                    crate::kv::ts_of(key_ts@)
                } else {
                    old(self).max_version
                }),
                Err(e) => e == crate::errors::DBError::RequestTooLarge && final(self).entries_view() == old(self).entries_view(),
            },
    {
        self.push_internal(key_ts, value, vptr_len, false)
    }

    /// Seals the builder into a table. `None` when nothing was pushed.
    /// The bloom filter over every key this builder has taken, built
    /// from the hashes collected as entries came in. A reader asks it
    /// before touching the table; a key that went in always answers
    /// positive.
    pub fn build_key_filter(&self, bits_per_key: usize) -> (r:
        crate::table::bloom::BloomFilter)
        requires
            1 <= bits_per_key <= 64,
            self.key_hashes@.len() * bits_per_key + 64 <= usize::MAX,
        ensures
            r.wf(),
            forall|q: int|
                0 <= q < self.key_hashes@.len() ==> crate::table::bloom::bloom_may_contain(
                    r.bits@,
                    r.num_probes as int,
                    #[trigger] self.key_hashes@[q],
                ),
    {
        crate::table::bloom::build_bloom(&self.key_hashes, bits_per_key)
    }

    pub fn done(self, id: u64, created_at: u64) -> (r: Option<crate::table::read::TableInner>)
        requires
            self.wf(),
        ensures
            match r {
                Some(t) => {
                    &&& t.wf()
                    &&& t.entries_view() == self.entries_view()
                    &&& t.id == id
                },
                None => self.entries_view().len() == 0,
            },
    {
        let ghost pre = self.entries_view();
        let mut this = self;
        if this.is_empty() {
            return None;
        }
        this.finish_cur_block();
        proof {
            crate::table::read::lemma_flat_len(this.finished_entries@);
            assert(this.entries_view() =~= crate::table::read::flat_entries(
                this.finished_entries@,
            ));
            if this.finished_entries@.len() > 0 {
                crate::table::read::lemma_flat_index(this.finished_entries@, 0, 0);
            }
        }
        let mut table_size: usize = 0;
        let mut b: usize = 0;
        let nb = this.finished.len();
        while b < nb
            invariant
                b <= nb == this.finished@.len(),
            decreases nb - b,
        {
            let blen = this.finished[b].len();
            if blen <= usize::MAX - table_size {
                table_size = table_size + blen;
            }
            b = b + 1;
        }
        let ghost bes_final = this.finished_entries@;
        let t = crate::table::read::TableInner {
            id,
            block_data: this.finished,
            smallest: this.first_key,
            biggest: this.last_key,
            max_version: this.max_version,
            stale_data_size: this.stale_data_size,
            created_at,
            table_size,
            verify_blocks: false,
            blocks_entries: Ghost(bes_final),
        };
        proof {
            assert(t.entries_view() =~= pre);
            assert(t.wf());
        }
        Some(t)
    }
}

/// Builds a level-zero table from a flushed memtable's sorted entries,
/// skipping every key under a prefix slated for dropping.
pub fn build_l0_table(
    entries: &Vec<(Vec<u8>, ValueMeta)>,
    drop_prefixed: &Vec<Vec<u8>>,
    opt: crate::table::opt::TableOption,
) -> (r: Result<TableBuilder, crate::errors::DBError>)
    requires
        opt.block_size() <= u32::MAX,
        crate::kv::entries_sorted(
            crate::level::levels::view_pairs(entries@),
            |e: EntryView| e.key,
        ),
        forall|i: int|
            0 <= i < entries@.len() ==> crate::kv::is_key_ts((#[trigger] entries@[i]).0@)
                && entries@[i].0@.len() <= u16::MAX,
    ensures
        r is Err <==> exists|i: int|
            0 <= i < entries@.len() && !has_dropped_prefix(
                (#[trigger] crate::level::levels::view_pairs(entries@)[i]).key,
                drop_prefixed@.map_values(|p: Vec<u8>| p@),
            ) && entries@[i].1@.value.len() > u32::MAX / 8,
        match r {
            Ok(b) => {
                &&& b.wf()
                &&& b.entries_view() == keep_entries(
                    crate::level::levels::view_pairs(entries@),
                    drop_prefixed@.map_values(|p: Vec<u8>| p@),
                )
            },
            Err(e) => e == crate::errors::DBError::RequestTooLarge,
        },
{
    let ghost vs = crate::level::levels::view_pairs(entries@);
    let ghost pviews = drop_prefixed@.map_values(|p: Vec<u8>| p@);
    let mut builder = TableBuilder::new(opt);
    let n = entries.len();
    let mut i: usize = 0;
    proof {
        assert(vs.take(0) =~= Seq::<EntryView>::empty());
    }
    while i < n
        invariant
            i <= n == entries@.len(),
            vs == crate::level::levels::view_pairs(entries@),
            pviews == drop_prefixed@.map_values(|p: Vec<u8>| p@),
            crate::kv::entries_sorted(vs, |e: EntryView| e.key),
            forall|k: int|
                0 <= k < entries@.len() ==> crate::kv::is_key_ts((#[trigger] entries@[k]).0@)
                    && entries@[k].0@.len() <= u16::MAX,
            builder.wf(),
            builder.opt == opt,
            builder.entries_view() == keep_entries(vs.take(i as int), pviews),
            forall|j: int|
                0 <= j < i ==> has_dropped_prefix((#[trigger] vs[j]).key, pviews) || entries@[
                    j
                ].1@.value.len() <= u32::MAX / 8,
        decreases n - i,
    {
        proof {
            assert(vs[i as int].key == entries@[i as int].0@);
            assert(crate::kv::is_key_ts(vs[i as int].key));
        }
        // does any drop prefix cover this key's user part?
        let user = crate::kv::parse_key(entries[i].0.as_slice());
        let np = drop_prefixed.len();
        let mut p: usize = 0;
        let mut dropped = false;
        while p < np && !dropped
            invariant
                p <= np == drop_prefixed@.len(),
                pviews == drop_prefixed@.map_values(|p2: Vec<u8>| p2@),
                user@ == crate::kv::user_key_of(entries@[i as int].0@),
                i < entries@.len(),
                dropped ==> exists|q: int|
                    0 <= q < pviews.len() && crate::codec::has_prefix(user@, #[trigger] pviews[q]),
                !dropped ==> forall|q: int|
                    0 <= q < p ==> !crate::codec::has_prefix(user@, #[trigger] pviews[q]),
            decreases np - p + (if dropped {
                0int
            } else {
                1int
            }),
        {
            if crate::codec::starts_with(user, drop_prefixed[p].as_slice()) {
                proof {
                    assert(pviews[p as int] == drop_prefixed@[p as int]@);
                }
                dropped = true;
            } else {
                p = p + 1;
            }
        }
        proof {
            assert(dropped == has_dropped_prefix(vs[i as int].key, pviews));
            assert(vs.take(i + 1).drop_last() =~= vs.take(i as int));
            assert(vs.take(i + 1).last() == vs[i as int]);
        }
        if !dropped {
            proof {
                if builder.entries_view().len() > 0 {
                    lemma_keep_last(vs.take(i as int), pviews);
                    let j = choose|j: int|
                        0 <= j < vs.take(i as int).len() && keep_entries(
                            vs.take(i as int),
                            pviews,
                        ).last() == #[trigger] vs.take(i as int)[j];
                    assert(vs.take(i as int)[j] == vs[j]);
                    assert(crate::kv::key_lt(
                        (|e: EntryView| e.key)(vs[j]),
                        (|e: EntryView| e.key)(vs[i as int]),
                    ));
                }
            }
            match builder.push(entries[i].0.as_slice(), &entries[i].1, None) {
                Ok(()) => {},
                Err(e) => {
                    proof {
                        assert(!has_dropped_prefix(vs[i as int].key, pviews) && entries@[
                            i as int
                        ].1@.value.len() > u32::MAX / 8);
                    }
                    return Err(e);
                },
            }
        }
        i = i + 1;
    }
    proof {
        assert(vs.take(n as int) =~= vs);
        if exists|j: int|
            0 <= j < entries@.len() && !has_dropped_prefix((#[trigger] vs[j]).key, pviews)
                && entries@[j].1@.value.len() > u32::MAX / 8 {
            let j = choose|j: int|
                0 <= j < entries@.len() && !has_dropped_prefix((#[trigger] vs[j]).key, pviews)
                    && entries@[j].1@.value.len() > u32::MAX / 8;
            assert(false);
        }
    }
    Ok(builder)
}


} // verus!
