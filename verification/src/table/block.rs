//! The read side of the sorted-block format: loading a closed block's
//! bytes back into a `Block`, validating the trailer, the checksum and
//! every entry region on the way in, so that iteration never has to
//! look at a malformed byte again.

use vstd::prelude::*;

use crate::checksum::{checksum_record_bytes, crc32, crc32_of, CHECKSUM_RECORD_SIZE};
use crate::codec::{be16_val, be32_of, be32_val, get_u32_be, get_varint, varint_at, varint_of};
use crate::errors::DBError;
use crate::kv::{value_meta_bytes, ValueMetaView};
use crate::table::write::{
    block_full_bytes, block_wf, lemma_block_parse_deterministic, lemma_block_wf_extend,
    lemma_u32s_bytes_index, lemma_u32s_bytes_len, region_end, region_ok, region_ok_at,
    u32s_bytes, EntryView, HEADER_SIZE,
};

verus! {

/// The overlap field of the entry header starting at `start`.
pub open spec fn hdr_overlap(data: Seq<u8>, start: int) -> nat {
    be16_val(data.subrange(start, start + 2)) as nat
}

/// The diff field of the entry header starting at `start`.
pub open spec fn hdr_diff(data: Seq<u8>, start: int) -> nat {
    be16_val(data.subrange(start + 2, start + 4)) as nat
}

/// What a well-formed region pins down, in terms of the raw header
/// fields: the key splices the base prefix with the differing bytes,
/// and the rest of the region is the serialized value.
pub proof fn lemma_region_parse(
    data: Seq<u8>,
    base: Seq<u8>,
    start: int,
    end: int,
    e: EntryView,
    first: bool,
)
    requires
        region_ok(data, base, start, end, e, first),
    ensures
        0 <= start && start + HEADER_SIZE <= end <= data.len(),
        hdr_overlap(data, start) <= base.len(),
        first ==> hdr_overlap(data, start) == 0,
        e.key.len() == hdr_overlap(data, start) + hdr_diff(data, start),
        start + HEADER_SIZE + hdr_diff(data, start) <= end,
        e.key == base.take(hdr_overlap(data, start) as int) + data.subrange(
            start + HEADER_SIZE,
            start + HEADER_SIZE + hdr_diff(data, start) as int,
        ),
        data.subrange(start + HEADER_SIZE + hdr_diff(data, start) as int, end)
            == value_meta_bytes(e.val),
{
    let o = choose|o: nat| #[trigger] region_ok_at(data, base, start, end, e, first, o);
    crate::codec::lemma_be16_round_trip(o as u16);
    crate::codec::lemma_be16_round_trip((e.key.len() - o) as u16);
    assert(hdr_overlap(data, start) == o);
    assert(hdr_diff(data, start) == e.key.len() - o);
    assert(e.key =~= e.key.take(o as int) + e.key.skip(o as int));
}

/// What the serialized value region pins down.
pub proof fn lemma_value_region(data: Seq<u8>, vs: int, end: int, v: ValueMetaView)
    requires
        0 <= vs <= end <= data.len(),
        data.subrange(vs, end) == value_meta_bytes(v),
    ensures
        vs + 2 <= end,
        data[vs] == v.meta,
        data[vs + 1] == v.user_meta,
        vs + 2 + varint_of(v.expires_at).len() <= end,
        data.subrange(vs + 2, vs + 2 + varint_of(v.expires_at).len() as int) == varint_of(
            v.expires_at,
        ),
        v.value == data.subrange(vs + 2 + varint_of(v.expires_at).len() as int, end),
{
    let vb = value_meta_bytes(v);
    let vl = varint_of(v.expires_at).len() as int;
    crate::codec::lemma_varint_len(v.expires_at);
    assert(end - vs == vb.len());
    assert(vb.len() == 2 + vl + v.value.len());
    assert forall|q: int| 0 <= q < vb.len() implies data[vs + q] == vb[q] by {
        assert(data.subrange(vs, end)[q] == vb[q]);
    }
    assert(data[vs] == vb[0]);
    assert(data[vs + 1] == vb[1]);
    assert(data.subrange(vs + 2, vs + 2 + vl) =~= varint_of(v.expires_at)) by {
        assert(forall|q: int| 0 <= q < vl ==> vb[2 + q] == #[trigger] varint_of(v.expires_at)[q]);
    }
    assert(v.value =~= data.subrange(vs + 2 + vl, end)) by {
        assert(forall|q: int| 0 <= q < v.value.len() ==> vb[2 + vl + q] == #[trigger] v.value[q]);
    }
}

/// Everything the trailer of a closed block's bytes determines.
pub proof fn lemma_full_bytes_facts(d: Seq<u8>, o: Seq<u32>, bytes: Seq<u8>)
    requires
        bytes == block_full_bytes(d, o),
        o.len() <= u32::MAX,
    ensures
        bytes.len() == d.len() + 4 * o.len() + 17,
        be32_val(bytes.subrange(bytes.len() - 4, bytes.len() as int)) == CHECKSUM_RECORD_SIZE
            as u32,
        bytes.subrange(bytes.len() - 13, bytes.len() - 4) == checksum_record_bytes(
            crc32_of(bytes.subrange(0, bytes.len() - 13)) as u64,
        ),
        be32_val(bytes.subrange(bytes.len() - 17, bytes.len() - 13)) == o.len() as u32,
        d == bytes.subrange(0, d.len() as int),
        forall|i: int|
            0 <= i < o.len() ==> be32_val(
                bytes.subrange(d.len() + 4 * i, d.len() + 4 * i + 4),
            ) == o[i],
{
    let body = d + u32s_bytes(o) + be32_of(o.len() as u32);
    lemma_u32s_bytes_len(o);
    crate::codec::lemma_be32_round_trip(o.len() as u32);
    crate::codec::lemma_be32_round_trip(CHECKSUM_RECORD_SIZE as u32);
    assert(bytes.len() == d.len() + 4 * o.len() + 17);
    assert(bytes.subrange(bytes.len() - 4, bytes.len() as int) =~= be32_of(
        CHECKSUM_RECORD_SIZE as u32,
    ));
    assert(bytes.subrange(0, bytes.len() - 13) =~= body);
    assert(bytes.subrange(bytes.len() - 13, bytes.len() - 4) =~= checksum_record_bytes(
        crc32_of(body) as u64,
    ));
    assert(bytes.subrange(bytes.len() - 17, bytes.len() - 13) =~= be32_of(o.len() as u32));
    assert(d =~= bytes.subrange(0, d.len() as int));
    assert forall|i: int| 0 <= i < o.len() implies be32_val(
        bytes.subrange(d.len() + 4 * i, d.len() + 4 * i + 4),
    ) == o[i] by {
        lemma_u32s_bytes_index(o, i);
        assert(bytes.subrange(d.len() + 4 * i, d.len() + 4 * i + 4) =~= u32s_bytes(o).subrange(
            4 * i,
            4 * i + 4,
        ));
        crate::codec::lemma_be32_round_trip(o[i]);
    }
}

/// The premise under which a byte string is the image of a closed
/// block holding `es`.
pub open spec fn encodes_block(bytes: Seq<u8>, d: Seq<u8>, o: Seq<u32>, es: Seq<EntryView>) -> bool {
    &&& bytes == block_full_bytes(d, o)
    &&& block_wf(d, o, d.len() as int, es)
    &&& o.len() <= u32::MAX
}

/// Everything one well-formed region forces on the raw bytes, phrased
/// through the header fields the reader parses.
pub proof fn lemma_entry_facts(
    bytes: Seq<u8>,
    offsets: Seq<u32>,
    index_start: int,
    k: int,
    d: Seq<u8>,
    o: Seq<u32>,
    es: Seq<EntryView>,
)
    requires
        encodes_block(bytes, d, o, es),
        o == offsets,
        d.len() == index_start,
        0 <= k < offsets.len(),
    ensures
        es.len() == offsets.len(),
        offsets[k] + HEADER_SIZE <= region_end(offsets, index_start, k) <= index_start
            <= bytes.len(),
        k == 0 ==> hdr_overlap(bytes, offsets[k] as int) == 0,
        hdr_overlap(bytes, offsets[k] as int) <= hdr_diff(bytes, offsets[0] as int),
        es[0].key.len() == hdr_diff(bytes, offsets[0] as int),
        es[k].key.len() == hdr_overlap(bytes, offsets[k] as int) + hdr_diff(
            bytes,
            offsets[k] as int,
        ),
        offsets[k] + HEADER_SIZE + hdr_diff(bytes, offsets[k] as int) <= region_end(
            offsets,
            index_start,
            k,
        ),
        es[k].key == es[0].key.take(hdr_overlap(bytes, offsets[k] as int) as int)
            + bytes.subrange(
            offsets[k] + HEADER_SIZE,
            offsets[k] + HEADER_SIZE + hdr_diff(bytes, offsets[k] as int) as int,
        ),
        bytes.subrange(
            offsets[k] + HEADER_SIZE + hdr_diff(bytes, offsets[k] as int) as int,
            region_end(offsets, index_start, k),
        ) == value_meta_bytes(es[k].val),
        offsets[k] + HEADER_SIZE + hdr_diff(bytes, offsets[k] as int) + 2 <= region_end(
            offsets,
            index_start,
            k,
        ),
        varint_at(
            bytes.subrange(
                offsets[k] + HEADER_SIZE + hdr_diff(bytes, offsets[k] as int) as int,
                region_end(offsets, index_start, k),
            ),
            2,
        ),
{
    let start = offsets[k] as int;
    let end = region_end(offsets, index_start, k);
    lemma_full_bytes_facts(d, o, bytes);
    // region bounds come from the un-extended area
    lemma_region_parse(d, es[0].key, start, region_end(o, d.len() as int, k), es[k], k == 0);
    assert(end <= index_start);
    // the same region, read out of the full bytes
    lemma_block_wf_extend(d, bytes, o, d.len() as int, es);
    lemma_region_parse(bytes, es[0].key, start, end, es[k], k == 0);
    lemma_region_parse(bytes, es[0].key, offsets[0] as int, region_end(offsets, index_start, 0), es[0], true);
    assert(es[0].key.len() == hdr_diff(bytes, offsets[0] as int));
    let df = hdr_diff(bytes, start);
    let vs = start + HEADER_SIZE + df;
    lemma_value_region(bytes, vs, end, es[k].val);
    crate::codec::lemma_varint_len(es[k].val.expires_at);
    let vl = varint_of(es[k].val.expires_at).len() as int;
    let vregion = bytes.subrange(vs, end);
    assert(vregion.subrange(2, 2 + vl) =~= bytes.subrange(vs + 2, vs + 2 + vl));
    assert(varint_at(vregion, 2));
}

/// Reads the entry header that starts at `off`.
pub fn read_entry_header(data: &[u8], off: usize) -> (h: crate::table::write::EntryHeader)
    requires
        off + HEADER_SIZE <= data@.len(),
    ensures
        h.overlap == hdr_overlap(data@, off as int),
        h.diff == hdr_diff(data@, off as int),
{
    let n = data.len();
    let hslice = vstd::slice::slice_subrange(data, off, off + 4);
    let h = crate::table::write::EntryHeader::deserialize(hslice);
    proof {
        assert(crate::table::write::entry_header_bytes(h) == hslice@.subrange(0, 4));
        assert(hslice@.subrange(0, 4) =~= hslice@);
        assert(data@.subrange(off as int, off + 2) =~= hslice@.subrange(0, 2));
        assert(data@.subrange(off + 2, off + 4) =~= hslice@.subrange(2, 4));
        assert(hslice@.subrange(0, 2) =~= crate::codec::be16_of(h.overlap));
        assert(hslice@.subrange(2, 4) =~= crate::codec::be16_of(h.diff));
        crate::codec::lemma_be16_round_trip(h.overlap);
        crate::codec::lemma_be16_round_trip(h.diff);
    }
    h
}

/// In a well-formed block the first entry's region spells the base
/// key out in full.
pub proof fn lemma_entry_zero_is_base(
    data: Seq<u8>,
    offsets: Seq<u32>,
    index_start: int,
    entries: Seq<EntryView>,
)
    requires
        block_wf(data, offsets, index_start, entries),
    ensures
        offsets[0] == 0,
        hdr_overlap(data, 0) == 0,
        HEADER_SIZE + hdr_diff(data, 0) <= data.len(),
        entries[0].key == data.subrange(
            HEADER_SIZE as int,
            HEADER_SIZE + hdr_diff(data, 0) as int,
        ),
        entries[0].key.len() == hdr_diff(data, 0),
{
    lemma_region_parse(
        data,
        entries[0].key,
        0,
        region_end(offsets, index_start, 0),
        entries[0],
        true,
    );
    assert(entries[0].key =~= entries[0].key.take(0) + data.subrange(
        HEADER_SIZE as int,
        HEADER_SIZE + hdr_diff(data, 0) as int,
    ));
    assert(entries[0].key =~= data.subrange(
        HEADER_SIZE as int,
        HEADER_SIZE + hdr_diff(data, 0) as int,
    ));
}

/// A sorted block loaded back into memory: the raw bytes, the parsed
/// entry offsets, where the offset table begins, and the checksum the
/// trailer carried. `entries` is the mathematical content.
pub struct Block {
    pub data: Vec<u8>,
    pub entry_offsets: Vec<u32>,
    pub entries_index_start: usize,
    pub checksum: u64,
    pub entries: Ghost<Seq<EntryView>>,
}

impl Block {
    /// The pairs this block holds, in order.
    pub open spec fn entries_view(&self) -> Seq<EntryView> {
        self.entries@
    }

    pub open spec fn wf(&self) -> bool {
        block_wf(
            self.data@,
            self.entry_offsets@,
            self.entries_index_start as int,
            self.entries@,
        )
    }

    pub fn num_entries(&self) -> (r: usize)
        requires
            self.wf(),
        ensures
            r == self.entries_view().len(),
    {
        self.entry_offsets.len()
    }

    /// Loads a closed block. Validates the trailer, the checksum when
    /// asked, and every entry region; a block that decodes is safe to
    /// iterate without further checks. Decoding is exact: the bytes a
    /// builder wrote always come back as the entries that were pushed.
    pub fn decode(bytes: &[u8], verify_checksum: bool) -> (r: Result<Block, DBError>)
        ensures
            match r {
                Ok(b) => {
                    &&& b.wf()
                    &&& b.data@ == bytes@
                    &&& forall|d: Seq<u8>, o: Seq<u32>, es: Seq<EntryView>|
                        #[trigger] encodes_block(bytes@, d, o, es) ==> es =~= b.entries@
                },
                Err(e) => {
                    &&& e == DBError::Corruption
                    &&& forall|d: Seq<u8>, o: Seq<u32>, es: Seq<EntryView>|
                        !#[trigger] encodes_block(bytes@, d, o, es)
                },
            },
    {
        let (sum, count, index_start) = match Self::parse_trailer(bytes, verify_checksum) {
            Ok(t) => t,
            Err(e) => {
                return Err(e);
            },
        };
        let n = bytes.len();
        // parse the offset table
        let mut offsets: Vec<u32> = Vec::new();
        let mut i: usize = 0;
        while i < count
            invariant
                i <= count,
                n == bytes@.len(),
                n >= 17,
                count <= (n - 17) / 4,
                index_start == n - 17 - 4 * count,
                offsets@.len() == i,
                forall|j: int|
                    0 <= j < i ==> #[trigger] offsets@[j] == be32_val(
                        bytes@.subrange(index_start + 4 * j, index_start + 4 * j + 4),
                    ),
            decreases count - i,
        {
            let off = get_u32_be(bytes, index_start + 4 * i);
            offsets.push(off);
            i = i + 1;
        }
        proof {
            assert forall|d: Seq<u8>, o: Seq<u32>, es: Seq<EntryView>| #[trigger] encodes_block(
                bytes@,
                d,
                o,
                es,
            ) implies o == offsets@ && d.len() == index_start by {
                lemma_full_bytes_facts(d, o, bytes@);
                crate::codec::lemma_be32_round_trip(o.len() as u32);
                assert(o.len() == count);
                assert(d.len() == index_start);
                assert(o =~= offsets@);
            }
        }
        if offsets[0] != 0 {
            proof {
                assert forall|d: Seq<u8>, o: Seq<u32>, es: Seq<EntryView>| !#[trigger]
                    encodes_block(bytes@, d, o, es) by {
                    if encodes_block(bytes@, d, o, es) {
                        assert(o == offsets@);
                        assert(o[0] == 0);
                    }
                }
            }
            return Err(DBError::Corruption);
        }
        let (ok, entries) = Self::validate_entries(bytes, &offsets, index_start);
        if !ok {
            return Err(DBError::Corruption);
        }
        let block = Block {
            data: vstd::slice::slice_to_vec(bytes),
            entry_offsets: offsets,
            entries_index_start: index_start,
            checksum: sum,
            entries,
        };
        proof {
            assert(block.wf());
            assert forall|d: Seq<u8>, o: Seq<u32>, es: Seq<EntryView>| #[trigger] encodes_block(
                bytes@,
                d,
                o,
                es,
            ) implies es =~= block.entries@ by {
                lemma_full_bytes_facts(d, o, bytes@);
                lemma_block_wf_extend(d, bytes@, o, d.len() as int, es);
                lemma_block_parse_deterministic(
                    bytes@,
                    block.entry_offsets@,
                    index_start as int,
                    es,
                    block.entries@,
                );
            }
        }
        Ok(block)
    }

    /// Reads the checksum-record length, the checksum record, and the
    /// entry count off the end of a closed block's bytes.
    fn parse_trailer(bytes: &[u8], verify_checksum: bool) -> (r: Result<
        (u64, usize, usize),
        DBError,
    >)
        ensures
            match r {
                Ok((sum, count, index_start)) => {
                    &&& bytes@.len() >= 17
                    &&& 1 <= count <= (bytes@.len() - 17) / 4
                    &&& index_start == bytes@.len() - 17 - 4 * count
                    &&& forall|d: Seq<u8>, o: Seq<u32>, es: Seq<EntryView>|
                        #[trigger] encodes_block(bytes@, d, o, es) ==> o.len() == count && d.len()
                            == index_start
                },
                Err(e) => {
                    &&& e == DBError::Corruption
                    &&& forall|d: Seq<u8>, o: Seq<u32>, es: Seq<EntryView>|
                        !#[trigger] encodes_block(bytes@, d, o, es)
                },
            },
    {
        let n = bytes.len();
        if n < 17 {
            proof {
                assert forall|d: Seq<u8>, o: Seq<u32>, es: Seq<EntryView>| !#[trigger]
                    encodes_block(bytes@, d, o, es) by {
                    if encodes_block(bytes@, d, o, es) {
                        lemma_full_bytes_facts(d, o, bytes@);
                    }
                }
            }
            return Err(DBError::Corruption);
        }
        let checksum_len = get_u32_be(bytes, n - 4);
        if checksum_len != CHECKSUM_RECORD_SIZE as u32 {
            proof {
                assert forall|d: Seq<u8>, o: Seq<u32>, es: Seq<EntryView>| !#[trigger]
                    encodes_block(bytes@, d, o, es) by {
                    if encodes_block(bytes@, d, o, es) {
                        lemma_full_bytes_facts(d, o, bytes@);
                    }
                }
            }
            return Err(DBError::Corruption);
        }
        let sum = match crate::checksum::decode_checksum_record(bytes, n - 13) {
            Some(s) => s,
            None => {
                proof {
                    assert forall|d: Seq<u8>, o: Seq<u32>, es: Seq<EntryView>| !#[trigger]
                        encodes_block(bytes@, d, o, es) by {
                        if encodes_block(bytes@, d, o, es) {
                            lemma_full_bytes_facts(d, o, bytes@);
                            assert(bytes@.subrange(n - 13, n - 4)[0] == bytes@[n - 13]);
                        }
                    }
                }
                return Err(DBError::Corruption);
            },
        };
        if verify_checksum {
            let body_slice = vstd::slice::slice_subrange(bytes, 0, n - 13);
            let computed = crate::checksum::crc32(body_slice);
            if computed as u64 != sum {
                proof {
                    assert forall|d: Seq<u8>, o: Seq<u32>, es: Seq<EntryView>| !#[trigger]
                        encodes_block(bytes@, d, o, es) by {
                        if encodes_block(bytes@, d, o, es) {
                            lemma_full_bytes_facts(d, o, bytes@);
                            let stored = crc32_of(bytes@.subrange(0, n - 13)) as u64;
                            crate::codec::lemma_be64_round_trip(stored);
                            crate::codec::lemma_be64_round_trip(sum);
                            assert(bytes@.subrange(n - 13, n - 4) == checksum_record_bytes(
                                stored,
                            ));
                            assert(bytes@.subrange(n - 13, n - 4).subrange(1, 9) =~= bytes@
                                .subrange(n - 12, n - 4));
                            assert(checksum_record_bytes(stored).subrange(1, 9)
                                =~= crate::codec::be64_of(stored));
                            assert(checksum_record_bytes(sum).subrange(1, 9)
                                =~= crate::codec::be64_of(sum));
                            assert(crate::codec::be64_of(sum) == bytes@.subrange(n - 12, n - 4));
                            assert(sum == stored);
                        }
                    }
                }
                return Err(DBError::Corruption);
            }
        }
        let count32 = get_u32_be(bytes, n - 17);
        let count = count32 as usize;
        if count == 0 || count > (n - 17) / 4 {
            proof {
                assert forall|d: Seq<u8>, o: Seq<u32>, es: Seq<EntryView>| !#[trigger]
                    encodes_block(bytes@, d, o, es) by {
                    if encodes_block(bytes@, d, o, es) {
                        lemma_full_bytes_facts(d, o, bytes@);
                        crate::codec::lemma_be32_round_trip(o.len() as u32);
                        assert(count == o.len());
                        assert(4 * o.len() <= n - 17);
                        assert(o.len() <= (n - 17) / 4);
                    }
                }
            }
            return Err(DBError::Corruption);
        }
        let index_start = n - 17 - 4 * count;
        proof {
            assert forall|d: Seq<u8>, o: Seq<u32>, es: Seq<EntryView>| #[trigger] encodes_block(
                bytes@,
                d,
                o,
                es,
            ) implies o.len() == count && d.len() == index_start by {
                lemma_full_bytes_facts(d, o, bytes@);
                crate::codec::lemma_be32_round_trip(o.len() as u32);
            }
        }
        Ok((sum, count, index_start))
    }

    /// Walks every entry region, checking bounds, headers and value
    /// records, and returns the block's logical content.
    fn validate_entries(bytes: &[u8], offsets: &Vec<u32>, index_start: usize) -> (r: (
        bool,
        Ghost<Seq<EntryView>>,
    ))
        requires
            bytes@.len() >= 17,
            offsets@.len() >= 1,
            offsets@[0] == 0,
            index_start <= bytes@.len(),
            forall|d: Seq<u8>, o: Seq<u32>, es: Seq<EntryView>|
                #[trigger] encodes_block(bytes@, d, o, es) ==> o == offsets@ && d.len()
                    == index_start,
        ensures
            r.0 ==> block_wf(bytes@, offsets@, index_start as int, r.1@),
            !r.0 ==> forall|d: Seq<u8>, o: Seq<u32>, es: Seq<EntryView>|
                !#[trigger] encodes_block(bytes@, d, o, es),
    {
        let count = offsets.len();
        let ghost mut entries: Seq<EntryView> = Seq::empty();
        let mut base_len: usize = 0;
        let mut k: usize = 0;
        while k < count
            invariant
                k <= count == offsets@.len(),
                offsets@[0] == 0,
                index_start <= bytes@.len(),
                entries.len() == k,
                k > 0 ==> entries[0].key.len() == base_len,
                k > 0 ==> base_len > 0,
                forall|j: int| 0 <= j < k ==> (#[trigger] entries[j]).key.len() > 0,
                forall|j: int|
                    0 <= j < k ==> region_ok(
                        bytes@,
                        entries[0].key,
                        offsets@[j] as int,
                        region_end(offsets@, index_start as int, j),
                        #[trigger] entries[j],
                        j == 0,
                    ),
                forall|d: Seq<u8>, o: Seq<u32>, es: Seq<EntryView>|
                    #[trigger] encodes_block(bytes@, d, o, es) ==> o == offsets@ && d.len()
                        == index_start,
            decreases count - k,
        {
            let off = offsets[k] as usize;
            let end = if k + 1 < count {
                offsets[k + 1] as usize
            } else {
                index_start
            };
            proof {
                assert(region_end(offsets@, index_start as int, k as int) == end);
            }
            // region bounds
            if end > index_start || end < off || end - off < 4 {
                proof {
                    assert forall|d: Seq<u8>, o: Seq<u32>, es: Seq<EntryView>| !#[trigger]
                        encodes_block(bytes@, d, o, es) by {
                        if encodes_block(bytes@, d, o, es) {
                            lemma_entry_facts(
                                bytes@,
                                offsets@,
                                index_start as int,
                                k as int,
                                d,
                                o,
                                es,
                            );
                        }
                    }
                }
                return (false, Ghost(Seq::empty()));
            }
            let hslice = vstd::slice::slice_subrange(bytes, off, off + 4);
            let header = crate::table::write::EntryHeader::deserialize(hslice);
            let o_len = header.get_overlap();
            let d_len = header.get_diff();
            proof {
                assert(hslice@ == bytes@.subrange(off as int, off + 4));
                assert(crate::table::write::entry_header_bytes(header) == hslice@.subrange(0, 4));
                assert(hslice@.subrange(0, 4) =~= hslice@);
                assert(bytes@.subrange(off as int, off + 2) =~= hslice@.subrange(0, 2));
                assert(bytes@.subrange(off + 2, off + 4) =~= hslice@.subrange(2, 4));
                assert(hslice@.subrange(0, 2) =~= crate::codec::be16_of(header.overlap));
                assert(hslice@.subrange(2, 4) =~= crate::codec::be16_of(header.diff));
                crate::codec::lemma_be16_round_trip(header.overlap);
                crate::codec::lemma_be16_round_trip(header.diff);
                assert(hdr_overlap(bytes@, off as int) == o_len);
                assert(hdr_diff(bytes@, off as int) == d_len);
            }
            let bad_overlap = if k == 0 {
                o_len != 0
            } else {
                o_len > base_len
            };
            let avail = end - off - 4;
            if bad_overlap || o_len + d_len == 0 || d_len > avail || avail - d_len < 2 {
                proof {
                    assert forall|d: Seq<u8>, o: Seq<u32>, es: Seq<EntryView>| !#[trigger]
                        encodes_block(bytes@, d, o, es) by {
                        if encodes_block(bytes@, d, o, es) {
                            lemma_entry_facts(
                                bytes@,
                                offsets@,
                                index_start as int,
                                k as int,
                                d,
                                o,
                                es,
                            );
                            if k > 0 {
                                lemma_entry_facts(
                                    bytes@,
                                    offsets@,
                                    index_start as int,
                                    0,
                                    d,
                                    o,
                                    es,
                                );
                                lemma_region_parse(
                                    bytes@,
                                    entries[0].key,
                                    offsets@[0] as int,
                                    region_end(offsets@, index_start as int, 0),
                                    entries[0],
                                    true,
                                );
                            }
                        }
                    }
                }
                return (false, Ghost(Seq::empty()));
            }
            // the value region
            let vs = off + 4 + d_len;
            let vslice = vstd::slice::slice_subrange(bytes, vs, end);
            let (expires_at, vn) = match get_varint(vslice, 2) {
                Some(x) => x,
                None => {
                    proof {
                        assert forall|d: Seq<u8>, o: Seq<u32>, es: Seq<EntryView>| !#[trigger]
                            encodes_block(bytes@, d, o, es) by {
                            if encodes_block(bytes@, d, o, es) {
                                lemma_entry_facts(
                                    bytes@,
                                    offsets@,
                                    index_start as int,
                                    k as int,
                                    d,
                                    o,
                                    es,
                                );
                            }
                        }
                    }
                    return (false, Ghost(Seq::empty()));
                },
            };
            if k == 0 {
                base_len = d_len;
            }
            // the region is well formed; record what it holds
            proof {
                let base: Seq<u8> = if k == 0 {
                    bytes@.subrange(off + 4, off + 4 + d_len as int)
                } else {
                    entries[0].key
                };
                let key: Seq<u8> = base.take(o_len as int) + bytes@.subrange(
                    off + 4,
                    off + 4 + d_len as int,
                );
                let val = ValueMetaView {
                    meta: bytes@[vs as int],
                    user_meta: bytes@[vs + 1],
                    expires_at,
                    value: bytes@.subrange(vs + 2 + vn, end as int),
                };
                let e = EntryView { key, val };
                if k == 0 {
                    assert(key =~= base);
                }
                assert(region_ok_at(
                    bytes@,
                    base,
                    off as int,
                    end as int,
                    e,
                    k == 0,
                    o_len as nat,
                )) by {
                    assert(key.take(o_len as int) =~= base.take(o_len as int));
                    assert(key.skip(o_len as int) =~= bytes@.subrange(
                        off + 4,
                        off + 4 + d_len as int,
                    ));
                    assert(bytes@.subrange(vs as int, end as int) =~= value_meta_bytes(val)) by {
                        assert(vslice@.subrange(2, 2 + vn as int) == varint_of(expires_at));
                        assert(forall|q: int|
                            0 <= q < vn ==> bytes@.subrange(vs as int, end as int)[2 + q]
                                == #[trigger] varint_of(expires_at)[q]);
                    }
                }
                assert(key.len() == o_len + d_len);
                let entries_prev = entries;
                entries = entries_prev.push(e);
                assert(entries[0].key.len() == base_len);
                assert forall|j: int| 0 <= j < entries.len() implies (#[trigger] entries[j]).key.len() > 0 by {
                    if j < entries.len() - 1 {
                        assert(entries[j] == entries_prev[j]);
                    } else {
                        assert(entries[j] == e);
                    }
                }
                assert forall|j: int|
                    0 <= j < entries.len() implies region_ok(
                    bytes@,
                    entries[0].key,
                    offsets@[j] as int,
                    region_end(offsets@, index_start as int, j),
                    #[trigger] entries[j],
                    j == 0,
                ) by {
                    if j < entries.len() - 1 {
                        assert(entries[j] == entries_prev[j]);
                        assert(entries[0] == entries_prev[0]);
                    } else {
                        assert(entries[j] == e);
                    }
                }
            }
            k = k + 1;
        }
        (true, Ghost(entries))
    }
}

} // verus!
