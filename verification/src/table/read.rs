//! Iteration over blocks and tables.
//!
//! The block iterator reconstructs each key by reusing the shared
//! prefix of the block's base key and splicing in the entry's differing
//! bytes. Forward and backward cursors are independent; a scan is over
//! when they meet.

use vstd::prelude::*;

use crate::errors::DBError;
use crate::kv::{ValueMeta, ValueMetaView};
use crate::table::block::{hdr_diff, hdr_overlap, read_entry_header, Block};
use crate::table::write::{lemma_block_wf_extend, region_end, region_ok, visible_version, EntryHeader, EntryView};

verus! {

/// A double-ended cursor over one block's entries.
pub struct SinkBlockIter {
    pub inner: Block,
    pub base_key: Vec<u8>,
    pub key: Vec<u8>,
    pub header: EntryHeader,
    pub entry_index: Option<usize>,
    pub back_key: Vec<u8>,
    pub back_header: EntryHeader,
    pub back_entry_index: Option<usize>,
}

impl SinkBlockIter {
    /// The entries of the underlying block.
    pub open spec fn es(&self) -> Seq<EntryView> {
        self.inner.entries@
    }

    /// The cursor state is consistent with the block: whatever side has
    /// been started points at a real entry, holds that entry's
    /// reconstructed key, and carries that entry's header.
    pub open spec fn wf(&self) -> bool {
        &&& self.inner.wf()
        &&& self.base_key@.len() == 0 || self.base_key@ == self.es()[0].key
        &&& match self.entry_index {
            Some(i) => {
                &&& i < self.es().len()
                &&& self.key@ == self.es()[i as int].key
                &&& self.base_key@ == self.es()[0].key
                &&& self.header.overlap == hdr_overlap(
                    self.inner.data@,
                    self.inner.entry_offsets@[i as int] as int,
                )
                &&& self.header.diff == hdr_diff(
                    self.inner.data@,
                    self.inner.entry_offsets@[i as int] as int,
                )
            },
            None => self.key@.len() == 0,
        }
        &&& match self.back_entry_index {
            Some(i) => {
                &&& i < self.es().len()
                &&& self.back_key@ == self.es()[i as int].key
                &&& self.base_key@ == self.es()[0].key
                &&& self.back_header.overlap == hdr_overlap(
                    self.inner.data@,
                    self.inner.entry_offsets@[i as int] as int,
                )
                &&& self.back_header.diff == hdr_diff(
                    self.inner.data@,
                    self.inner.entry_offsets@[i as int] as int,
                )
            },
            None => self.back_key@.len() == 0,
        }
    }

    /// Wraps a decoded block in a fresh cursor.
    pub fn from_block(block: Block) -> (r: SinkBlockIter)
        requires
            block.wf(),
        ensures
            r.wf(),
            r.inner == block,
            r.entry_index is None,
            r.back_entry_index is None,
    {
        SinkBlockIter {
            inner: block,
            base_key: Vec::new(),
            key: Vec::new(),
            header: EntryHeader::new(0, 0),
            entry_index: None,
            back_key: Vec::new(),
            back_header: EntryHeader::new(0, 0),
            back_entry_index: None,
        }
    }

    /// Reads the base key out of entry 0 if it is not yet cached.
    fn load_base_key(&mut self)
        requires
            old(self).wf(),
        ensures
            final(self).wf(),
            final(self).inner == old(self).inner,
            final(self).entry_index == old(self).entry_index,
            final(self).back_entry_index == old(self).back_entry_index,
            final(self).key == old(self).key,
            final(self).back_key == old(self).back_key,
            final(self).header == old(self).header,
            final(self).back_header == old(self).back_header,
            final(self).base_key@ == final(self).es()[0].key,
    {
        proof {
            crate::table::block::lemma_entry_zero_is_base(
                self.inner.data@,
                self.inner.entry_offsets@,
                self.inner.entries_index_start as int,
                self.inner.entries@,
            );
        }
        if self.base_key.len() == 0 {
            let h0 = read_entry_header(self.inner.data.as_slice(), 0);
            let d0 = h0.get_diff();
            self.base_key = vstd::slice::slice_to_vec(
                vstd::slice::slice_subrange(self.inner.data.as_slice(), 4, 4 + d0),
            );
        }
    }

    /// Advances the forward cursor; false when it has met the back
    /// cursor or passed the last entry.
    pub fn next(&mut self) -> (r: bool)
        requires
            old(self).wf(),
        ensures
            final(self).wf(),
            final(self).inner == old(self).inner,
            final(self).back_entry_index == old(self).back_entry_index,
            final(self).back_key@ == old(self).back_key@,
            match old(self).entry_index {
                None => r && final(self).entry_index is Some && final(self).entry_index->0 == 0,
                Some(i) => {
                    &&& (match old(self).back_entry_index {
                        Some(b) => r == (i + 1 < b as int),
                        None => r == (i + 1 < old(self).es().len()),
                    })
                    &&& (r ==> final(self).entry_index is Some && final(self).entry_index->0
                        as int == i + 1)
                    &&& (!r ==> final(self).entry_index == old(self).entry_index)
                },
            },
    {
        let n = self.inner.entry_offsets.len();
        match self.entry_index {
            Some(id) => {
                match self.back_entry_index {
                    Some(back_id) => {
                        if id + 1 >= back_id {
                            return false;
                        }
                        proof {
                            assert(id + 1 < self.es().len());
                        }
                    },
                    None => {
                        if id == n - 1 {
                            return false;
                        }
                    },
                }
                let next_id = id + 1;
                let next_off = self.inner.entry_offsets[next_id] as usize;
                proof {
                    crate::table::block::lemma_region_parse(
                        self.inner.data@,
                        self.es()[0].key,
                        next_off as int,
                        region_end(
                            self.inner.entry_offsets@,
                            self.inner.entries_index_start as int,
                            next_id as int,
                        ),
                        self.es()[next_id as int],
                        false,
                    );
                    crate::table::block::lemma_region_parse(
                        self.inner.data@,
                        self.es()[0].key,
                        self.inner.entry_offsets@[id as int] as int,
                        region_end(
                            self.inner.entry_offsets@,
                            self.inner.entries_index_start as int,
                            id as int,
                        ),
                        self.es()[id as int],
                        id == 0,
                    );
                }
                let next_header = read_entry_header(self.inner.data.as_slice(), next_off);
                let prev_overlap = self.header.get_overlap();
                let next_overlap = next_header.get_overlap();
                let ghost base = self.es()[0].key;
                if next_overlap > prev_overlap {
                    self.key.truncate(prev_overlap);
                    proof {
                        assert(self.key@ =~= base.take(prev_overlap as int));
                    }
                    crate::codec::extend_bytes_range(
                        &mut self.key,
                        self.base_key.as_slice(),
                        prev_overlap,
                        next_overlap,
                    );
                    proof {
                        assert(self.key@ =~= base.take(next_overlap as int));
                    }
                } else {
                    self.key.truncate(next_overlap);
                    proof {
                        assert(self.key@ =~= base.take(next_overlap as int));
                    }
                }
                let dstart = next_off + 4;
                crate::codec::extend_bytes_range(
                    &mut self.key,
                    self.inner.data.as_slice(),
                    dstart,
                    dstart + next_header.get_diff(),
                );
                proof {
                    assert(self.key@ == self.es()[next_id as int].key);
                }
                self.header = next_header;
                self.entry_index = Some(next_id);
                true
            },
            None => {
                self.load_base_key();
                proof {
                    crate::table::block::lemma_entry_zero_is_base(
                        self.inner.data@,
                        self.inner.entry_offsets@,
                        self.inner.entries_index_start as int,
                        self.inner.entries@,
                    );
                }
                let h0 = read_entry_header(self.inner.data.as_slice(), 0);
                self.key.truncate(0);
                crate::codec::extend_bytes(&mut self.key, self.base_key.as_slice());
                proof {
                    assert(self.key@ =~= self.base_key@);
                }
                self.header = h0;
                self.entry_index = Some(0);
                true
            },
        }
    }

    /// Steps the backward cursor; false when it has met the forward
    /// cursor or passed the first entry.
    pub fn next_back(&mut self) -> (r: bool)
        requires
            old(self).wf(),
        ensures
            final(self).wf(),
            final(self).inner == old(self).inner,
            final(self).entry_index == old(self).entry_index,
            final(self).key@ == old(self).key@,
            match old(self).back_entry_index {
                None => r && final(self).back_entry_index is Some && final(self).back_entry_index->0 as int == old(self).es().len() - 1,
                Some(b) => {
                    &&& (match old(self).entry_index {
                        Some(i) => r == ((i as int) < b - 1),
                        None => r == (0 < b as int),
                    })
                    &&& (r ==> final(self).back_entry_index is Some && final(self).back_entry_index->0 as int == b - 1)
                    &&& (!r ==> final(self).back_entry_index == old(self).back_entry_index)
                },
            },
    {
        let n = self.inner.entry_offsets.len();
        match self.back_entry_index {
            Some(back_id) => {
                match self.entry_index {
                    Some(id) => {
                        if back_id <= id + 1 {
                            return false;
                        }
                        proof {
                            assert(back_id >= 1);
                        }
                    },
                    None => {
                        if back_id == 0 {
                            return false;
                        }
                    },
                }
                let prev_id = back_id - 1;
                let prev_off = self.inner.entry_offsets[prev_id] as usize;
                proof {
                    crate::table::block::lemma_region_parse(
                        self.inner.data@,
                        self.es()[0].key,
                        prev_off as int,
                        region_end(
                            self.inner.entry_offsets@,
                            self.inner.entries_index_start as int,
                            prev_id as int,
                        ),
                        self.es()[prev_id as int],
                        prev_id == 0,
                    );
                    crate::table::block::lemma_region_parse(
                        self.inner.data@,
                        self.es()[0].key,
                        self.inner.entry_offsets@[back_id as int] as int,
                        region_end(
                            self.inner.entry_offsets@,
                            self.inner.entries_index_start as int,
                            back_id as int,
                        ),
                        self.es()[back_id as int],
                        back_id == 0,
                    );
                }
                let prev_header = read_entry_header(self.inner.data.as_slice(), prev_off);
                let prev_back_overlap = self.back_header.get_overlap();
                let next_back_overlap = prev_header.get_overlap();
                let ghost base = self.es()[0].key;
                if next_back_overlap > prev_back_overlap {
                    self.back_key.truncate(prev_back_overlap);
                    proof {
                        assert(self.back_key@ =~= base.take(prev_back_overlap as int));
                    }
                    crate::codec::extend_bytes_range(
                        &mut self.back_key,
                        self.base_key.as_slice(),
                        prev_back_overlap,
                        next_back_overlap,
                    );
                    proof {
                        assert(self.back_key@ =~= base.take(next_back_overlap as int));
                    }
                } else {
                    self.back_key.truncate(next_back_overlap);
                    proof {
                        assert(self.back_key@ =~= base.take(next_back_overlap as int));
                    }
                }
                let dstart = prev_off + 4;
                crate::codec::extend_bytes_range(
                    &mut self.back_key,
                    self.inner.data.as_slice(),
                    dstart,
                    dstart + prev_header.get_diff(),
                );
                proof {
                    assert(self.back_key@ == self.es()[prev_id as int].key);
                }
                self.back_header = prev_header;
                self.back_entry_index = Some(prev_id);
                true
            },
            None => {
                self.load_base_key();
                let last_id = n - 1;
                let last_off = self.inner.entry_offsets[last_id] as usize;
                proof {
                    crate::table::block::lemma_region_parse(
                        self.inner.data@,
                        self.es()[0].key,
                        last_off as int,
                        region_end(
                            self.inner.entry_offsets@,
                            self.inner.entries_index_start as int,
                            last_id as int,
                        ),
                        self.es()[last_id as int],
                        last_id == 0,
                    );
                }
                let last_header = read_entry_header(self.inner.data.as_slice(), last_off);
                let lo = last_header.get_overlap();
                self.back_key.truncate(0);
                crate::codec::extend_bytes_range(&mut self.back_key, self.base_key.as_slice(), 0, lo);
                proof {
                    assert(self.back_key@ =~= self.es()[0].key.take(lo as int));
                }
                let dstart = last_off + 4;
                crate::codec::extend_bytes_range(
                    &mut self.back_key,
                    self.inner.data.as_slice(),
                    dstart,
                    dstart + last_header.get_diff(),
                );
                proof {
                    assert(self.back_key@ == self.es()[last_id as int].key);
                }
                self.back_header = last_header;
                self.back_entry_index = Some(last_id);
                true
            },
        }
    }

    /// The key under the forward cursor.
    pub fn key(&self) -> (r: Option<&Vec<u8>>)
        requires
            self.wf(),
        ensures
            match self.entry_index {
                Some(i) => r is Some && r->0@ == self.es()[i as int].key,
                None => r is None,
            },
    {
        if self.key.len() == 0 {
            proof {
                if self.entry_index is Some {
                    let i = self.entry_index->0;
                    assert(self.es()[i as int].key.len() > 0);
                }
            }
            return None;
        }
        Some(&self.key)
    }

    /// The key under the backward cursor.
    pub fn key_back(&self) -> (r: Option<&Vec<u8>>)
        requires
            self.wf(),
        ensures
            match self.back_entry_index {
                Some(i) => r is Some && r->0@ == self.es()[i as int].key,
                None => r is None,
            },
    {
        if self.back_key.len() == 0 {
            proof {
                if self.back_entry_index is Some {
                    let i = self.back_entry_index->0;
                    assert(self.es()[i as int].key.len() > 0);
                }
            }
            return None;
        }
        Some(&self.back_key)
    }

    /// The value record under the cursor at entry `id`.
    fn value_at(&self, id: usize, diff: usize) -> (r: Option<ValueMeta>)
        requires
            self.wf(),
            id < self.es().len(),
            diff == hdr_diff(self.inner.data@, self.inner.entry_offsets@[id as int] as int),
        ensures
            r is Some,
            r->0@ == self.es()[id as int].val,
    {
        proof {
            crate::table::block::lemma_region_parse(
                self.inner.data@,
                self.es()[0].key,
                self.inner.entry_offsets@[id as int] as int,
                region_end(
                    self.inner.entry_offsets@,
                    self.inner.entries_index_start as int,
                    id as int,
                ),
                self.es()[id as int],
                id == 0,
            );
        }
        let n = self.inner.entry_offsets.len();
        let end_offset = if id + 1 == n {
            self.inner.entries_index_start
        } else {
            self.inner.entry_offsets[id + 1] as usize
        };
        let start_offset = self.inner.entry_offsets[id] as usize + 4 + diff;
        let region = vstd::slice::slice_subrange(
            self.inner.data.as_slice(),
            start_offset,
            end_offset,
        );
        let vm = ValueMeta::deserialize(region);
        proof {
            assert(region@ == crate::kv::value_meta_bytes(self.es()[id as int].val));
            if vm is Some {
                crate::kv::lemma_value_meta_bytes_injective(
                    vm->0@,
                    self.es()[id as int].val,
                );
            } else {
                crate::codec::lemma_varint_len(self.es()[id as int].val.expires_at);
                assert(crate::codec::varint_at(region@, 2)) by {
                    assert(region@.subrange(0, region@.len() as int) =~= region@);
                    crate::table::block::lemma_value_region(
                        region@,
                        0,
                        region@.len() as int,
                        self.es()[id as int].val,
                    );
                }
            }
        }
        vm
    }

    /// The value under the forward cursor.
    pub fn value(&self) -> (r: Option<ValueMeta>)
        requires
            self.wf(),
        ensures
            match self.entry_index {
                Some(i) => r is Some && r->0@ == self.es()[i as int].val,
                None => r is None,
            },
    {
        match self.entry_index {
            Some(id) => self.value_at(id, self.header.get_diff()),
            None => None,
        }
    }

    /// The value under the backward cursor.
    pub fn value_back(&self) -> (r: Option<ValueMeta>)
        requires
            self.wf(),
        ensures
            match self.back_entry_index {
                Some(i) => r is Some && r->0@ == self.es()[i as int].val,
                None => r is None,
            },
    {
        match self.back_entry_index {
            Some(id) => self.value_at(id, self.back_header.get_diff()),
            None => None,
        }
    }
}

// ---------------------------------------------------------------------
// Tables
// ---------------------------------------------------------------------

/// All entries of a run of blocks, in on-disk order.
pub open spec fn flat_entries(bes: Seq<Seq<EntryView>>) -> Seq<EntryView>
    decreases bes.len(),
{
    if bes.len() == 0 {
        Seq::empty()
    } else {
        flat_entries(bes.drop_last()) + bes.last()
    }
}

/// How many entries sit in blocks before block `b`.
pub open spec fn entries_before(bes: Seq<Seq<EntryView>>, b: int) -> int {
    flat_entries(bes.take(b)).len() as int
}

pub proof fn lemma_entries_before_step(bes: Seq<Seq<EntryView>>, b: int)
    requires
        0 <= b < bes.len(),
    ensures
        entries_before(bes, b + 1) == entries_before(bes, b) + bes[b].len(),
        entries_before(bes, b) >= 0,
{
    assert(bes.take(b + 1).drop_last() =~= bes.take(b));
    assert(flat_entries(bes.take(b + 1)) == flat_entries(bes.take(b)) + bes[b]);
}

pub proof fn lemma_flat_len(bes: Seq<Seq<EntryView>>)
    ensures
        entries_before(bes, bes.len() as int) == flat_entries(bes).len(),
    decreases bes.len(),
{
    assert(bes.take(bes.len() as int) =~= bes);
}

/// The global position of entry `i` of block `b`.
pub proof fn lemma_flat_index(bes: Seq<Seq<EntryView>>, b: int, i: int)
    requires
        0 <= b < bes.len(),
        0 <= i < bes[b].len(),
    ensures
        0 <= entries_before(bes, b) + i < flat_entries(bes).len(),
        flat_entries(bes)[entries_before(bes, b) + i] == bes[b][i],
        entries_before(bes, b) + i < entries_before(bes, b + 1),
    decreases bes.len(),
{
    lemma_entries_before_step(bes, b);
    if b == bes.len() - 1 {
        assert(bes.take(b) =~= bes.drop_last());
        assert(flat_entries(bes) == flat_entries(bes.drop_last()) + bes[b]);
        lemma_flat_len(bes);
    } else {
        lemma_flat_index(bes.drop_last(), b, i);
        assert(bes.drop_last().take(b) =~= bes.take(b));
        assert(bes.drop_last()[b] == bes[b]);
        assert(flat_entries(bes) == flat_entries(bes.drop_last()) + bes.last());
        lemma_flat_len(bes);
        lemma_flat_len(bes.drop_last());
        assert(entries_before(bes.drop_last(), bes.len() - 1) == entries_before(
            bes,
            bes.len() - 1,
        )) by {
            assert(bes.drop_last().take(bes.len() - 1) =~= bes.take(bes.len() - 1));
        }
        lemma_entries_before_monotonic(bes, b + 1, bes.len() - 1);
    }
}

pub proof fn lemma_entries_before_monotonic(bes: Seq<Seq<EntryView>>, a: int, b: int)
    requires
        0 <= a <= b <= bes.len(),
    ensures
        entries_before(bes, a) <= entries_before(bes, b),
    decreases b - a,
{
    if a < b {
        lemma_entries_before_step(bes, b - 1);
        lemma_entries_before_monotonic(bes, a, b - 1);
    }
}

/// An immutable sorted table: a sequence of closed blocks plus the
/// metadata compaction consults. Entries across all blocks are
/// strictly sorted in the engine's key order.
pub struct TableInner {
    pub id: u64,
    pub block_data: Vec<Vec<u8>>,
    pub smallest: Vec<u8>,
    pub biggest: Vec<u8>,
    pub max_version: u64,
    pub stale_data_size: u32,
    pub created_at: u64,
    pub table_size: usize,
    pub verify_blocks: bool,
    pub blocks_entries: Ghost<Seq<Seq<EntryView>>>,
}

/// Some trailer and offset table exist under which `bytes` is a closed
/// block holding `es`.
pub open spec fn is_block_encoding(bytes: Seq<u8>, es: Seq<EntryView>) -> bool {
    exists|d: Seq<u8>, o: Seq<u32>| crate::table::block::encodes_block(bytes, d, o, es)
}

impl TableInner {
    /// Every entry of the table, in order.
    pub open spec fn entries_view(&self) -> Seq<EntryView> {
        flat_entries(self.blocks_entries@)
    }

    pub open spec fn num_blocks_view(&self) -> int {
        self.block_data@.len() as int
    }

    pub open spec fn wf(&self) -> bool {
        &&& self.block_data@.len() == self.blocks_entries@.len()
        &&& self.block_data@.len() > 0
        &&& forall|b: int|
            0 <= b < self.block_data@.len() ==> is_block_encoding(
                #[trigger] self.block_data@[b]@,
                self.blocks_entries@[b],
            )
        &&& forall|b: int|
            0 <= b < self.blocks_entries@.len() ==> (#[trigger] self.blocks_entries@[b]).len() > 0
        &&& forall|i: int|
            0 <= i < self.entries_view().len() ==> crate::kv::is_key_ts(
                (#[trigger] self.entries_view()[i]).key,
            )
        &&& crate::kv::entries_sorted(self.entries_view(), |e: EntryView| e.key)
        &&& self.smallest@ == self.entries_view()[0].key
        &&& self.biggest@ == self.entries_view().last().key
    }

    pub fn block_offsets_len(&self) -> (r: usize)
        ensures
            r == self.num_blocks_view(),
    {
        self.block_data.len()
    }

    /// Decodes block `idx`. Under the table's invariant the bytes are a
    /// valid encoding, so this cannot fail.
    pub fn get_block(&self, idx: usize) -> (r: Result<Block, DBError>)
        requires
            self.wf(),
            idx < self.num_blocks_view(),
        ensures
            r is Ok,
            r is Ok ==> r->Ok_0.wf() && r->Ok_0.entries@ == self.blocks_entries@[idx as int],
    {
        let bytes = &self.block_data[idx];
        match Block::decode(bytes.as_slice(), self.verify_blocks) {
            Ok(b) => {
                proof {
                    let (d, o) = choose|d: Seq<u8>, o: Seq<u32>|
                        crate::table::block::encodes_block(
                            bytes@,
                            d,
                            o,
                            self.blocks_entries@[idx as int],
                        );
                    assert(self.blocks_entries@[idx as int] =~= b.entries@);
                }
                Ok(b)
            },
            Err(e) => {
                proof {
                    let (d, o) = choose|d: Seq<u8>, o: Seq<u32>|
                        crate::table::block::encodes_block(
                            bytes@,
                            d,
                            o,
                            self.blocks_entries@[idx as int],
                        );
                    assert(false);
                }
                Err(e)
            },
        }
    }

    /// A fresh double-ended cursor over the whole table.
    pub fn iter(&self, use_cache: bool) -> (r: SinkTableIter<'_>)
        requires
            self.wf(),
        ensures
            r.wf(),
            r.inner == self,
            r.fwd_pos() == -1,
            r.back_pos() == self.entries_view().len(),
    {
        SinkTableIter {
            inner: self,
            use_cache,
            block_index: None,
            block_iter: None,
            back_block_index: None,
            back_block_iter: None,
        }
    }

    /// Collects every entry of the table, in order.
    /// The value of `user_key` a read stamped `read_ts` sees in this
    /// table: the first entry in key order carrying that user key and
    /// a stamp at or below the read's. Stored keys sort by user key
    /// ascending and stamp descending, so that first visible entry is
    /// the newest one the read may see. Tables hold versioned keys
    /// only, which the caller's build path guarantees.
    pub fn get_visible(&self, user_key: &[u8], read_ts: u64) -> (r: Option<ValueMeta>)
        requires
            self.wf(),
            forall|i: int|
                0 <= i < self.entries_view().len() ==> crate::kv::is_key_ts(
                    (#[trigger] self.entries_view()[i]).key,
                ),
        ensures
            match r {
                Some(v) => exists|i: int|
                    #![trigger self.entries_view()[i]]
                    0 <= i < self.entries_view().len() && visible_version(
                        self.entries_view()[i],
                        user_key@,
                        read_ts,
                    ) && v@ == self.entries_view()[i].val && (forall|j: int|
                        0 <= j < i ==> !visible_version(
                            #[trigger] self.entries_view()[j],
                            user_key@,
                            read_ts,
                        )),
                None => forall|i: int|
                    0 <= i < self.entries_view().len() ==> !visible_version(
                        #[trigger] self.entries_view()[i],
                        user_key@,
                        read_ts,
                    ),
            },
    {
        let mut entries = self.all_entries();
        let n = entries.len();
        let mut i: usize = 0;
        while i < n
            invariant
                i <= n == entries@.len(),
                entries@.len() == self.entries_view().len(),
                forall|q: int|
                    0 <= q < entries@.len() ==> (#[trigger] entries@[q]).0@
                        == self.entries_view()[q].key && (entries@[q]).1@
                        == self.entries_view()[q].val,
                forall|q: int|
                    0 <= q < self.entries_view().len() ==> crate::kv::is_key_ts(
                        (#[trigger] self.entries_view()[q]).key,
                    ),
                forall|j: int|
                    0 <= j < i ==> !visible_version(
                        #[trigger] self.entries_view()[j],
                        user_key@,
                        read_ts,
                    ),
            decreases n - i,
        {
            proof {
                assert(entries@[i as int].0@ == self.entries_view()[i as int].key);
                assert(crate::kv::is_key_ts(self.entries_view()[i as int].key));
            }
            let k = entries[i].0.as_slice();
            if crate::codec::bytes_equal(crate::kv::parse_key(k), user_key) {
                if crate::kv::parse_ts(k) <= read_ts {
                    proof {
                        assert(visible_version(
                            self.entries_view()[i as int],
                            user_key@,
                            read_ts,
                        ));
                    }
                    let hit = entries.remove(i);
                    return Some(hit.1);
                }
            }
            i = i + 1;
        }
        None
    }

    pub fn all_entries(&self) -> (r: Vec<(Vec<u8>, ValueMeta)>)
        requires
            self.wf(),
        ensures
            r@.len() == self.entries_view().len(),
            forall|i: int|
                0 <= i < r@.len() ==> (#[trigger] r@[i]).0@ == self.entries_view()[i].key
                    && (r@[i]).1@ == self.entries_view()[i].val,
    {
        let mut out: Vec<(Vec<u8>, ValueMeta)> = Vec::new();
        let nb = self.block_data.len();
        let mut b: usize = 0;
        proof {
            assert(entries_before(self.blocks_entries@, 0) == 0) by {
                assert(self.blocks_entries@.take(0) =~= Seq::<Seq<EntryView>>::empty());
            }
        }
        while b < nb
            invariant
                b <= nb,
                self.wf(),
                nb == self.num_blocks_view(),
                out@.len() == entries_before(self.blocks_entries@, b as int),
                forall|i: int|
                    0 <= i < out@.len() ==> (#[trigger] out@[i]).0@ == self.entries_view()[i].key
                        && out@[i].1@ == self.entries_view()[i].val,
            decreases nb - b,
        {
            let block = match self.get_block(b) {
                Ok(bl) => bl,
                Err(_) => {
                    proof {
                        assert(false);
                    }
                    return out;
                },
            };
            let ne = block.num_entries();
            let mut it = SinkBlockIter::from_block(block);
            let ghost bes = self.blocks_entries@;
            let mut advanced = it.next();
            let mut i: usize = 0;
            while advanced
                invariant
                    self.wf(),
                    b < nb == self.num_blocks_view(),
                    it.wf(),
                    it.es() == bes[b as int],
                    bes == self.blocks_entries@,
                    ne == bes[b as int].len(),
                    it.back_entry_index is None,
                    advanced ==> it.entry_index == Some(i),
                    !advanced ==> i == bes[b as int].len(),
                    i <= ne,
                    out@.len() == entries_before(bes, b as int) + i,
                    forall|j: int|
                        0 <= j < out@.len() ==> (#[trigger] out@[j]).0@
                            == self.entries_view()[j].key && out@[j].1@
                            == self.entries_view()[j].val,
                decreases bes[b as int].len() - i + (if advanced {
                    1int
                } else {
                    0int
                }),
            {
                let key = match it.key() {
                    Some(k) => vstd::slice::slice_to_vec(k.as_slice()),
                    None => {
                        proof {
                            assert(false);
                        }
                        return out;
                    },
                };
                let val = match it.value() {
                    Some(v) => v,
                    None => {
                        proof {
                            assert(false);
                        }
                        return out;
                    },
                };
                proof {
                    lemma_flat_index(bes, b as int, i as int);
                }
                out.push((key, val));
                advanced = it.next();
                i = i + 1;
            }
            proof {
                lemma_entries_before_step(bes, b as int);
            }
            b = b + 1;
        }
        proof {
            lemma_flat_len(self.blocks_entries@);
        }
        out
    }
}

/// A double-ended cursor over a table: one block cursor per direction,
/// moving from block to block.
pub struct SinkTableIter<'a> {
    pub inner: &'a TableInner,
    pub use_cache: bool,
    pub block_index: Option<usize>,
    pub block_iter: Option<SinkBlockIter>,
    pub back_block_index: Option<usize>,
    pub back_block_iter: Option<SinkBlockIter>,
}

impl<'a> SinkTableIter<'a> {
    /// Global position of the forward cursor; -1 before the first call.
    pub open spec fn fwd_pos(&self) -> int {
        match self.block_index {
            None => -1,
            Some(b) => entries_before(self.inner.blocks_entries@, b as int) + match self
                .block_iter {
                Some(it) => match it.entry_index {
                    Some(i) => i as int,
                    None => 0,
                },
                None => 0,
            },
        }
    }

    /// Global position of the backward cursor; one past the last entry
    /// before the first call.
    pub open spec fn back_pos(&self) -> int {
        match self.back_block_index {
            None => self.inner.entries_view().len() as int,
            Some(b) => entries_before(self.inner.blocks_entries@, b as int) + match self
                .back_block_iter {
                Some(it) => match it.back_entry_index {
                    Some(i) => i as int,
                    None => 0,
                },
                None => 0,
            },
        }
    }

    pub open spec fn wf(&self) -> bool {
        &&& self.inner.wf()
        &&& (self.block_index is Some <==> self.block_iter is Some)
        &&& (self.back_block_index is Some <==> self.back_block_iter is Some)
        &&& match (self.block_index, self.block_iter) {
            (Some(b), Some(it)) => {
                &&& (b as int) < self.inner.num_blocks_view()
                &&& it.wf()
                &&& it.es() == self.inner.blocks_entries@[b as int]
                &&& it.entry_index is Some
                &&& it.back_entry_index is None
            },
            _ => true,
        }
        &&& match (self.back_block_index, self.back_block_iter) {
            (Some(b), Some(it)) => {
                &&& (b as int) < self.inner.num_blocks_view()
                &&& it.wf()
                &&& it.es() == self.inner.blocks_entries@[b as int]
                &&& it.back_entry_index is Some
                &&& it.entry_index is None
            },
            _ => true,
        }
        &&& self.fwd_pos() <= self.back_pos()
    }
}

impl<'a> SinkTableIter<'a> {
    /// False exactly when both cursors have started and sit on the same
    /// entry: the scan is finished.
    #[verifier::rlimit(60)]
    #[verifier::spinoff_prover]
    pub fn double_ended_eq(&self) -> (r: bool)
        requires
            self.wf(),
        ensures
            self.block_iter is Some && self.back_block_iter is Some ==> r == (self.fwd_pos()
                != self.back_pos()),
            !(self.block_iter is Some && self.back_block_iter is Some) ==> r,
    {
        if let Some(it) = &self.block_iter {
            if let Some(back_it) = &self.back_block_iter {
                proof {
                    let b = self.block_index->0 as int;
                    let i = it.entry_index->0 as int;
                    let bb = self.back_block_index->0 as int;
                    let ib = back_it.back_entry_index->0 as int;
                    lemma_flat_index(self.inner.blocks_entries@, b, i);
                    lemma_flat_index(self.inner.blocks_entries@, bb, ib);
                    if !(b == bb && i == ib) {
                        let g = self.fwd_pos();
                        let gb = self.back_pos();
                        assert(g != gb) by {
                            if b == bb {
                            } else if b < bb {
                                lemma_entries_before_step(self.inner.blocks_entries@, b);
                                lemma_entries_before_monotonic(
                                    self.inner.blocks_entries@,
                                    b + 1,
                                    bb,
                                );
                            } else {
                                lemma_entries_before_step(self.inner.blocks_entries@, bb);
                                lemma_entries_before_monotonic(
                                    self.inner.blocks_entries@,
                                    bb + 1,
                                    b,
                                );
                            }
                        }
                        let es = self.inner.entries_view();
                        let kf = |e: EntryView| e.key;
                        if g < gb {
                            assert(crate::kv::key_lt(kf(es[g]), kf(es[gb])));
                        } else {
                            assert(crate::kv::key_lt(kf(es[gb]), kf(es[g])));
                        }
                    }
                }
                let fk = it.key();
                let bk = back_it.key_back();
                match (fk, bk) {
                    (Some(k1), Some(k2)) => {
                        if crate::codec::bytes_equal(k1.as_slice(), k2.as_slice()) {
                            let v1 = it.value();
                            let v2 = back_it.value_back();
                            match (v1, v2) {
                                (Some(x1), Some(x2)) => {
                                    if crate::kv::value_meta_equal(&x1, &x2) {
                                        return false;
                                    }
                                    return true;
                                },
                                _ => {
                                    return true;
                                },
                            }
                        }
                        return true;
                    },
                    _ => {
                        proof {
                            assert(false);
                        }
                        return true;
                    },
                }
            }
        }
        true
    }

    /// Advances the forward cursor one entry, crossing block boundaries;
    /// false once it has met the back cursor or the end of the table.
    #[verifier::rlimit(100)]
    #[verifier::spinoff_prover]
    pub fn next(&mut self) -> (r: Result<bool, DBError>)
        requires
            old(self).wf(),
        ensures
            final(self).wf(),
            final(self).inner == old(self).inner,
            final(self).back_block_index == old(self).back_block_index,
            final(self).back_pos() == old(self).back_pos(),
            r is Ok,
            r->Ok_0 == (old(self).fwd_pos() + 1 < old(self).back_pos()),
            (old(self).fwd_pos() < old(self).back_pos() && old(self).fwd_pos() + 1 < old(self).inner.entries_view().len()) ==> final(self).fwd_pos() == old(self).fwd_pos() + 1,
            !(old(self).fwd_pos() < old(self).back_pos() && old(self).fwd_pos() + 1 < old(self).inner.entries_view().len()) ==> final(self).fwd_pos() == old(self).fwd_pos(),
    {
        let ghost bes = self.inner.blocks_entries@;
        let ghost g = self.fwd_pos();
        let ghost gb = self.back_pos();
        let ghost total = self.inner.entries_view().len() as int;
        proof {
            lemma_flat_len(bes);
            if self.back_block_index is Some {
                lemma_flat_index(
                    bes,
                    self.back_block_index->0 as int,
                    self.back_block_iter->0.back_entry_index->0 as int,
                );
            }
            if self.block_index is Some {
                let b0 = self.block_index->0 as int;
                lemma_flat_index(bes, b0, self.block_iter->0.entry_index->0 as int);
                lemma_entries_before_step(bes, b0);
                lemma_entries_before_monotonic(bes, b0 + 1, bes.len() as int);
            }
        }
        if !self.double_ended_eq() {
            return Ok(false);
        }
        let mut advanced = false;
        let mut exhausted = false;
        match &mut self.block_iter {
            Some(it) => {
                if it.next() {
                    advanced = true;
                } else {
                    exhausted = true;
                }
            },
            None => {},
        }
        if advanced {
            proof {
                let b = self.block_index->0 as int;
                let i = self.block_iter->0.entry_index->0 as int;
                lemma_flat_index(bes, b, i);
                lemma_entries_before_step(bes, b);
                lemma_entries_before_monotonic(bes, b + 1, bes.len() as int);
                assert(self.wf());
                assert(self.fwd_pos() == g + 1);
                assert(self.back_pos() == gb);
                assert(g + 1 <= gb);
            }
            let r = self.double_ended_eq();
            proof {
                assert(r == (g + 1 < gb));
            }
            return Ok(r);
        }
        if exhausted {
            let b = match self.block_index {
                Some(b) => b,
                None => 0,
            };
            proof {
                assert(self.wf());
                assert((b as int) < self.inner.num_blocks_view());
                lemma_entries_before_step(bes, b as int);
                lemma_entries_before_monotonic(bes, b + 1, bes.len() as int);
            }
            if b >= self.inner.block_offsets_len() - 1 {
                return Ok(false);
            }
            let blk = match self.inner.get_block(b + 1) {
                Ok(blk) => blk,
                Err(e) => {
                    proof {
                        assert(false);
                    }
                    return Err(e);
                },
            };
            let mut nit = SinkBlockIter::from_block(blk);
            let _started = nit.next();
            self.block_iter = Some(nit);
            self.block_index = Some(b + 1);
            proof {
                assert(self.inner.blocks_entries@[b + 1].len() > 0);
                lemma_flat_index(bes, b + 1, 0);
                lemma_entries_before_step(bes, b + 1);
                lemma_entries_before_monotonic(bes, b + 2, bes.len() as int);
                assert(self.wf());
            }
            return Ok(self.double_ended_eq());
        }
        // the forward cursor has not started yet
        let blk = match self.inner.get_block(0) {
            Ok(blk) => blk,
            Err(e) => {
                proof {
                    assert(false);
                }
                return Err(e);
            },
        };
        let mut nit = SinkBlockIter::from_block(blk);
        let _started = nit.next();
        self.block_iter = Some(nit);
        self.block_index = Some(0);
        proof {
            assert(entries_before(bes, 0) == 0) by {
                assert(bes.take(0) =~= Seq::<Seq<EntryView>>::empty());
            }
            assert(self.inner.blocks_entries@[0].len() > 0);
            lemma_flat_index(bes, 0, 0);
            assert(self.wf());
        }
        Ok(self.double_ended_eq())
    }

    /// Steps the backward cursor one entry, crossing block boundaries;
    /// false once it has met the forward cursor or the start.
    #[verifier::rlimit(100)]
    #[verifier::spinoff_prover]
    pub fn next_back(&mut self) -> (r: Result<bool, DBError>)
        requires
            old(self).wf(),
        ensures
            final(self).wf(),
            final(self).inner == old(self).inner,
            final(self).block_index == old(self).block_index,
            final(self).fwd_pos() == old(self).fwd_pos(),
            r is Ok,
            r->Ok_0 == (old(self).fwd_pos() + 1 < old(self).back_pos()),
            (old(self).fwd_pos() < old(self).back_pos() && old(self).back_pos() > 0) ==> final(self).back_pos() == old(self).back_pos() - 1,
            !(old(self).fwd_pos() < old(self).back_pos() && old(self).back_pos() > 0) ==> final(self).back_pos() == old(self).back_pos(),
            r->Ok_0 ==> final(self).back_pos() < old(self).inner.entries_view().len(),
    {
        let ghost bes = self.inner.blocks_entries@;
        let ghost g = self.fwd_pos();
        let ghost gb = self.back_pos();
        let ghost total = self.inner.entries_view().len() as int;
        proof {
            lemma_flat_len(bes);
            if self.block_index is Some {
                lemma_flat_index(
                    bes,
                    self.block_index->0 as int,
                    self.block_iter->0.entry_index->0 as int,
                );
            }
            if self.back_block_index is Some {
                let b0 = self.back_block_index->0 as int;
                lemma_flat_index(bes, b0, self.back_block_iter->0.back_entry_index->0 as int);
                lemma_entries_before_step(bes, b0);
                lemma_entries_before_monotonic(bes, b0 + 1, bes.len() as int);
            }
        }
        if !self.double_ended_eq() {
            return Ok(false);
        }
        let mut stepped = false;
        let mut exhausted = false;
        match &mut self.back_block_iter {
            Some(it) => {
                if it.next_back() {
                    stepped = true;
                } else {
                    exhausted = true;
                }
            },
            None => {},
        }
        if stepped {
            proof {
                let b = self.back_block_index->0 as int;
                let i = self.back_block_iter->0.back_entry_index->0 as int;
                lemma_flat_index(bes, b, i);
                assert(g <= gb - 1);
                assert(self.wf());
                assert(self.back_pos() == gb - 1);
                assert(self.fwd_pos() == g);
            }
            let r = self.double_ended_eq();
            proof {
                assert(r == (g + 1 < gb));
            }
            return Ok(r);
        }
        if exhausted {
            let b = match self.back_block_index {
                Some(b) => b,
                None => 0,
            };
            proof {
                assert(self.wf());
                assert((b as int) < self.inner.num_blocks_view());
            }
            if b == 0 {
                proof {
                    assert(entries_before(bes, 0) == 0) by {
                        assert(bes.take(0) =~= Seq::<Seq<EntryView>>::empty());
                    }
                }
                return Ok(false);
            }
            proof {
                assert(self.inner.blocks_entries@[b - 1].len() > 0);
                lemma_entries_before_step(bes, b - 1);
            }
            let blk = match self.inner.get_block(b - 1) {
                Ok(blk) => blk,
                Err(e) => {
                    proof {
                        assert(false);
                    }
                    return Err(e);
                },
            };
            let mut nit = SinkBlockIter::from_block(blk);
            let _started = nit.next_back();
            self.back_block_iter = Some(nit);
            self.back_block_index = Some(b - 1);
            proof {
                assert(self.inner.blocks_entries@[b - 1].len() > 0);
                lemma_flat_index(bes, b - 1, bes[b - 1].len() - 1);
                assert(self.wf());
            }
            return Ok(self.double_ended_eq());
        }
        // the backward cursor has not started yet
        let nb = self.inner.block_offsets_len();
        let blk = match self.inner.get_block(nb - 1) {
            Ok(blk) => blk,
            Err(e) => {
                proof {
                    assert(false);
                }
                return Err(e);
            },
        };
        let mut nit = SinkBlockIter::from_block(blk);
        let _started = nit.next_back();
        proof {
            assert(self.inner.blocks_entries@[nb - 1].len() > 0);
            lemma_entries_before_step(bes, nb - 1);
            lemma_flat_index(bes, nb - 1, bes[nb - 1].len() - 1);
        }
        self.back_block_iter = Some(nit);
        self.back_block_index = Some(nb - 1);
        proof {
            assert(self.wf());
        }
        Ok(self.double_ended_eq())
    }

    /// The key under the forward cursor.
    pub fn key(&self) -> (r: Option<&Vec<u8>>)
        requires
            self.wf(),
        ensures
            match self.block_iter {
                Some(_) => {
                    &&& r is Some
                    &&& 0 <= self.fwd_pos() < self.inner.entries_view().len()
                    &&& r->0@ == self.inner.entries_view()[self.fwd_pos()].key
                },
                None => r is None,
            },
    {
        if let Some(it) = &self.block_iter {
            proof {
                lemma_flat_index(
                    self.inner.blocks_entries@,
                    self.block_index->0 as int,
                    it.entry_index->0 as int,
                );
            }
            let k = it.key();
            proof {
                assert(k is Some);
            }
            return k;
        }
        None
    }

    /// The value under the forward cursor.
    pub fn value(&self) -> (r: Option<ValueMeta>)
        requires
            self.wf(),
        ensures
            match self.block_iter {
                Some(_) => {
                    &&& r is Some
                    &&& 0 <= self.fwd_pos() < self.inner.entries_view().len()
                    &&& r->0@ == self.inner.entries_view()[self.fwd_pos()].val
                },
                None => r is None,
            },
    {
        if let Some(it) = &self.block_iter {
            proof {
                lemma_flat_index(
                    self.inner.blocks_entries@,
                    self.block_index->0 as int,
                    it.entry_index->0 as int,
                );
            }
            return it.value();
        }
        None
    }

    /// The key under the backward cursor.
    pub fn key_back(&self) -> (r: Option<&Vec<u8>>)
        requires
            self.wf(),
        ensures
            match self.back_block_iter {
                Some(_) => {
                    &&& r is Some
                    &&& 0 <= self.back_pos() < self.inner.entries_view().len()
                    &&& r->0@ == self.inner.entries_view()[self.back_pos()].key
                },
                None => r is None,
            },
    {
        if let Some(it) = &self.back_block_iter {
            proof {
                lemma_flat_index(
                    self.inner.blocks_entries@,
                    self.back_block_index->0 as int,
                    it.back_entry_index->0 as int,
                );
            }
            let k = it.key_back();
            proof {
                assert(k is Some);
            }
            return k;
        }
        None
    }

    /// The value under the backward cursor.
    pub fn value_back(&self) -> (r: Option<ValueMeta>)
        requires
            self.wf(),
        ensures
            match self.back_block_iter {
                Some(_) => {
                    &&& r is Some
                    &&& 0 <= self.back_pos() < self.inner.entries_view().len()
                    &&& r->0@ == self.inner.entries_view()[self.back_pos()].val
                },
                None => r is None,
            },
    {
        if let Some(it) = &self.back_block_iter {
            proof {
                lemma_flat_index(
                    self.inner.blocks_entries@,
                    self.back_block_index->0 as int,
                    it.back_entry_index->0 as int,
                );
            }
            return it.value_back();
        }
        None
    }
}

} // verus!
