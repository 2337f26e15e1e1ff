//! The value-log write path: values at or above the threshold go
//! out-of-line into the current segment, and the table keeps a pointer
//! in their place.

use vstd::prelude::*;

use crate::checksum::{crc32, crc32_of};
use crate::codec::be32_of;
use crate::kv::{ValueMeta, ValuePointer};
use crate::vlog::header::{vlog_header_bytes, EntryHeader, MAX_HEADER_SIZE};

verus! {

/// The hard upper bound on a segment's size.
pub const MAX_VLOG_FILE_SIZE: u64 = 0xffffffff;

/// The wire form of one value-log record: header, key, value, CRC-32
/// over all of it.
pub open spec fn vlog_entry_bytes(
    key: Seq<u8>,
    value: Seq<u8>,
    meta: u8,
    user_meta: u8,
    expires_at: u64,
) -> Seq<u8>
    recommends
        key.len() <= u32::MAX,
        value.len() <= u32::MAX,
{
    let h = vlog_header_bytes(
        EntryHeader {
            key_len: key.len() as u32,
            value_len: value.len() as u32,
            expires_at,
            meta,
            user_meta,
        },
    );
    let body = h + key + value;
    body + be32_of(crc32_of(body))
}

/// The append-only log of large values.
pub struct ValueLog {
    pub max_fid: u32,
    pub writable_log_offset: u32,
    pub value_threshold: usize,
    pub vlog_file_size: u32,
}

impl ValueLog {
    pub fn new(value_threshold: usize, vlog_file_size: u32) -> (r: ValueLog)
        ensures
            r.max_fid == 0,
            r.writable_log_offset == 0,
            r.value_threshold == value_threshold,
            r.vlog_file_size == vlog_file_size,
    {
        ValueLog { max_fid: 0, writable_log_offset: 0, value_threshold, vlog_file_size }
    }

    #[inline]
    pub fn writable_log_offset(&self) -> (r: u32)
        ensures
            r == self.writable_log_offset,
    {
        self.writable_log_offset
    }

    /// Reserves `size` bytes at the current write offset and returns
    /// where they start.
    #[inline]
    pub fn writable_log_offset_fetch_add(&mut self, size: u32) -> (r: u32)
        requires
            old(self).writable_log_offset + size <= u32::MAX,
        ensures
            r == old(self).writable_log_offset,
            final(self).writable_log_offset == old(self).writable_log_offset + size,
            final(self).max_fid == old(self).max_fid,
            final(self).value_threshold == old(self).value_threshold,
            final(self).vlog_file_size == old(self).vlog_file_size,
    {
        let r = self.writable_log_offset;
        self.writable_log_offset = self.writable_log_offset + size;
        r
    }

    /// Checks that a run of requests fits the hard segment limit,
    /// simulating the rollover to a fresh segment whenever a request
    /// would pass the target size. Fails exactly when some request
    /// would overrun the hard maximum.
    pub fn validate_write(&self, req_sizes: &Vec<u64>) -> (r: Result<(), crate::errors::DBError>)
        ensures
            match r {
                Ok(()) => validate_fold(
                    self.writable_log_offset as u64,
                    req_sizes@,
                    self.vlog_file_size as u64,
                ) is Some,
                Err(e) => {
                    &&& e == crate::errors::DBError::RequestTooLarge
                    &&& validate_fold(
                        self.writable_log_offset as u64,
                        req_sizes@,
                        self.vlog_file_size as u64,
                    ) is None
                },
            },
    {
        let mut vlog_offset: u64 = self.writable_log_offset as u64;
        let ghost sizes = req_sizes@;
        let ghost target = self.vlog_file_size as u64;
        let ghost goal = validate_fold(self.writable_log_offset as u64, sizes, target);
        let n = req_sizes.len();
        let mut i: usize = 0;
        proof {
            assert(sizes.skip(0) =~= sizes);
        }
        while i < n
            invariant
                i <= n == sizes.len(),
                sizes == req_sizes@,
                target == self.vlog_file_size as u64,
                goal == validate_fold(self.writable_log_offset as u64, sizes, target),
                vlog_offset <= MAX_VLOG_FILE_SIZE,
                goal == validate_fold(vlog_offset, sizes.skip(i as int), target),
            decreases n - i,
        {
            let size = req_sizes[i];
            proof {
                assert(sizes.skip(i as int)[0] == sizes[i as int]);
                assert(sizes.skip(i as int).drop_first() =~= sizes.skip(i + 1));
            }
            if size > MAX_VLOG_FILE_SIZE - vlog_offset {
                return Err(crate::errors::DBError::RequestTooLarge);
            }
            let estimate = vlog_offset + size;
            if estimate >= self.vlog_file_size as u64 {
                vlog_offset = 0;
            } else {
                vlog_offset = estimate;
            }
            i = i + 1;
        }
        proof {
            assert(sizes.skip(n as int) =~= Seq::<u64>::empty());
        }
        Ok(())
    }
}

/// Walks the requests: each moves the write offset forward, rolls it to
/// a fresh segment when the target size is reached, and fails past the
/// hard maximum.
pub open spec fn validate_fold(offset: u64, sizes: Seq<u64>, target: u64) -> Option<u64>
    decreases sizes.len(),
{
    if sizes.len() == 0 {
        Some(offset)
    } else if offset + sizes[0] > MAX_VLOG_FILE_SIZE {
        None
    } else if offset + sizes[0] >= target {
        validate_fold(0, sizes.drop_first(), target)
    } else {
        validate_fold((offset + sizes[0]) as u64, sizes.drop_first(), target)
    }
}

/// Serializes one record into `buf` and returns its length: header,
/// key and value bytes, then a CRC-32 over all of them.
pub fn encode_entry(buf: &mut Vec<u8>, key: &[u8], value: &ValueMeta) -> (r: Result<
    usize,
    crate::errors::DBError,
>)
    ensures
        match r {
            Ok(len) => {
                &&& key@.len() <= u32::MAX / 4
                &&& value@.value.len() <= u32::MAX / 4
                &&& final(buf)@ == old(buf)@ + vlog_entry_bytes(
                    key@,
                    value@.value,
                    value@.meta,
                    value@.user_meta,
                    value@.expires_at,
                )
                &&& len == vlog_entry_bytes(
                    key@,
                    value@.value,
                    value@.meta,
                    value@.user_meta,
                    value@.expires_at,
                ).len()
            },
            Err(e) => {
                &&& e == crate::errors::DBError::RequestTooLarge
                &&& final(buf)@ == old(buf)@
                &&& (key@.len() > u32::MAX / 4 || value@.value.len() > u32::MAX / 4)
            },
        },
{
    if key.len() > (u32::MAX / 4) as usize || value.value.len() > (u32::MAX / 4) as usize {
        return Err(crate::errors::DBError::RequestTooLarge);
    }
    let header = EntryHeader::new(
        key.len() as u32,
        value.value.len() as u32,
        value.expires_at,
        value.meta,
        value.user_meta,
    );
    let henc = header.encode();
    let mut body: Vec<u8> = Vec::new();
    crate::codec::extend_bytes(&mut body, henc.as_slice());
    crate::codec::extend_bytes(&mut body, key);
    crate::codec::extend_bytes(&mut body, value.value.as_slice());
    let sum = crc32(body.as_slice());
    let total = body.len() + 4;
    crate::codec::extend_bytes(buf, body.as_slice());
    crate::codec::put_u32_be(buf, sum);
    proof {
        assert(final(buf)@ =~= old(buf)@ + vlog_entry_bytes(
            key@,
            value@.value,
            value@.meta,
            value@.user_meta,
            value@.expires_at,
        ));
    }
    Ok(total)
}

/// The bytes a batch appends to the log: one record per entry whose
/// value is at or above the threshold, in order, and nothing else.
pub open spec fn vlog_batch_bytes(entries: Seq<(Vec<u8>, ValueMeta)>, threshold: int) -> Seq<u8>
    decreases entries.len(),
{
    if entries.len() == 0 {
        Seq::empty()
    } else if entries.last().1@.value.len() >= threshold {
        vlog_batch_bytes(entries.drop_last(), threshold) + vlog_entry_bytes(
            entries.last().0@,
            entries.last().1@.value,
            entries.last().1@.meta,
            entries.last().1@.user_meta,
            entries.last().1@.expires_at,
        )
    } else {
        vlog_batch_bytes(entries.drop_last(), threshold)
    }
}

/// A batch prefix never appends more than the whole batch.
pub proof fn lemma_batch_prefix_len(entries: Seq<(Vec<u8>, ValueMeta)>, i: int, threshold: int)
    requires
        0 <= i <= entries.len(),
    ensures
        vlog_batch_bytes(entries.take(i), threshold).len() <= vlog_batch_bytes(
            entries,
            threshold,
        ).len(),
    decreases entries.len() - i,
{
    if i < entries.len() {
        lemma_batch_prefix_len(entries, i + 1, threshold);
        assert(entries.take(i + 1).drop_last() =~= entries.take(i));
        assert(entries.take(i + 1).last() == entries[i]);
    } else {
        assert(entries.take(i) =~= entries);
    }
}

/// Writes a batch: every value shorter than the threshold stays inline
/// (its pointer is empty and nothing is appended to the log for it);
/// every value at or past the threshold is appended to the current
/// segment, its pointer naming the segment, the write offset before the
/// record, and the record's length. The log grows by exactly the
/// records of the at-or-above-threshold entries, in order. The batch
/// fails exactly when an entry's key or value is too large for a
/// record, or the records would run past the segment's 32-bit space.
pub fn write_entries(
    vlog: &mut ValueLog,
    buf: &mut Vec<u8>,
    entries: &Vec<(Vec<u8>, ValueMeta)>,
) -> (r: Result<Vec<ValuePointer>, crate::errors::DBError>)
    requires
        old(buf)@.len() == old(vlog).writable_log_offset,
    ensures
        final(vlog).value_threshold == old(vlog).value_threshold,
        final(vlog).max_fid == old(vlog).max_fid,
        final(vlog).vlog_file_size == old(vlog).vlog_file_size,
        r is Ok <==> ((forall|i: int|
            0 <= i < entries@.len() ==> (#[trigger] entries@[i]).0@.len() <= u32::MAX / 4
                && entries@[i].1@.value.len() <= u32::MAX / 4) && old(vlog).writable_log_offset
            + vlog_batch_bytes(entries@, old(vlog).value_threshold as int).len() <= u32::MAX),
        match r {
            Ok(ptrs) => {
                &&& ptrs@.len() == entries@.len()
                &&& final(buf)@ == old(buf)@ + vlog_batch_bytes(
                    entries@,
                    old(vlog).value_threshold as int,
                )
                &&& final(vlog).writable_log_offset == old(vlog).writable_log_offset
                    + vlog_batch_bytes(entries@, old(vlog).value_threshold as int).len()
                &&& final(buf)@.len() == final(vlog).writable_log_offset
                &&& forall|i: int|
                    0 <= i < entries@.len() && (#[trigger] entries@[i]).1@.value.len() < old(
                        vlog,
                    ).value_threshold ==> ptrs@[i] == (ValuePointer { fid: 0, len: 0, offset: 0 })
                &&& forall|i: int|
                    0 <= i < entries@.len() && (#[trigger] entries@[i]).1@.value.len() >= old(
                        vlog,
                    ).value_threshold ==> {
                        &&& (#[trigger] ptrs@[i]).fid == old(vlog).max_fid
                        // the pointer names the write offset before its
                        // record and the record's exact length
                        &&& ptrs@[i].offset == old(vlog).writable_log_offset + vlog_batch_bytes(
                            entries@.take(i),
                            old(vlog).value_threshold as int,
                        ).len()
                        &&& ptrs@[i].len == vlog_entry_bytes(
                            entries@[i].0@,
                            entries@[i].1@.value,
                            entries@[i].1@.meta,
                            entries@[i].1@.user_meta,
                            entries@[i].1@.expires_at,
                        ).len()
                        &&& ptrs@[i].offset + ptrs@[i].len <= final(buf)@.len()
                        &&& final(buf)@.subrange(
                            ptrs@[i].offset as int,
                            ptrs@[i].offset + ptrs@[i].len,
                        ) == vlog_entry_bytes(
                            entries@[i].0@,
                            entries@[i].1@.value,
                            entries@[i].1@.meta,
                            entries@[i].1@.user_meta,
                            entries@[i].1@.expires_at,
                        )
                    }
            },
            Err(e) => e == crate::errors::DBError::RequestTooLarge,
        },
{
    let ghost thr = old(vlog).value_threshold as int;
    let mut ptrs: Vec<ValuePointer> = Vec::new();
    let n = entries.len();
    let mut i: usize = 0;
    proof {
        assert(entries@.take(0) =~= Seq::<(Vec<u8>, ValueMeta)>::empty());
    }
    while i < n
        invariant
            i <= n == entries@.len(),
            ptrs@.len() == i,
            buf@.len() == vlog.writable_log_offset,
            vlog.value_threshold == old(vlog).value_threshold,
            vlog.max_fid == old(vlog).max_fid,
            vlog.vlog_file_size == old(vlog).vlog_file_size,
            thr == old(vlog).value_threshold as int,
            old(buf)@.len() == old(vlog).writable_log_offset,
            buf@ == old(buf)@ + vlog_batch_bytes(entries@.take(i as int), thr),
            vlog.writable_log_offset == old(vlog).writable_log_offset + vlog_batch_bytes(
                entries@.take(i as int),
                thr,
            ).len(),
            forall|j: int|
                0 <= j < i ==> (#[trigger] entries@[j]).0@.len() <= u32::MAX / 4 && entries@[
                    j
                ].1@.value.len() <= u32::MAX / 4,
            forall|j: int|
                0 <= j < i && (#[trigger] entries@[j]).1@.value.len() < old(
                    vlog,
                ).value_threshold ==> ptrs@[j] == (ValuePointer { fid: 0, len: 0, offset: 0 }),
            forall|j: int|
                0 <= j < i && (#[trigger] entries@[j]).1@.value.len() >= old(
                    vlog,
                ).value_threshold ==> {
                    &&& (#[trigger] ptrs@[j]).fid == old(vlog).max_fid
                    &&& ptrs@[j].offset == old(vlog).writable_log_offset + vlog_batch_bytes(
                        entries@.take(j),
                        thr,
                    ).len()
                    &&& ptrs@[j].len == vlog_entry_bytes(
                        entries@[j].0@,
                        entries@[j].1@.value,
                        entries@[j].1@.meta,
                        entries@[j].1@.user_meta,
                        entries@[j].1@.expires_at,
                    ).len()
                    &&& ptrs@[j].offset + ptrs@[j].len <= buf@.len()
                    &&& buf@.subrange(ptrs@[j].offset as int, ptrs@[j].offset + ptrs@[j].len)
                        == vlog_entry_bytes(
                        entries@[j].0@,
                        entries@[j].1@.value,
                        entries@[j].1@.meta,
                        entries@[j].1@.user_meta,
                        entries@[j].1@.expires_at,
                    )
                },
        decreases n - i,
    {
        proof {
            assert(entries@.take(i + 1).drop_last() =~= entries@.take(i as int));
            assert(entries@.take(i + 1).last() == entries@[i as int]);
        }
        let value_len = entries[i].1.value.len();
        if entries[i].0.len() > (u32::MAX / 4) as usize || value_len > (u32::MAX / 4) as usize {
            return Err(crate::errors::DBError::RequestTooLarge);
        }
        if value_len < vlog.value_threshold {
            ptrs.push(ValuePointer::default());
        } else {
            let offset = vlog.writable_log_offset();
            let ghost buf0 = buf@;
            let len = match encode_entry(buf, &entries[i].0.as_slice(), &entries[i].1) {
                Ok(len) => len,
                Err(e) => {
                    proof {
                        assert(false);
                    }
                    return Err(e);
                },
            };
            if len > (u32::MAX - offset) as usize {
                proof {
                    lemma_batch_prefix_len(entries@, i + 1, thr);
                }
                return Err(crate::errors::DBError::RequestTooLarge);
            }
            let _ = vlog.writable_log_offset_fetch_add(len as u32);
            let p = ValuePointer::new(vlog.max_fid, len as u32, offset);
            proof {
                assert(buf@.subrange(offset as int, offset + len) =~= vlog_entry_bytes(
                    entries@[i as int].0@,
                    entries@[i as int].1@.value,
                    entries@[i as int].1@.meta,
                    entries@[i as int].1@.user_meta,
                    entries@[i as int].1@.expires_at,
                ));
            }
            ptrs.push(p);
            proof {
                assert forall|j: int|
                    0 <= j < i + 1 && (#[trigger] entries@[j]).1@.value.len() >= old(
                        vlog,
                    ).value_threshold implies {
                    &&& (#[trigger] ptrs@[j]).fid == old(vlog).max_fid
                    &&& ptrs@[j].offset == old(vlog).writable_log_offset + vlog_batch_bytes(
                        entries@.take(j),
                        thr,
                    ).len()
                    &&& ptrs@[j].len == vlog_entry_bytes(
                        entries@[j].0@,
                        entries@[j].1@.value,
                        entries@[j].1@.meta,
                        entries@[j].1@.user_meta,
                        entries@[j].1@.expires_at,
                    ).len()
                    &&& ptrs@[j].offset + ptrs@[j].len <= buf@.len()
                    &&& buf@.subrange(ptrs@[j].offset as int, ptrs@[j].offset + ptrs@[j].len)
                        == vlog_entry_bytes(
                        entries@[j].0@,
                        entries@[j].1@.value,
                        entries@[j].1@.meta,
                        entries@[j].1@.user_meta,
                        entries@[j].1@.expires_at,
                    )
                } by {
                    if j < i {
                        assert(buf@.subrange(
                            ptrs@[j].offset as int,
                            ptrs@[j].offset + ptrs@[j].len,
                        ) =~= buf0.subrange(ptrs@[j].offset as int, ptrs@[j].offset + ptrs@[j].len));
                    }
                }
            }
        }
        i = i + 1;
    }
    proof {
        assert(entries@.take(n as int) =~= entries@);
    }
    Ok(ptrs)
}

} // verus!
