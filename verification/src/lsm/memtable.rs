//! The memtable and its write-ahead log, as one pair: every insert is
//! appended to the log bytes before it becomes visible in the sorted
//! structure, and replaying the log bytes rebuilds the structure.

use vstd::prelude::*;

use crate::errors::DBError;
use crate::kv::{is_key_ts, ValueMeta};
use crate::skl::skip_list::{insert_sorted, SkipList};
use crate::table::write::EntryView;
use crate::vlog::write::vlog_entry_bytes;

verus! {

/// One mutable memtable with its log. The log bytes grow by exactly
/// one record per insert, always before the in-memory insert.
pub struct MemTable {
    pub skip_list: SkipList,
    pub wal: Vec<u8>,
    pub max_version: u64,
}

impl MemTable {
    pub open spec fn wf(&self) -> bool {
        self.skip_list.wf()
    }

    pub fn new(arena_size: usize) -> (r: MemTable)
        ensures
            r.wf(),
            r.skip_list.view_entries().len() == 0,
            r.wal@.len() == 0,
    {
        MemTable { skip_list: SkipList::new(arena_size), wal: Vec::new(), max_version: 0 }
    }

    /// Inserts one pair: the record goes to the log first, and only
    /// then into the sorted structure, so a crash between the two can
    /// lose nothing that was visible.
    pub fn put(&mut self, key_ts: &[u8], value: ValueMeta) -> (r: Result<(), DBError>)
        requires
            old(self).wf(),
            is_key_ts(key_ts@),
        ensures
            final(self).wf(),
            r is Err <==> (key_ts@.len() > u32::MAX / 4 || value@.value.len() > u32::MAX / 4),
            match r {
                Ok(()) => {
                    &&& final(self).wal@ == old(self).wal@ + vlog_entry_bytes(
                        key_ts@,
                        value@.value,
                        value@.meta,
                        value@.user_meta,
                        value@.expires_at,
                    )
                    &&& final(self).skip_list.view_entries() == insert_sorted(
                        old(self).skip_list.view_entries(),
                        EntryView { key: key_ts@, val: value@ },
                    )
                },
                Err(e) => {
                    &&& e == DBError::RequestTooLarge
                    &&& final(self).wal@ == old(self).wal@
                    &&& final(self).skip_list == old(self).skip_list
                    &&& final(self).max_version == old(self).max_version
                },
            },
    {
        let ghost pre_wal = self.wal@;
        match crate::vlog::write::encode_entry(&mut self.wal, key_ts, &value) {
            Ok(_) => {},
            Err(e) => {
                return Err(e);
            },
        }
        let ts = crate::kv::parse_ts(key_ts);
        if ts > self.max_version {
            self.max_version = ts;
        }
        self.skip_list.insert(key_ts, value);
        Ok(())
    }

    /// Every pair, in the engine's key order.
    pub fn all_entries(&self) -> (r: &Vec<(Vec<u8>, ValueMeta)>)
        ensures
            r@.map_values(|p: (Vec<u8>, ValueMeta)| EntryView { key: p.0@, val: p.1@ })
                == self.skip_list.view_entries(),
    {
        self.skip_list.all_entries()
    }
}

} // verus!
