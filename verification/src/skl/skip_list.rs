//! The memtable's in-memory sorted structure: versioned keys to value
//! records, kept in the engine's key order at every moment.

use vstd::prelude::*;

use crate::kv::{entries_sorted, is_key_ts, key_le, key_lt, ValueMeta, ValueMetaView};
use crate::table::write::{visible_version, EntryView};

verus! {

/// The sorted in-memory write buffer. One is active per memtable;
/// retired ones become immutable and queue for flush.
pub struct SkipList {
    pub entries: Vec<(Vec<u8>, ValueMeta)>,
    pub arena_size: usize,
}

impl SkipList {
    /// The pairs held, in the engine's key order.
    pub open spec fn view_entries(&self) -> Seq<EntryView> {
        self.entries@.map_values(|p: (Vec<u8>, ValueMeta)| EntryView { key: p.0@, val: p.1@ })
    }

    pub open spec fn wf(&self) -> bool {
        &&& entries_sorted(self.view_entries(), |e: EntryView| e.key)
        &&& forall|i: int|
            0 <= i < self.view_entries().len() ==> is_key_ts(
                (#[trigger] self.view_entries()[i]).key,
            )
    }

    pub fn new(arena_size: usize) -> (r: SkipList)
        ensures
            r.wf(),
            r.view_entries().len() == 0,
            r.arena_size == arena_size,
    {
        SkipList { entries: Vec::new(), arena_size }
    }

    pub fn num_entries(&self) -> (r: usize)
        ensures
            r == self.view_entries().len(),
    {
        self.entries.len()
    }

    /// Inserts a pair, keeping the order; an entry under the very same
    /// stored key is replaced.
    pub fn insert(&mut self, key_ts: &[u8], value: ValueMeta)
        requires
            old(self).wf(),
            is_key_ts(key_ts@),
        ensures
            final(self).wf(),
            final(self).arena_size == old(self).arena_size,
            final(self).view_entries() == insert_sorted(
                old(self).view_entries(),
                EntryView { key: key_ts@, val: value@ },
            ),
    {
        let ghost e = EntryView { key: key_ts@, val: value@ };
        let ghost vs0 = old(self).view_entries();
        let n = self.entries.len();
        let mut i: usize = 0;
        while i < n
            invariant
                i <= n == self.entries@.len(),
                old(self).wf(),
                *self == *old(self),
                vs0 == old(self).view_entries(),
                e == (EntryView { key: key_ts@, val: value@ }),
                is_key_ts(key_ts@),
                forall|j: int| 0 <= j < i ==> key_lt((#[trigger] vs0[j]).key, e.key),
            decreases n - i,
        {
            proof {
                assert(vs0[i as int].key == self.entries@[i as int].0@);
                assert(is_key_ts(vs0[i as int].key));
            }
            let cur_le = crate::kv::compare_key_le(self.entries[i].0.as_slice(), key_ts);
            let cur_ge = crate::kv::compare_key_le(key_ts, self.entries[i].0.as_slice());
            proof {
                crate::kv::lemma_key_le_total(vs0[i as int].key, e.key);
            }
            if cur_le && cur_ge {
                // same stored key: replace the value
                let key_copy = vstd::slice::slice_to_vec(key_ts);
                self.entries.set(i, (key_copy, value));
                proof {
                    assert(vs0[i as int].key == e.key);
                    lemma_insert_sorted_at(vs0, e, i as int, true);
                    assert(self.view_entries() =~= vs0.update(i as int, e)) by {
                        assert(self.entries@ == old(self).entries@.update(
                            i as int,
                            (key_copy, value),
                        ));
                    }
                    lemma_update_keeps_sorted(vs0, e, i as int);
                }
                return ;
            }
            if !cur_le {
                // the new entry sorts before this one
                proof {
                    assert(!key_le(vs0[i as int].key, e.key));
                    assert(vs0[i as int].key != e.key) by {
                        if vs0[i as int].key == e.key {
                            crate::kv::lemma_key_le_total(vs0[i as int].key, e.key);
                        }
                    }
                }
                let key_copy = vstd::slice::slice_to_vec(key_ts);
                self.entries.insert(i, (key_copy, value));
                proof {
                    lemma_insert_sorted_at(vs0, e, i as int, false);
                    assert(self.view_entries() =~= vs0.insert(i as int, e)) by {
                        assert(self.entries@ == old(self).entries@.insert(
                            i as int,
                            (key_copy, value),
                        ));
                    }
                    lemma_insert_keeps_sorted(vs0, e, i as int);
                }
                return ;
            }
            proof {
                assert(key_le(vs0[i as int].key, e.key));
                assert(vs0[i as int].key != e.key) by {
                    if vs0[i as int].key == e.key {
                        crate::kv::lemma_key_le_total(vs0[i as int].key, e.key);
                    }
                }
                assert(key_lt(vs0[i as int].key, e.key));
            }
            i = i + 1;
        }
        let key_copy = vstd::slice::slice_to_vec(key_ts);
        self.entries.push((key_copy, value));
        proof {
            lemma_insert_sorted_at(vs0, e, n as int, false);
            assert(self.view_entries() =~= vs0.insert(n as int, e)) by {
                assert(self.entries@ == old(self).entries@.push((key_copy, value)));
                assert(old(self).entries@.push((key_copy, value)) =~= old(self).entries@.insert(
                    n as int,
                    (key_copy, value),
                ));
            }
            lemma_insert_keeps_sorted(vs0, e, n as int);
        }
    }

    /// The value of `user_key` a read stamped `read_ts` sees: the
    /// first entry in key order carrying that user key and a stamp at
    /// or below the read's. Stored keys sort by user key ascending and
    /// stamp descending, so that first visible entry is the newest one
    /// the read may see.
    pub fn get_visible(&self, user_key: &[u8], read_ts: u64) -> (r: Option<&ValueMeta>)
        requires
            self.wf(),
        ensures
            match r {
                Some(v) => exists|i: int|
                    #![trigger self.view_entries()[i]]
                    0 <= i < self.view_entries().len() && visible_version(
                        self.view_entries()[i],
                        user_key@,
                        read_ts,
                    ) && v@ == self.view_entries()[i].val && (forall|j: int|
                        0 <= j < i ==> !visible_version(
                            #[trigger] self.view_entries()[j],
                            user_key@,
                            read_ts,
                        )),
                None => forall|i: int|
                    0 <= i < self.view_entries().len() ==> !visible_version(
                        #[trigger] self.view_entries()[i],
                        user_key@,
                        read_ts,
                    ),
            },
    {
        let n = self.entries.len();
        let mut i: usize = 0;
        while i < n
            invariant
                i <= n == self.entries@.len(),
                self.wf(),
                forall|j: int|
                    0 <= j < i ==> !visible_version(
                        #[trigger] self.view_entries()[j],
                        user_key@,
                        read_ts,
                    ),
            decreases n - i,
        {
            proof {
                assert(self.view_entries()[i as int].key == self.entries@[i as int].0@);
                assert(is_key_ts(self.view_entries()[i as int].key));
            }
            let k = self.entries[i].0.as_slice();
            if crate::codec::bytes_equal(crate::kv::parse_key(k), user_key) {
                if crate::kv::parse_ts(k) <= read_ts {
                    proof {
                        assert(visible_version(
                            self.view_entries()[i as int],
                            user_key@,
                            read_ts,
                        ));
                    }
                    return Some(&self.entries[i].1);
                }
            }
            i = i + 1;
        }
        None
    }

    /// Every pair, in order; what a flush hands the table builder.
    pub fn all_entries(&self) -> (r: &Vec<(Vec<u8>, ValueMeta)>)
        ensures
            r@.map_values(|p: (Vec<u8>, ValueMeta)| EntryView { key: p.0@, val: p.1@ })
                == self.view_entries(),
    {
        &self.entries
    }
}

/// Where `e` lands in a sorted run: entries strictly before it, then
/// `e` (replacing an equal stored key), then the rest.
pub open spec fn insert_sorted(s: Seq<EntryView>, e: EntryView) -> Seq<EntryView>
    decreases s.len(),
{
    if s.len() == 0 {
        seq![e]
    } else if key_lt(s[0].key, e.key) {
        seq![s[0]] + insert_sorted(s.drop_first(), e)
    } else if s[0].key == e.key {
        seq![e] + s.drop_first()
    } else {
        seq![e] + s
    }
}

/// Spells out `insert_sorted` at a concrete split point.
proof fn lemma_insert_sorted_at(s: Seq<EntryView>, e: EntryView, i: int, replaces: bool)
    requires
        0 <= i <= s.len(),
        entries_sorted(s, |e2: EntryView| e2.key),
        forall|j: int| 0 <= j < i ==> key_lt((#[trigger] s[j]).key, e.key),
        replaces ==> i < s.len() && s[i].key == e.key,
        !replaces && i < s.len() ==> !key_lt(s[i].key, e.key) && s[i].key != e.key,
    ensures
        replaces ==> insert_sorted(s, e) == s.update(i, e),
        !replaces ==> insert_sorted(s, e) == s.insert(i, e),
    decreases i,
{
    if i == 0 {
        if replaces {
            assert(insert_sorted(s, e) =~= s.update(0, e));
        } else {
            if s.len() == 0 {
                assert(insert_sorted(s, e) =~= s.insert(0, e));
            } else {
                assert(!key_lt(s[0].key, e.key) && s[0].key != e.key);
                assert(insert_sorted(s, e) =~= s.insert(0, e));
            }
        }
    } else {
        let rest = s.drop_first();
        assert(entries_sorted(rest, |e2: EntryView| e2.key)) by {
            assert(forall|p: int, q: int|
                0 <= p < q < rest.len() ==> key_lt(
                    (|e2: EntryView| e2.key)(#[trigger] rest[p]),
                    (|e2: EntryView| e2.key)(#[trigger] rest[q]),
                )) by {
                assert(forall|p: int| 0 <= p < rest.len() ==> rest[p] == s[p + 1]);
            }
        }
        assert(forall|j: int| 0 <= j < i - 1 ==> key_lt((#[trigger] rest[j]).key, e.key)) by {
            assert(forall|j: int| 0 <= j < i - 1 ==> rest[j] == s[j + 1]);
        }
        if replaces {
            assert(rest[i - 1] == s[i]);
        } else if i - 1 < rest.len() {
            assert(rest[i - 1] == s[i]);
        }
        lemma_insert_sorted_at(rest, e, i - 1, replaces);
        assert(key_lt(s[0].key, e.key));
        if replaces {
            assert(insert_sorted(s, e) =~= s.update(i, e)) by {
                assert(insert_sorted(s, e) == seq![s[0]] + insert_sorted(rest, e));
                assert(insert_sorted(rest, e) == rest.update(i - 1, e));
            }
        } else {
            assert(insert_sorted(s, e) =~= s.insert(i, e)) by {
                assert(insert_sorted(s, e) == seq![s[0]] + insert_sorted(rest, e));
                assert(insert_sorted(rest, e) == rest.insert(i - 1, e));
            }
        }
    }
}

proof fn lemma_update_keeps_sorted(s: Seq<EntryView>, e: EntryView, i: int)
    requires
        0 <= i < s.len(),
        entries_sorted(s, |e2: EntryView| e2.key),
        s[i].key == e.key,
    ensures
        entries_sorted(s.update(i, e), |e2: EntryView| e2.key),
{
    let s2 = s.update(i, e);
    assert forall|p: int, q: int| 0 <= p < q < s2.len() implies key_lt(
        (|e2: EntryView| e2.key)(#[trigger] s2[p]),
        (|e2: EntryView| e2.key)(#[trigger] s2[q]),
    ) by {
        assert(key_lt(s[p].key, s[q].key));
    }
}

proof fn lemma_insert_keeps_sorted(s: Seq<EntryView>, e: EntryView, i: int)
    requires
        0 <= i <= s.len(),
        entries_sorted(s, |e2: EntryView| e2.key),
        forall|j: int| 0 <= j < s.len() ==> is_key_ts((#[trigger] s[j]).key),
        is_key_ts(e.key),
        forall|j: int| 0 <= j < i ==> key_lt((#[trigger] s[j]).key, e.key),
        i < s.len() ==> !key_lt(s[i].key, e.key) && s[i].key != e.key,
    ensures
        entries_sorted(s.insert(i, e), |e2: EntryView| e2.key),
{
    let s2 = s.insert(i, e);
    assert forall|p: int, q: int| 0 <= p < q < s2.len() implies key_lt(
        (|e2: EntryView| e2.key)(#[trigger] s2[p]),
        (|e2: EntryView| e2.key)(#[trigger] s2[q]),
    ) by {
        let sp = if p < i {
            s[p]
        } else if p == i {
            e
        } else {
            s[p - 1]
        };
        let sq = if q < i {
            s[q]
        } else if q == i {
            e
        } else {
            s[q - 1]
        };
        assert(s2[p] == sp && s2[q] == sq);
        if p < i && q == i {
        } else if p == i && q > i {
            // e sorts before s[i] and everything after it
            crate::kv::lemma_key_le_total(s[i].key, e.key);
            if q - 1 > i {
                assert(key_lt(s[i].key, s[q - 1].key));
                crate::kv::lemma_key_le_trans(e.key, s[i].key, s[q - 1].key);
                assert(e.key != s[q - 1].key) by {
                    if e.key == s[q - 1].key {
                        crate::kv::lemma_key_le_total(e.key, s[i].key);
                    }
                }
            }
        } else if p < i && q > i {
            assert(key_lt(s[p].key, s[q - 1].key) || p == q - 1);
        }
    }
}

} // verus!
