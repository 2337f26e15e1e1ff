//! The levels controller: per-level size targets, compaction candidate
//! selection, sub-compaction splits, and the merge that rewrites tables.

use vstd::prelude::*;

use crate::errors::DBError;
use crate::kv::{entries_sorted, is_key_ts, key_le, key_lt, ts_of, user_key_of, ValueMeta};
use crate::level::compaction::{
    range_is_empty, range_wf, ranges_overlap, status_eq, CompactStatus, KeyRange,
};
use crate::table::write::EntryView;

verus! {

broadcast use vstd::std_specs::hash::group_hash_axioms;

/// What compaction needs to know about one immutable table.
#[derive(Debug, Clone)]
pub struct TableMeta {
    pub id: u64,
    pub smallest: Vec<u8>,
    pub biggest: Vec<u8>,
    pub size: u64,
    pub max_version: u64,
    pub stale_data_size: u64,
    pub created_at: u64,
}

impl TableMeta {
    pub open spec fn wf(&self) -> bool {
        &&& is_key_ts(self.smallest@)
        &&& is_key_ts(self.biggest@)
        &&& key_le(self.smallest@, self.biggest@)
    }

    /// The key range this table covers.
    pub fn key_range(&self) -> (r: KeyRange)
        requires
            self.wf(),
        ensures
            r@.left == self.smallest@,
            r@.right == self.biggest@,
            !r@.inf,
            range_wf(r@),
            !range_is_empty(r@),
    {
        KeyRange::new(
            vstd::slice::slice_to_vec(self.smallest.as_slice()),
            vstd::slice::slice_to_vec(self.biggest.as_slice()),
        )
    }
}

/// The sorted, mostly non-overlapping table set of one level. Level 0
/// is the exception: overlapping tables in flush order.
pub struct LevelHandler {
    pub level: usize,
    pub tables: Vec<TableMeta>,
}

impl LevelHandler {
    pub open spec fn wf(&self) -> bool {
        &&& forall|i: int| 0 <= i < self.tables@.len() ==> (#[trigger] self.tables@[i]).wf()
        &&& self.level > 0 ==> forall|i: int, j: int|
            #![trigger self.tables@[i], self.tables@[j]]
            0 <= i < j < self.tables@.len() ==> key_lt(
                self.tables@[i].biggest@,
                self.tables@[j].smallest@,
            )
    }

    pub fn new(level: usize) -> (r: LevelHandler)
        ensures
            r.wf(),
            r.level == level,
            r.tables@.len() == 0,
    {
        LevelHandler { level, tables: Vec::new() }
    }

    pub fn get_level(&self) -> (r: usize)
        ensures
            r == self.level,
    {
        self.level
    }

    pub fn num_tables(&self) -> (r: usize)
        ensures
            r == self.tables@.len(),
    {
        self.tables.len()
    }

    /// The total bytes this level holds.
    pub fn get_total_size(&self) -> (r: u64)
        ensures
            r == total_size_of(self.tables@),
    {
        let n = self.tables.len();
        let mut sum: u64 = 0;
        let mut i: usize = 0;
        while i < n
            invariant
                i <= n == self.tables@.len(),
                sum == total_size_of(self.tables@.take(i as int)),
            decreases n - i,
        {
            let s = self.tables[i].size;
            proof {
                assert(self.tables@.take(i + 1).drop_last() =~= self.tables@.take(i as int));
            }
            if s <= u64::MAX - sum {
                sum = sum + s;
            } else {
                sum = u64::MAX;
            }
            i = i + 1;
        }
        proof {
            assert(self.tables@.take(n as int) =~= self.tables@);
        }
        sum
    }

    /// The span of tables whose ranges touch `kr`: every table inside
    /// the span overlaps it, and on a sorted level nothing outside the
    /// span does.
    pub fn overlapping_tables(&self, kr: &KeyRange) -> (r: (usize, usize))
        requires
            self.wf(),
            range_wf(kr@),
            !range_is_empty(kr@),
        ensures
            r.0 <= r.1 <= self.tables@.len(),
            forall|k: int|
                r.0 <= k < r.1 ==> ranges_overlap(table_range(#[trigger] self.tables@[k]), kr@),
            self.level > 0 ==> forall|k: int|
                0 <= k < self.tables@.len() && !(r.0 <= k < r.1) ==> !ranges_overlap(
                    table_range(#[trigger] self.tables@[k]),
                    kr@,
                ),
    {
        let n = self.tables.len();
        let mut l: usize = 0;
        // find the first overlapping table
        while l < n
            invariant_except_break
                l <= n,
            invariant
                n == self.tables@.len(),
                self.wf(),
                range_wf(kr@),
                !range_is_empty(kr@),
                forall|k: int|
                    0 <= k < l ==> !ranges_overlap(table_range(#[trigger] self.tables@[k]), kr@),
            ensures
                l <= n,
                l < n ==> ranges_overlap(table_range(self.tables@[l as int]), kr@),
            decreases n - l,
        {
            proof {
                assert(self.tables@[l as int].wf());
            }
            if self.tables[l].key_range().is_overlaps_with(kr) {
                break ;
            }
            l = l + 1;
        }
        if l == n {
            return (n, n);
        }
        // extend the span while tables keep overlapping
        let mut r: usize = l;
        while r < n
            invariant_except_break
                l <= r <= n,
            invariant
                n == self.tables@.len(),
                l < n,
                self.wf(),
                range_wf(kr@),
                !range_is_empty(kr@),
                ranges_overlap(table_range(self.tables@[l as int]), kr@),
                forall|k: int|
                    0 <= k < l ==> !ranges_overlap(table_range(#[trigger] self.tables@[k]), kr@),
                forall|k: int|
                    l <= k < r ==> ranges_overlap(table_range(#[trigger] self.tables@[k]), kr@),
            ensures
                l <= r <= n,
                r < n ==> !ranges_overlap(table_range(self.tables@[r as int]), kr@),
            decreases n - r,
        {
            proof {
                assert(self.tables@[r as int].wf());
            }
            if !self.tables[r].key_range().is_overlaps_with(kr) {
                break ;
            }
            r = r + 1;
        }
        proof {
            if self.level > 0 && r < n {
                assert(l < r) by {
                    if l == r {
                        assert(ranges_overlap(table_range(self.tables@[l as int]), kr@));
                    }
                }
                lemma_span_closed_above(self, kr@, l as int, r as int);
            }
        }
        (l, r)
    }
}

/// On a sorted level, once a table past an overlapping run fails to
/// overlap, every later table fails too.
proof fn lemma_span_closed_above(
    h: &LevelHandler,
    kr: crate::level::compaction::KeyRangeView,
    l: int,
    r: int,
)
    requires
        h.wf(),
        h.level > 0,
        range_wf(kr),
        !range_is_empty(kr),
        0 <= l < r <= h.tables@.len() - 1,
        ranges_overlap(table_range(h.tables@[r - 1]), kr),
        !ranges_overlap(table_range(h.tables@[r]), kr),
    ensures
        forall|k: int|
            r <= k < h.tables@.len() ==> !ranges_overlap(table_range(#[trigger] h.tables@[k]), kr),
{
    let tr = h.tables@[r];
    let tp = h.tables@[r - 1];
    assert(tr.wf() && tp.wf());
    if kr.inf {
        assert(ranges_overlap(table_range(tr), kr));
    }
    // the failing side cannot be the left bound: the previous table
    // still reaches the range
    assert(key_le(kr.left, tp.biggest@));
    assert(key_lt(tp.biggest@, tr.smallest@));
    assert(key_le(kr.left, tr.biggest@)) by {
        crate::kv::lemma_key_le_trans(kr.left, tp.biggest@, tr.smallest@);
        crate::kv::lemma_key_le_trans(kr.left, tr.smallest@, tr.biggest@);
    }
    // so the range ends before this table starts
    assert(!key_le(tr.smallest@, kr.right));
    crate::kv::lemma_key_le_total(tr.smallest@, kr.right);
    assert(key_le(kr.right, tr.smallest@) && kr.right != tr.smallest@);
    assert forall|k: int|
        r <= k < h.tables@.len() implies !ranges_overlap(
        table_range(#[trigger] h.tables@[k]),
        kr,
    ) by {
        let tk = h.tables@[k];
        assert(tk.wf());
        if k > r {
            assert(key_lt(tr.biggest@, tk.smallest@));
            assert(key_le(kr.right, tk.smallest@)) by {
                crate::kv::lemma_key_le_trans(kr.right, tr.smallest@, tr.biggest@);
                crate::kv::lemma_key_le_trans(kr.right, tr.biggest@, tk.smallest@);
            }
            assert(kr.right != tk.smallest@) by {
                if kr.right == tk.smallest@ {
                    crate::kv::lemma_key_le_trans(tr.biggest@, tk.smallest@, tr.smallest@) ;
                    crate::kv::lemma_key_le_total(tr.biggest@, tr.smallest@);
                    crate::kv::lemma_key_le_trans(tk.smallest@, tr.smallest@, tr.biggest@);
                }
            }
            if key_le(tk.smallest@, kr.right) {
                crate::kv::lemma_key_le_total(tk.smallest@, kr.right);
            }
        } else {
            if key_le(tk.smallest@, kr.right) {
                crate::kv::lemma_key_le_total(tk.smallest@, kr.right);
            }
        }
    }
}

/// Reserving a range and then releasing it puts the registry back:
/// the pushed copy is the only occurrence of its range on the level,
/// so the release removes exactly it.
pub proof fn lemma_restore_after_push(
    cs0: CompactStatus,
    cs_mid: CompactStatus,
    cs_end: CompactStatus,
    level: int,
    rv: crate::level::compaction::KeyRangeView,
)
    requires
        cs0.wf(),
        cs_mid.wf(),
        0 <= level < cs0.levels@.len(),
        cs_mid.levels@.len() == cs0.levels@.len(),
        cs_mid.levels@[level].ranges@.len() == cs0.levels@[level].ranges@.len() + 1,
        (cs_mid.levels@[level].ranges@.last())@ == rv,
        forall|k: int|
            0 <= k < cs0.levels@[level].ranges@.len() ==> #[trigger] cs_mid.levels@[
                level
            ].ranges@[k] == cs0.levels@[level].ranges@[k],
        forall|l: int|
            0 <= l < cs0.levels@.len() && l != level ==> #[trigger] cs_mid.levels@[l]
                == cs0.levels@[l],
        cs_mid.tables == cs0.tables,
        cs_end.tables == cs_mid.tables,
        cs_end.levels@.len() == cs_mid.levels@.len(),
        forall|l: int|
            0 <= l < cs_mid.levels@.len() && l != level ==> #[trigger] cs_end.levels@[l]
                == cs_mid.levels@[l],
        (exists|i: int|
            0 <= i < cs_mid.levels@[level].ranges@.len() && (#[trigger] cs_mid.levels@[
                level
            ].ranges@[i])@ == rv) ==> exists|i: int|
            {
                &&& 0 <= i < cs_mid.levels@[level].ranges@.len()
                &&& (#[trigger] cs_mid.levels@[level].ranges@[i])@ == rv
                &&& cs_end.levels@[level].ranges@ == cs_mid.levels@[level].ranges@.remove(i)
            },
    ensures
        status_eq(cs_end, cs0),
{
    let n0 = cs0.levels@[level].ranges@.len() as int;
    assert((cs_mid.levels@[level].ranges@[n0])@ == rv);
    let i = choose|i: int|
        {
            &&& 0 <= i < cs_mid.levels@[level].ranges@.len()
            &&& (#[trigger] cs_mid.levels@[level].ranges@[i])@ == rv
            &&& cs_end.levels@[level].ranges@ == cs_mid.levels@[level].ranges@.remove(i)
        };
    crate::level::compaction::lemma_range_registered_once(cs_mid, level, i, n0);
    assert(i == n0);
    assert(crate::level::compaction::levels_view(cs_end) =~= crate::level::compaction::levels_view(
        cs0,
    )) by {
        assert forall|l: int|
            0 <= l < cs0.levels@.len() implies crate::level::compaction::levels_view(cs_end)[l]
            =~= crate::level::compaction::levels_view(cs0)[l] by {
            if l != level {
                assert(cs_end.levels@[l] == cs_mid.levels@[l]);
                assert(cs_mid.levels@[l] == cs0.levels@[l]);
            } else {
                assert forall|k: int|
                    0 <= k < cs0.levels@[l].ranges@.len() implies (#[trigger] cs_end.levels@[
                    l
                ].ranges@[k])@ == (cs0.levels@[l].ranges@[k])@ by {
                    assert(cs_end.levels@[l].ranges@[k] == cs_mid.levels@[l].ranges@.remove(
                        n0,
                    )[k]);
                    assert(cs_mid.levels@[l].ranges@.remove(n0)[k] == cs_mid.levels@[l].ranges@[
                        k
                    ]);
                    assert(cs_mid.levels@[l].ranges@[k] == cs0.levels@[l].ranges@[k]);
                }
                assert(cs_end.levels@[l].ranges@.len() == cs0.levels@[l].ranges@.len());
            }
        }
    }
    assert(cs_end.tables@ == cs0.tables@);
}

/// The registry's mathematical image decides `registered_on`: two
/// registries with equal views register alike.
pub proof fn lemma_registered_on_transfer(
    cs: CompactStatus,
    cs_a: CompactStatus,
    cs_b: CompactStatus,
    l1: int,
    r1: crate::level::compaction::KeyRangeView,
    l2: int,
    r2: crate::level::compaction::KeyRangeView,
)
    requires
        registered_on(cs, cs_a, l1, r1, l2, r2),
        status_eq(cs_a, cs_b),
        0 <= l1 < cs_a.levels@.len(),
        0 <= l2 < cs_a.levels@.len(),
    ensures
        registered_on(cs, cs_b, l1, r1, l2, r2),
{
    assert(cs_a.levels@.len() == cs_b.levels@.len()) by {
        assert(crate::level::compaction::levels_view(cs_a).len()
            == crate::level::compaction::levels_view(cs_b).len());
    }
    assert forall|l: int| 0 <= l < cs_a.levels@.len() implies crate::level::compaction::ranges_view(
        cs_a.levels@[l],
    ) == crate::level::compaction::ranges_view(cs_b.levels@[l]) by {
        assert(crate::level::compaction::levels_view(cs_a)[l]
            == crate::level::compaction::levels_view(cs_b)[l]);
    }
    assert(cs_a.levels@[l1].ranges@.len() == cs_b.levels@[l1].ranges@.len()) by {
        assert(crate::level::compaction::ranges_view(cs_a.levels@[l1]).len()
            == crate::level::compaction::ranges_view(cs_b.levels@[l1]).len());
    }
    assert(cs_a.levels@[l2].ranges@.len() == cs_b.levels@[l2].ranges@.len()) by {
        assert(crate::level::compaction::ranges_view(cs_a.levels@[l2]).len()
            == crate::level::compaction::ranges_view(cs_b.levels@[l2]).len());
    }
    assert forall|k: int|
        0 <= k < cs_b.levels@[l1].ranges@.len() implies (#[trigger] cs.levels@[l1].ranges@[k])@
        == (cs_b.levels@[l1].ranges@[k])@ by {
        assert(crate::level::compaction::ranges_view(cs_a.levels@[l1])[k] == (cs_a.levels@[
            l1
        ].ranges@[k])@);
        assert(crate::level::compaction::ranges_view(cs_b.levels@[l1])[k] == (cs_b.levels@[
            l1
        ].ranges@[k])@);
    }
    assert forall|k: int|
        0 <= k < cs_b.levels@[l2].ranges@.len() implies (#[trigger] cs.levels@[l2].ranges@[k])@
        == (cs_b.levels@[l2].ranges@[k])@ by {
        assert(crate::level::compaction::ranges_view(cs_a.levels@[l2])[k] == (cs_a.levels@[
            l2
        ].ranges@[k])@);
        assert(crate::level::compaction::ranges_view(cs_b.levels@[l2])[k] == (cs_b.levels@[
            l2
        ].ranges@[k])@);
    }
    assert(cs.tables@ == cs_b.tables@);
}

/// Whether two tables' key ranges are disjoint: one ends strictly
/// before the other begins.
pub open spec fn tables_separated(a: TableMeta, b: TableMeta) -> bool {
    key_lt(a.biggest@, b.smallest@) || key_lt(b.biggest@, a.smallest@)
}

impl LevelHandler {
    /// Places a table into a sorted level, keeping the level's strict
    /// order. It succeeds exactly when the table's range is disjoint
    /// from every table already on the level; otherwise the level is
    /// unchanged and the set is invalid.
    pub fn insert_table_sorted(&mut self, t: TableMeta) -> (r: Result<(), crate::errors::DBError>)
        requires
            old(self).wf(),
            old(self).level > 0,
            t.wf(),
        ensures
            final(self).wf(),
            final(self).level == old(self).level,
            r is Ok <==> (forall|j: int|
                0 <= j < old(self).tables@.len() ==> tables_separated(
                    t,
                    #[trigger] old(self).tables@[j],
                )),
            match r {
                Ok(()) => exists|i: int|
                    0 <= i <= old(self).tables@.len() && final(self).tables@ == old(
                        self,
                    ).tables@.insert(i, t),
                Err(e) => e == crate::errors::DBError::Corruption && *final(self) == *old(self),
            },
    {
        let n = self.tables.len();
        let mut i: usize = 0;
        // find the first table at or after the new one
        while i < n
            invariant_except_break
                i <= n,
            invariant
                n == self.tables@.len(),
                self.wf(),
                *self == *old(self),
                t.wf(),
                forall|j: int|
                    0 <= j < i ==> key_lt((#[trigger] self.tables@[j]).smallest@, t.smallest@),
            ensures
                i <= n,
                *self == *old(self),
                forall|j: int|
                    0 <= j < i ==> key_lt((#[trigger] self.tables@[j]).smallest@, t.smallest@),
                i < n ==> key_le(t.smallest@, self.tables@[i as int].smallest@),
            decreases n - i,
        {
            proof {
                assert(self.tables@[i as int].wf());
                crate::kv::lemma_key_le_total(self.tables@[i as int].smallest@, t.smallest@);
            }
            if crate::kv::compare_key_le(t.smallest.as_slice(), self.tables[i].smallest.as_slice())
                {
                break ;
            }
            i = i + 1;
        }
        // the new table must end before its successor starts and begin
        // after its predecessor ends
        if i < n {
            proof {
                assert(self.tables@[i as int].wf());
            }
            if crate::kv::compare_key_le(self.tables[i].smallest.as_slice(), t.biggest.as_slice())
                {
                proof {
                    let s_i = self.tables@[i as int];
                    assert(!tables_separated(t, s_i)) by {
                        crate::kv::lemma_key_le_trans(t.smallest@, s_i.smallest@, s_i.biggest@);
                        if key_lt(t.biggest@, s_i.smallest@) {
                            crate::kv::lemma_key_le_total(t.biggest@, s_i.smallest@);
                        }
                        if key_lt(s_i.biggest@, t.smallest@) {
                            crate::kv::lemma_key_le_total(s_i.biggest@, t.smallest@);
                        }
                    }
                }
                return Err(crate::errors::DBError::Corruption);
            }
        }
        if i > 0 {
            proof {
                assert(self.tables@[i - 1].wf());
            }
            if crate::kv::compare_key_le(t.smallest.as_slice(), self.tables[i - 1].biggest.as_slice())
                {
                proof {
                    let s_p = self.tables@[i - 1];
                    assert(!tables_separated(t, s_p)) by {
                        crate::kv::lemma_key_le_trans(s_p.smallest@, t.smallest@, t.biggest@);
                        if key_lt(s_p.biggest@, t.smallest@) {
                            crate::kv::lemma_key_le_total(s_p.biggest@, t.smallest@);
                        }
                        if key_lt(t.biggest@, s_p.smallest@) {
                            crate::kv::lemma_key_le_total(t.biggest@, s_p.smallest@);
                        }
                    }
                }
                return Err(crate::errors::DBError::Corruption);
            }
        }
        let ghost pre = self.tables@;
        self.tables.insert(i, t);
        proof {
            assert(self.tables@ == pre.insert(i as int, t));
            assert(table_meta_view(self.tables@[i as int]) == table_meta_view(t));
            assert forall|p: int, q: int|
                #![trigger self.tables@[p], self.tables@[q]]
                0 <= p < q < self.tables@.len() implies key_lt(
                self.tables@[p].biggest@,
                self.tables@[q].smallest@,
            ) by {
                let sp: TableMeta = if p < i {
                    pre[p]
                } else if p == i {
                    t
                } else {
                    pre[p - 1]
                };
                let sq: TableMeta = if q < i {
                    pre[q]
                } else if q == i {
                    t
                } else {
                    pre[q - 1]
                };
                assert(self.tables@[p] == sp && self.tables@[q] == sq);
                if q == i {
                    // everything before the slot ends before t begins
                    assert(p < i);
                    assert(crate::kv::key_lt(pre[p].smallest@, t.smallest@));
                    assert(!key_le(t.smallest@, pre[i - 1].biggest@));
                    crate::kv::lemma_key_le_total(t.smallest@, pre[i - 1].biggest@);
                    if p < i - 1 {
                        assert(key_lt(pre[p].biggest@, pre[i - 1].smallest@));
                        assert(pre[i - 1].wf());
                        crate::kv::lemma_key_le_trans(
                            pre[p].biggest@,
                            pre[i - 1].smallest@,
                            pre[i - 1].biggest@,
                        );
                        crate::kv::lemma_key_le_trans(
                            pre[p].biggest@,
                            pre[i - 1].biggest@,
                            t.smallest@,
                        );
                        assert(pre[p].biggest@ != t.smallest@) by {
                            if pre[p].biggest@ == t.smallest@ {
                                crate::kv::lemma_key_le_total(
                                    pre[i - 1].biggest@,
                                    t.smallest@,
                                );
                                crate::kv::lemma_key_le_trans(
                                    pre[i - 1].smallest@,
                                    pre[i - 1].biggest@,
                                    t.smallest@,
                                );
                                crate::kv::lemma_key_le_total(
                                    pre[p].biggest@,
                                    pre[i - 1].smallest@,
                                );
                            }
                        }
                    }
                } else if p == i {
                    // t ends before the slot's old occupant begins
                    assert(q > i);
                    assert(!key_le(pre[i as int].smallest@, t.biggest@));
                    crate::kv::lemma_key_le_total(pre[i as int].smallest@, t.biggest@);
                    if q - 1 > i {
                        assert(key_lt(pre[i as int].biggest@, pre[q - 1].smallest@));
                        assert(pre[i as int].wf());
                        crate::kv::lemma_key_le_trans(
                            t.biggest@,
                            pre[i as int].smallest@,
                            pre[i as int].biggest@,
                        );
                        crate::kv::lemma_key_le_trans(
                            t.biggest@,
                            pre[i as int].biggest@,
                            pre[q - 1].smallest@,
                        );
                        assert(t.biggest@ != pre[q - 1].smallest@) by {
                            if t.biggest@ == pre[q - 1].smallest@ {
                                crate::kv::lemma_key_le_total(
                                    pre[i as int].biggest@,
                                    pre[q - 1].smallest@,
                                );
                                crate::kv::lemma_key_le_trans(
                                    pre[i as int].smallest@,
                                    pre[i as int].biggest@,
                                    pre[q - 1].smallest@,
                                );
                                crate::kv::lemma_key_le_total(
                                    t.biggest@,
                                    pre[i as int].smallest@,
                                );
                            }
                        }
                    }
                } else {
                    assert(key_lt(sp.biggest@, sq.smallest@));
                }
            }
            // the re-established order around the slot is exactly the
            // new table's separation from every old one
            assert forall|j: int| 0 <= j < pre.len() implies tables_separated(
                t,
                #[trigger] pre[j],
            ) by {
                if j < i {
                    assert(self.tables@[j] == pre[j] && self.tables@[i as int] == t);
                    assert(key_lt(self.tables@[j].biggest@, self.tables@[i as int].smallest@));
                } else {
                    assert(self.tables@[j + 1] == pre[j] && self.tables@[i as int] == t);
                    assert(key_lt(self.tables@[i as int].biggest@, self.tables@[j + 1].smallest@));
                }
            }
            assert(exists|ii: int|
                0 <= ii <= pre.len() && self.tables@ == pre.insert(ii, t)) by {
                assert(self.tables@ == pre.insert(i as int, t));
            }
        }
        Ok(())
    }
}

/// A table's metadata as plain mathematical values.
pub open spec fn table_meta_view(t: TableMeta) -> (u64, Seq<u8>, Seq<u8>, u64, u64, u64, u64) {
    (t.id, t.smallest@, t.biggest@, t.size, t.max_version, t.stale_data_size, t.created_at)
}

/// The registry after a successful two-level reservation: each of the
/// two levels gained exactly the given range at the end, and nothing
/// else moved.
pub open spec fn registered_on(
    cs: CompactStatus,
    cs0: CompactStatus,
    l1: int,
    r1: crate::level::compaction::KeyRangeView,
    l2: int,
    r2: crate::level::compaction::KeyRangeView,
) -> bool {
    &&& cs.levels@.len() == cs0.levels@.len()
    &&& cs.levels@[l1].ranges@.len() == cs0.levels@[l1].ranges@.len() + 1
    &&& (cs.levels@[l1].ranges@.last())@ == r1
    &&& forall|k: int|
        0 <= k < cs0.levels@[l1].ranges@.len() ==> (#[trigger] cs.levels@[l1].ranges@[k])@
            == (cs0.levels@[l1].ranges@[k])@
    &&& cs.levels@[l2].ranges@.len() == cs0.levels@[l2].ranges@.len() + 1
    &&& (cs.levels@[l2].ranges@.last())@ == r2
    &&& forall|k: int|
        0 <= k < cs0.levels@[l2].ranges@.len() ==> (#[trigger] cs.levels@[l2].ranges@[k])@
            == (cs0.levels@[l2].ranges@[k])@
    &&& forall|l: int|
        0 <= l < cs0.levels@.len() && l != l1 && l != l2
            ==> #[trigger] crate::level::compaction::levels_view(cs)[l]
            == crate::level::compaction::levels_view(cs0)[l]
    &&& cs.tables@ == cs0.tables@
}

/// The range a table covers, as a mathematical value./// The range a table covers, as a mathematical value.
pub open spec fn table_range(t: TableMeta) -> crate::level::compaction::KeyRangeView {
    crate::level::compaction::KeyRangeView { left: t.smallest@, right: t.biggest@, inf: false }
}

/// Saturating sum of the tables' sizes.
pub open spec fn total_size_of(ts: Seq<TableMeta>) -> u64
    decreases ts.len(),
{
    if ts.len() == 0 {
        0u64
    } else {
        let rest = total_size_of(ts.drop_last());
        if ts.last().size <= u64::MAX - rest {
            (rest + ts.last().size) as u64
        } else {
            u64::MAX
        }
    }
}

// ---------------------------------------------------------------------
// Level size targets
// ---------------------------------------------------------------------

/// Per-level size and file-size targets, and the base level: the
/// shallowest level whose target is at or below the configured floor.
pub struct Targets {
    pub base_level: usize,
    pub target_size: Vec<u64>,
    pub file_size: Vec<u64>,
}

/// What the target size of level `i` is: the last level's size, divided
/// by the multiplier once per level going up, floored at the base size.
pub open spec fn target_size_at(last_level_size: u64, base_size: u64, mult: u64, i: int, levels: int) -> u64
    decreases levels - i,
{
    if i >= levels - 1 {
        max_u64(last_level_size, base_size)
    } else {
        let below = shrink_at(last_level_size, mult, levels - 1 - i);
        max_u64(below, base_size)
    }
}

/// `size / mult^steps`, computed step by step.
pub open spec fn shrink_at(size: u64, mult: u64, steps: int) -> u64
    recommends
        mult >= 1,
    decreases steps,
{
    if steps <= 0 {
        size
    } else {
        (shrink_at(size, mult, steps - 1) / mult) as u64
    }
}

pub open spec fn max_u64(a: u64, b: u64) -> u64 {
    if a >= b {
        a
    } else {
        b
    }
}

/// Computes the per-level targets: starting from the last level's total
/// size, each shallower level's target divides by the level-size
/// multiplier, floored at the base size; the base level is the
/// shallowest with its target at the floor. File-size targets scale by
/// the table-size multiplier below the base level.
pub fn level_targets(
    levels_len: usize,
    last_level_size: u64,
    base_level_size: u64,
    level_size_multiplier: u64,
    base_table_size: u64,
    memtable_size: u64,
    table_size_multiplier: u64,
) -> (r: Targets)
    requires
        levels_len >= 1,
        level_size_multiplier >= 2,
        table_size_multiplier >= 2,
        base_level_size >= 1,
    ensures
        r.target_size@.len() == levels_len,
        r.file_size@.len() == levels_len,
        r.base_level < levels_len,
        forall|i: int|
            1 <= i < levels_len ==> #[trigger] r.target_size@[i] == target_size_at(
                last_level_size,
                base_level_size,
                level_size_multiplier,
                i,
                levels_len as int,
            ),
        r.file_size@.len() > 0 ==> r.file_size@[0] == memtable_size,
        forall|i: int|
            1 <= i <= r.base_level && i < levels_len ==> #[trigger] r.file_size@[i]
                == base_table_size,
        r.base_level == 0 || r.target_size@[r.base_level as int] <= base_level_size,
{
    let mut target_size: Vec<u64> = Vec::new();
    let mut file_size: Vec<u64> = Vec::new();
    let mut i: usize = 0;
    while i < levels_len
        invariant
            i <= levels_len,
            target_size@.len() == i,
            file_size@.len() == i,
        decreases levels_len - i,
    {
        target_size.push(0);
        file_size.push(0);
        i = i + 1;
    }
    let mut base_level: usize = 0;
    let mut level_size = last_level_size;
    let mut li: usize = levels_len;
    while li > 1
        invariant
            1 <= li <= levels_len,
            target_size@.len() == levels_len,
            file_size@.len() == levels_len,
            base_level < levels_len,
            level_size == shrink_at(
                last_level_size,
                level_size_multiplier,
                levels_len as int - li as int,
            ),
            level_size_multiplier >= 2,
            base_level_size >= 1,
            forall|k: int|
                li <= k < levels_len ==> #[trigger] target_size@[k] == target_size_at(
                    last_level_size,
                    base_level_size,
                    level_size_multiplier,
                    k,
                    levels_len as int,
                ),
            base_level == 0 || target_size@[base_level as int] <= base_level_size,
            base_level == 0 || li <= base_level < levels_len,
        decreases li,
    {
        let idx = li - 1;
        let t = if level_size >= base_level_size {
            level_size
        } else {
            base_level_size
        };
        target_size.set(idx, t);
        if base_level == 0 && level_size <= base_level_size {
            base_level = idx;
        }
        level_size = level_size / level_size_multiplier;
        li = idx;
    }
    let mut table_sz = base_table_size;
    let mut fi: usize = 0;
    while fi < levels_len
        invariant
            fi <= levels_len,
            target_size@.len() == levels_len,
            file_size@.len() == levels_len,
            base_level < levels_len,
            fi > 0 ==> file_size@[0] == memtable_size,
            forall|k: int| 1 <= k <= base_level && k < fi ==> #[trigger] file_size@[k]
                == base_table_size,
            forall|k: int|
                li <= k < levels_len ==> #[trigger] target_size@[k] == target_size_at(
                    last_level_size,
                    base_level_size,
                    level_size_multiplier,
                    k,
                    levels_len as int,
                ),
            li <= 1,
            table_size_multiplier >= 2,
            fi <= base_level ==> table_sz == base_table_size,
            base_level == 0 || target_size@[base_level as int] <= base_level_size,
        decreases levels_len - fi,
    {
        if fi == 0 {
            file_size.set(fi, memtable_size);
        } else if fi <= base_level {
            file_size.set(fi, table_sz);
        } else {
            if table_sz <= u64::MAX / table_size_multiplier {
                proof {
                    assert(table_sz * table_size_multiplier <= u64::MAX) by (nonlinear_arith)
                        requires
                            table_size_multiplier >= 2,
                            table_sz <= u64::MAX as int / table_size_multiplier as int,
                    ;
                }
                table_sz = table_sz * table_size_multiplier;
            } else {
                table_sz = u64::MAX;
            }
            file_size.set(fi, table_sz);
        }
        fi = fi + 1;
    }
    Targets { base_level, target_size, file_size }
}

// ---------------------------------------------------------------------
// Merging entries during compaction
// ---------------------------------------------------------------------

/// The merge of two runs: at each step the head that sorts first (ties
/// to the first run) comes out next.
pub open spec fn merge_spec(a: Seq<EntryView>, b: Seq<EntryView>) -> Seq<EntryView>
    decreases a.len() + b.len(),
{
    if a.len() == 0 {
        b
    } else if b.len() == 0 {
        a
    } else if key_le(a[0].key, b[0].key) {
        seq![a[0]] + merge_spec(a.drop_first(), b)
    } else {
        seq![b[0]] + merge_spec(a, b.drop_first())
    }
}

/// Merges two strictly sorted runs into one. Both inputs must be free
/// of shared stored keys; the output is exactly `merge_spec` of the
/// two: strictly sorted, holding every entry of both and nothing else.
pub fn merge_sorted(
    a: &Vec<(Vec<u8>, ValueMeta)>,
    b: &Vec<(Vec<u8>, ValueMeta)>,
) -> (r: Vec<(Vec<u8>, ValueMeta)>)
    requires
        entries_sorted(view_pairs(a@), |e: EntryView| e.key),
        entries_sorted(view_pairs(b@), |e: EntryView| e.key),
        forall|i: int| 0 <= i < a@.len() ==> is_key_ts((#[trigger] a@[i]).0@),
        forall|i: int| 0 <= i < b@.len() ==> is_key_ts((#[trigger] b@[i]).0@),
        forall|i: int, j: int|
            0 <= i < a@.len() && 0 <= j < b@.len() ==> (#[trigger] a@[i]).0@ != (
            #[trigger] b@[j]).0@,
    ensures
        view_pairs(r@) == merge_spec(view_pairs(a@), view_pairs(b@)),
        entries_sorted(view_pairs(r@), |e: EntryView| e.key),
        forall|i: int| 0 <= i < r@.len() ==> is_key_ts((#[trigger] r@[i]).0@),
        r@.len() == a@.len() + b@.len(),
        forall|i: int|
            #![trigger view_pairs(a@)[i]]
            0 <= i < a@.len() ==> contains_entry(view_pairs(r@), view_pairs(a@)[i]),
        forall|j: int|
            #![trigger view_pairs(b@)[j]]
            0 <= j < b@.len() ==> contains_entry(view_pairs(r@), view_pairs(b@)[j]),
        forall|k: int|
            #![trigger view_pairs(r@)[k]]
            0 <= k < r@.len() ==> contains_entry(view_pairs(a@), view_pairs(r@)[k])
                || contains_entry(view_pairs(b@), view_pairs(r@)[k]),
{
    let mut out: Vec<(Vec<u8>, ValueMeta)> = Vec::new();
    let na = a.len();
    let nb = b.len();
    let mut i: usize = 0;
    let mut j: usize = 0;
    proof {
        assert(view_pairs(a@).skip(0) =~= view_pairs(a@));
        assert(view_pairs(b@).skip(0) =~= view_pairs(b@));
        assert(view_pairs(out@) =~= Seq::<EntryView>::empty());
    }
    while i < na || j < nb
        invariant
            view_pairs(out@) + merge_spec(
                view_pairs(a@).skip(i as int),
                view_pairs(b@).skip(j as int),
            ) == merge_spec(view_pairs(a@), view_pairs(b@)),
            i <= na == a@.len(),
            j <= nb == b@.len(),
            entries_sorted(view_pairs(a@), |e: EntryView| e.key),
            entries_sorted(view_pairs(b@), |e: EntryView| e.key),
            forall|k: int| 0 <= k < a@.len() ==> is_key_ts((#[trigger] a@[k]).0@),
            forall|k: int| 0 <= k < b@.len() ==> is_key_ts((#[trigger] b@[k]).0@),
            forall|k: int, q: int|
                0 <= k < a@.len() && 0 <= q < b@.len() ==> (#[trigger] a@[k]).0@ != (
                #[trigger] b@[q]).0@,
            entries_sorted(view_pairs(out@), |e: EntryView| e.key),
            forall|k: int| 0 <= k < out@.len() ==> is_key_ts((#[trigger] out@[k]).0@),
            out@.len() == i + j,
            forall|k: int|
                #![trigger view_pairs(a@)[k]]
                0 <= k < i ==> exists|q: int|
                    0 <= q < out@.len() && #[trigger] view_pairs(out@)[q] == view_pairs(a@)[k],
            forall|k: int|
                #![trigger view_pairs(b@)[k]]
                0 <= k < j ==> exists|q: int|
                    0 <= q < out@.len() && #[trigger] view_pairs(out@)[q] == view_pairs(b@)[k],
            forall|q: int|
                #![trigger view_pairs(out@)[q]]
                0 <= q < out@.len() ==> (exists|k: int|
                    0 <= k < a@.len() && view_pairs(out@)[q] == #[trigger] view_pairs(a@)[k]) || (
                exists|k: int|
                    0 <= k < b@.len() && view_pairs(out@)[q] == #[trigger] view_pairs(b@)[k]),
            forall|k: int|
                0 <= k < out@.len() && i < a@.len() ==> key_lt(
                    (#[trigger] out@[k]).0@,
                    a@[i as int].0@,
                ),
            forall|k: int|
                0 <= k < out@.len() && j < b@.len() ==> key_lt(
                    (#[trigger] out@[k]).0@,
                    b@[j as int].0@,
                ),
        decreases na + nb - i - j,
    {
        let take_a = if i >= na {
            false
        } else if j >= nb {
            true
        } else {
            proof {
                assert(is_key_ts(a@[i as int].0@));
                assert(is_key_ts(b@[j as int].0@));
            }
            crate::kv::compare_key_le(a[i].0.as_slice(), b[j].0.as_slice())
        };
        let ghost pre = out@;
        if take_a {
            let e = (vstd::slice::slice_to_vec(a[i].0.as_slice()), clone_value_meta(&a[i].1));
            out.push(e);
            proof {
                let ev = EntryView { key: a@[i as int].0@, val: a@[i as int].1@ };
                assert(view_pairs(out@)[pre.len() as int] == ev);
                assert(view_pairs(a@)[i as int] == ev);
                // one unfolding of the merge: the head of the first run
                // comes out
                let sa = view_pairs(a@).skip(i as int);
                let sb = view_pairs(b@).skip(j as int);
                assert(sa[0] == view_pairs(a@)[i as int]);
                assert(sa.drop_first() =~= view_pairs(a@).skip(i + 1));
                if j < nb {
                    assert(sb[0] == view_pairs(b@)[j as int]);
                    assert(key_le(sa[0].key, sb[0].key));
                    assert(merge_spec(sa, sb) == seq![sa[0]] + merge_spec(sa.drop_first(), sb));
                } else {
                    assert(sb =~= Seq::<EntryView>::empty());
                    assert(merge_spec(sa, sb) == sa);
                    assert(sa =~= seq![sa[0]] + sa.drop_first());
                    assert(merge_spec(view_pairs(a@).skip(i + 1), sb) == view_pairs(a@).skip(
                        i + 1,
                    ));
                }
                assert(view_pairs(out@) =~= view_pairs(pre).push(ev));
                assert(view_pairs(out@) + merge_spec(view_pairs(a@).skip(i + 1), sb)
                    =~= view_pairs(pre) + merge_spec(sa, sb));
                if j < b@.len() {
                    // the head of b stays strictly ahead of what we pushed
                    assert(a@[i as int].0@ != b@[j as int].0@);
                    crate::kv::lemma_key_le_total(a@[i as int].0@, b@[j as int].0@);
                }

                assert forall|k2: int|
                    #![trigger view_pairs(a@)[k2]]
                    0 <= k2 < i + 1 implies exists|q: int|
                        0 <= q < out@.len() && #[trigger] view_pairs(out@)[q] == view_pairs(
                        a@,
                    )[k2] by {
                    if k2 < i {
                        let q = choose|q: int|
                            0 <= q < pre.len() && #[trigger] view_pairs(pre)[q] == view_pairs(
                                a@,
                            )[k2];
                        assert(view_pairs(out@)[q] == view_pairs(pre)[q]);
                    } else {
                        assert(view_pairs(out@)[pre.len() as int] == view_pairs(a@)[k2]);
                    }
                }
                assert forall|k2: int|
                    #![trigger view_pairs(b@)[k2]]
                    0 <= k2 < j implies exists|q: int|
                        0 <= q < out@.len() && #[trigger] view_pairs(out@)[q] == view_pairs(
                        b@,
                    )[k2] by {
                    let q = choose|q: int|
                        0 <= q < pre.len() && #[trigger] view_pairs(pre)[q] == view_pairs(b@)[k2];
                    assert(view_pairs(out@)[q] == view_pairs(pre)[q]);
                }
                assert forall|q: int|
                    #![trigger view_pairs(out@)[q]]
                    0 <= q < out@.len() implies ((exists|k2: int|
                        0 <= k2 < a@.len() && view_pairs(out@)[q] == #[trigger] view_pairs(
                        a@,
                    )[k2]) || (exists|k2: int|
                        0 <= k2 < b@.len() && view_pairs(out@)[q] == #[trigger] view_pairs(
                        b@,
                    )[k2])) by {
                    if q < pre.len() {
                        assert(view_pairs(out@)[q] == view_pairs(pre)[q]);
                    } else {
                        assert(view_pairs(out@)[q] == view_pairs(a@)[i as int]);
                    }
                }
                assert forall|k2: int|
                    0 <= k2 < out@.len() implies is_key_ts((#[trigger] out@[k2]).0@) by {
                    if k2 < pre.len() {
                        assert(out@[k2] == pre[k2]);
                    } else {
                        assert(out@[k2].0@ == a@[i as int].0@);
                    }
                }
                if i + 1 < a@.len() {
                    assert(key_lt(
                        (view_pairs(a@)[i as int]).key,
                        (view_pairs(a@)[i as int + 1]).key,
                    ));
                    assert forall|k: int|
                        0 <= k < out@.len() implies key_lt(
                        (#[trigger] out@[k]).0@,
                        a@[i as int + 1].0@,
                    ) by {
                        if k < pre.len() {
                            crate::kv::lemma_key_le_trans(
                                out@[k].0@,
                                a@[i as int].0@,
                                a@[i as int + 1].0@,
                            );
                            assert(out@[k].0@ != a@[i as int + 1].0@) by {
                                if out@[k].0@ == a@[i as int + 1].0@ {
                                    crate::kv::lemma_key_le_total(
                                        out@[k].0@,
                                        a@[i as int].0@,
                                    );
                                }
                            }
                        }
                    }
                }
                assert forall|k1: int, k2: int|
                    0 <= k1 < k2 < out@.len() implies key_lt(
                    (|e2: EntryView| e2.key)(#[trigger] view_pairs(out@)[k1]),
                    (|e2: EntryView| e2.key)(#[trigger] view_pairs(out@)[k2]),
                ) by {
                    if k2 == out@.len() - 1 {
                        assert(out@[k1] == pre[k1]);
                        assert(key_lt(out@[k1].0@, a@[i as int].0@));
                    } else {
                        assert(out@[k1] == pre[k1] && out@[k2] == pre[k2]);
                        assert(key_lt(
                            (view_pairs(pre)[k1]).key,
                            (view_pairs(pre)[k2]).key,
                        ));
                    }
                }
            }
            i = i + 1;
        } else {
            proof {
                if i < a@.len() {
                    assert(is_key_ts(a@[i as int].0@));
                    assert(is_key_ts(b@[j as int].0@));
                    crate::kv::lemma_key_le_total(a@[i as int].0@, b@[j as int].0@);
                }
            }
            let e = (vstd::slice::slice_to_vec(b[j].0.as_slice()), clone_value_meta(&b[j].1));
            out.push(e);
            proof {
                let ev = EntryView { key: b@[j as int].0@, val: b@[j as int].1@ };
                assert(view_pairs(out@)[pre.len() as int] == ev);
                assert(view_pairs(b@)[j as int] == ev);
                // one unfolding: the head of the second run comes out
                let sa = view_pairs(a@).skip(i as int);
                let sb = view_pairs(b@).skip(j as int);
                assert(sb[0] == view_pairs(b@)[j as int]);
                assert(sb.drop_first() =~= view_pairs(b@).skip(j + 1));
                if i < na {
                    assert(sa[0] == view_pairs(a@)[i as int]);
                    assert(!key_le(sa[0].key, sb[0].key)) by {
                        assert(a@[i as int].0@ != b@[j as int].0@);
                        crate::kv::lemma_key_le_total(sa[0].key, sb[0].key);
                    }
                    assert(merge_spec(sa, sb) == seq![sb[0]] + merge_spec(sa, sb.drop_first()));
                } else {
                    assert(sa =~= Seq::<EntryView>::empty());
                    assert(merge_spec(sa, sb) == sb);
                    assert(sb =~= seq![sb[0]] + sb.drop_first());
                    assert(merge_spec(sa, view_pairs(b@).skip(j + 1)) == view_pairs(b@).skip(
                        j + 1,
                    ));
                }
                assert(view_pairs(out@) =~= view_pairs(pre).push(ev));
                assert(view_pairs(out@) + merge_spec(sa, view_pairs(b@).skip(j + 1))
                    =~= view_pairs(pre) + merge_spec(sa, sb));

                assert forall|k2: int|
                    #![trigger view_pairs(a@)[k2]]
                    0 <= k2 < i implies exists|q: int|
                        0 <= q < out@.len() && #[trigger] view_pairs(out@)[q] == view_pairs(
                        a@,
                    )[k2] by {
                    let q = choose|q: int|
                        0 <= q < pre.len() && #[trigger] view_pairs(pre)[q] == view_pairs(a@)[k2];
                    assert(view_pairs(out@)[q] == view_pairs(pre)[q]);
                }
                assert forall|k2: int|
                    #![trigger view_pairs(b@)[k2]]
                    0 <= k2 < j + 1 implies exists|q: int|
                        0 <= q < out@.len() && #[trigger] view_pairs(out@)[q] == view_pairs(
                        b@,
                    )[k2] by {
                    if k2 < j {
                        let q = choose|q: int|
                            0 <= q < pre.len() && #[trigger] view_pairs(pre)[q] == view_pairs(
                                b@,
                            )[k2];
                        assert(view_pairs(out@)[q] == view_pairs(pre)[q]);
                    } else {
                        assert(view_pairs(out@)[pre.len() as int] == view_pairs(b@)[k2]);
                    }
                }
                assert forall|q: int|
                    #![trigger view_pairs(out@)[q]]
                    0 <= q < out@.len() implies ((exists|k2: int|
                        0 <= k2 < a@.len() && view_pairs(out@)[q] == #[trigger] view_pairs(
                        a@,
                    )[k2]) || (exists|k2: int|
                        0 <= k2 < b@.len() && view_pairs(out@)[q] == #[trigger] view_pairs(
                        b@,
                    )[k2])) by {
                    if q < pre.len() {
                        assert(view_pairs(out@)[q] == view_pairs(pre)[q]);
                    } else {
                        assert(view_pairs(out@)[q] == view_pairs(b@)[j as int]);
                    }
                }
                assert forall|k2: int|
                    0 <= k2 < out@.len() implies is_key_ts((#[trigger] out@[k2]).0@) by {
                    if k2 < pre.len() {
                        assert(out@[k2] == pre[k2]);
                    } else {
                        assert(out@[k2].0@ == b@[j as int].0@);
                    }
                }
                if j + 1 < b@.len() {
                    assert(key_lt(
                        (view_pairs(b@)[j as int]).key,
                        (view_pairs(b@)[j as int + 1]).key,
                    ));
                    assert forall|k: int|
                        0 <= k < out@.len() implies key_lt(
                        (#[trigger] out@[k]).0@,
                        b@[j as int + 1].0@,
                    ) by {
                        if k < pre.len() {
                            crate::kv::lemma_key_le_trans(
                                out@[k].0@,
                                b@[j as int].0@,
                                b@[j as int + 1].0@,
                            );
                            assert(out@[k].0@ != b@[j as int + 1].0@) by {
                                if out@[k].0@ == b@[j as int + 1].0@ {
                                    crate::kv::lemma_key_le_total(
                                        out@[k].0@,
                                        b@[j as int].0@,
                                    );
                                }
                            }
                        }
                    }
                }
                assert forall|k1: int, k2: int|
                    0 <= k1 < k2 < out@.len() implies key_lt(
                    (|e2: EntryView| e2.key)(#[trigger] view_pairs(out@)[k1]),
                    (|e2: EntryView| e2.key)(#[trigger] view_pairs(out@)[k2]),
                ) by {
                    if k2 == out@.len() - 1 {
                        assert(out@[k1] == pre[k1]);
                        assert(key_lt(out@[k1].0@, b@[j as int].0@));
                    } else {
                        assert(out@[k1] == pre[k1] && out@[k2] == pre[k2]);
                        assert(key_lt(
                            (view_pairs(pre)[k1]).key,
                            (view_pairs(pre)[k2]).key,
                        ));
                    }
                }
            }
            j = j + 1;
        }
    }
    proof {
        assert(i == na && j == nb);
        assert(view_pairs(a@).skip(na as int) =~= Seq::<EntryView>::empty());
        assert(view_pairs(b@).skip(nb as int) =~= Seq::<EntryView>::empty());
        assert(view_pairs(out@) + Seq::<EntryView>::empty() =~= view_pairs(out@));
        assert(view_pairs(out@) == merge_spec(view_pairs(a@), view_pairs(b@)));
        assert forall|ii: int|
            #![trigger view_pairs(a@)[ii]]
            0 <= ii < a@.len() implies contains_entry(view_pairs(out@), view_pairs(a@)[ii]) by {
            assert(0 <= ii < i);
            let q = choose|q: int|
                0 <= q < out@.len() && #[trigger] view_pairs(out@)[q] == view_pairs(a@)[ii];
            assert(view_pairs(out@)[q] == view_pairs(a@)[ii]);
        }
        assert forall|jj: int|
            #![trigger view_pairs(b@)[jj]]
            0 <= jj < b@.len() implies contains_entry(view_pairs(out@), view_pairs(b@)[jj]) by {
            assert(0 <= jj < j);
            let q = choose|q: int|
                0 <= q < out@.len() && #[trigger] view_pairs(out@)[q] == view_pairs(b@)[jj];
            assert(view_pairs(out@)[q] == view_pairs(b@)[jj]);
        }
        assert forall|k: int|
            #![trigger view_pairs(out@)[k]]
            0 <= k < out@.len() implies contains_entry(view_pairs(a@), view_pairs(out@)[k])
                || contains_entry(view_pairs(b@), view_pairs(out@)[k]) by {
            if exists|k2: int|
                0 <= k2 < a@.len() && view_pairs(out@)[k as int] == #[trigger] view_pairs(a@)[k2] {
                let k2 = choose|k2: int|
                    0 <= k2 < a@.len() && view_pairs(out@)[k as int] == #[trigger] view_pairs(
                        a@,
                    )[k2];
                assert(view_pairs(a@)[k2] == view_pairs(out@)[k as int]);
                assert(contains_entry(view_pairs(a@), view_pairs(out@)[k]));
            } else {
                let k2 = choose|k2: int|
                    0 <= k2 < b@.len() && view_pairs(out@)[k as int] == #[trigger] view_pairs(
                        b@,
                    )[k2];
                assert(view_pairs(b@)[k2] == view_pairs(out@)[k as int]);
                assert(contains_entry(view_pairs(b@), view_pairs(out@)[k]));
            }
        }
    }
    out
}

/// The mathematical image of a run of pairs.
pub open spec fn view_pairs(s: Seq<(Vec<u8>, ValueMeta)>) -> Seq<EntryView> {
    s.map_values(|p: (Vec<u8>, ValueMeta)| EntryView { key: p.0@, val: p.1@ })
}

/// The run holds this exact pair somewhere.
pub open spec fn contains_entry(s: Seq<EntryView>, e: EntryView) -> bool {
    exists|k: int| 0 <= k < s.len() && #[trigger] s[k] == e
}

/// Copies a value record.
pub fn clone_value_meta(v: &ValueMeta) -> (r: ValueMeta)
    ensures
        r@ == v@,
{
    ValueMeta {
        meta: v.meta,
        user_meta: v.user_meta,
        expires_at: v.expires_at,
        value: vstd::slice::slice_to_vec(v.value.as_slice()),
    }
}

// ---------------------------------------------------------------------
// Dropping superseded versions
// ---------------------------------------------------------------------

/// Whether entry `i` of a sorted run is superseded: some earlier entry
/// of the same user key already sits at or below the discard mark.
pub open spec fn superseded(s: Seq<EntryView>, i: int, discard_ts: u64) -> bool {
    exists|j: int|
        0 <= j < i && user_key_of((#[trigger] s[j]).key) == user_key_of(s[i].key) && ts_of(
            s[j].key,
        ) <= discard_ts
}

/// The entries a compaction keeps: every version above the discard
/// mark, plus the newest version at or below it for each user key.
pub open spec fn keep_versions(s: Seq<EntryView>, discard_ts: u64) -> Seq<EntryView>
    decreases s.len(),
{
    if s.len() == 0 {
        Seq::empty()
    } else if superseded(s, s.len() - 1, discard_ts) {
        keep_versions(s.drop_last(), discard_ts)
    } else {
        keep_versions(s.drop_last(), discard_ts).push(s.last())
    }
}

/// In the engine's order, equal user keys sit next to each other.
proof fn lemma_user_keys_contiguous(s: Seq<EntryView>, j: int, k: int, i: int)
    requires
        entries_sorted(s, |e: EntryView| e.key),
        forall|q: int| 0 <= q < s.len() ==> is_key_ts((#[trigger] s[q]).key),
        0 <= j <= k <= i < s.len(),
        user_key_of(s[j].key) == user_key_of(s[i].key),
    ensures
        user_key_of(s[k].key) == user_key_of(s[i].key),
{
    if j < k && k < i {
        assert(key_lt((|e: EntryView| e.key)(s[j]), (|e: EntryView| e.key)(s[k])));
        assert(key_lt((|e: EntryView| e.key)(s[k]), (|e: EntryView| e.key)(s[i])));
        let uj = user_key_of(s[j].key);
        let uk = user_key_of(s[k].key);
        let ui = user_key_of(s[i].key);
        crate::codec::lemma_lex_le_total(uj, uk);
        crate::codec::lemma_lex_le_total(uk, ui);
        if uk != ui {
            assert(crate::codec::lex_le(uj, uk) || uj == uk);
            assert(crate::codec::lex_le(uk, ui) || uk == ui);
            if uj == uk {
            } else {
                crate::codec::lemma_lex_le_trans(ui, uj, uk);
                crate::codec::lemma_lex_le_trans(uk, ui, uj);
            }
        }
    }
}

/// Walks a sorted run once, keeping every version above the discard
/// mark and the newest version at or below it per user key.
pub fn drop_obsolete(
    s: &Vec<(Vec<u8>, ValueMeta)>,
    discard_ts: u64,
) -> (r: Vec<(Vec<u8>, ValueMeta)>)
    requires
        entries_sorted(view_pairs(s@), |e: EntryView| e.key),
        forall|i: int| 0 <= i < s@.len() ==> is_key_ts((#[trigger] s@[i]).0@),
    ensures
        view_pairs(r@) == keep_versions(view_pairs(s@), discard_ts),
{
    let ghost vs = view_pairs(s@);
    let mut out: Vec<(Vec<u8>, ValueMeta)> = Vec::new();
    let n = s.len();
    let mut i: usize = 0;
    let mut seen_below: bool = false;
    proof {
        assert(vs.take(0) =~= Seq::<EntryView>::empty());
    }
    while i < n
        invariant
            i <= n == s@.len(),
            vs == view_pairs(s@),
            entries_sorted(vs, |e: EntryView| e.key),
            forall|k: int| 0 <= k < s@.len() ==> is_key_ts((#[trigger] s@[k]).0@),
            view_pairs(out@) == keep_versions(vs.take(i as int), discard_ts),
            i > 0 ==> (seen_below <==> exists|j: int|
                0 <= j < i && user_key_of((#[trigger] vs[j]).key) == user_key_of(
                    vs[i - 1].key,
                ) && ts_of(vs[j].key) <= discard_ts),
            i == 0 ==> !seen_below,
        decreases n - i,
    {
        proof {
            assert(vs[i as int].key == s@[i as int].0@);
            assert(is_key_ts(vs[i as int].key));
        }
        let same_user = if i == 0 {
            false
        } else {
            proof {
                assert(is_key_ts(s@[i as int - 1].0@));
            }
            crate::codec::bytes_equal(
                crate::kv::parse_key(s[i - 1].0.as_slice()),
                crate::kv::parse_key(s[i].0.as_slice()),
            )
        };
        let drop_it = same_user && seen_below;
        proof {
            assert(vs.take(i + 1).drop_last() =~= vs.take(i as int));
            assert(vs.take(i + 1).last() == vs[i as int]);
            // the flag decides exactly the superseded test
            assert(superseded(vs.take(i + 1), i as int, discard_ts) == drop_it) by {
                if drop_it {
                    let j = choose|j: int|
                        0 <= j < i && user_key_of((#[trigger] vs[j]).key) == user_key_of(
                            vs[i - 1].key,
                        ) && ts_of(vs[j].key) <= discard_ts;
                    assert(user_key_of(vs[j].key) == user_key_of(vs[i as int].key));
                    assert(vs.take(i + 1)[j] == vs[j]);
                    assert(vs.take(i + 1)[i as int] == vs[i as int]);
                }
                if superseded(vs.take(i + 1), i as int, discard_ts) {
                    let j = choose|j: int|
                        0 <= j < i && user_key_of((#[trigger] vs.take(i + 1)[j]).key)
                            == user_key_of(vs.take(i + 1)[i as int].key) && ts_of(
                            vs.take(i + 1)[j].key,
                        ) <= discard_ts;
                    assert(vs.take(i + 1)[j] == vs[j]);
                    lemma_user_keys_contiguous(vs, j, i - 1, i as int);
                    assert(same_user);
                    assert(seen_below);
                }
            }
        }
        if !drop_it {
            let e = (vstd::slice::slice_to_vec(s[i].0.as_slice()), clone_value_meta(&s[i].1));
            let ghost pre = out@;
            out.push(e);
            proof {
                assert(view_pairs(out@) =~= view_pairs(pre).push(vs[i as int]));
            }
        }
        let ts_i = crate::kv::parse_ts(s[i].0.as_slice());
        let below = ts_i <= discard_ts;
        let new_seen = below || (same_user && seen_below);
        proof {
            assert((new_seen <==> exists|j: int|
                0 <= j < i + 1 && user_key_of((#[trigger] vs[j]).key) == user_key_of(
                    vs[i as int].key,
                ) && ts_of(vs[j].key) <= discard_ts)) by {
                if new_seen {
                    if below {
                        assert(user_key_of(vs[i as int].key) == user_key_of(vs[i as int].key)
                            && ts_of(vs[i as int].key) <= discard_ts);
                    } else {
                        let j = choose|j: int|
                            0 <= j < i && user_key_of((#[trigger] vs[j]).key) == user_key_of(
                                vs[i - 1].key,
                            ) && ts_of(vs[j].key) <= discard_ts;
                        assert(user_key_of(vs[j].key) == user_key_of(vs[i as int].key));
                    }
                } else {
                    if exists|j: int|
                        0 <= j < i + 1 && user_key_of((#[trigger] vs[j]).key) == user_key_of(
                            vs[i as int].key,
                        ) && ts_of(vs[j].key) <= discard_ts {
                        let j = choose|j: int|
                            0 <= j < i + 1 && user_key_of((#[trigger] vs[j]).key) == user_key_of(
                                vs[i as int].key,
                            ) && ts_of(vs[j].key) <= discard_ts;
                        if j == i {
                        } else {
                            lemma_user_keys_contiguous(vs, j, i - 1, i as int);
                        }
                    }
                }
            }
        }
        seen_below = new_seen;
        i = i + 1;
    }
    proof {
        assert(vs.take(n as int) =~= vs);
    }
    out
}

/// `superseded` looks only backwards, so it agrees with any prefix.
proof fn lemma_superseded_prefix(s: Seq<EntryView>, i: int, discard_ts: u64)
    requires
        0 <= i < s.len(),
    ensures
        i < s.len() - 1 ==> superseded(s.drop_last(), i, discard_ts) == superseded(
            s,
            i,
            discard_ts,
        ),
{
    let pre = s.drop_last();
    if i < s.len() - 1 {
        if superseded(pre, i, discard_ts) {
            let j = choose|j: int|
                0 <= j < i && user_key_of((#[trigger] pre[j]).key) == user_key_of(pre[i].key)
                    && ts_of(pre[j].key) <= discard_ts;
            assert(user_key_of((s[j]).key) == user_key_of(s[i].key) && ts_of(s[j].key)
                <= discard_ts);
        }
        if superseded(s, i, discard_ts) {
            let j = choose|j: int|
                0 <= j < i && user_key_of((#[trigger] s[j]).key) == user_key_of(s[i].key) && ts_of(
                    s[j].key,
                ) <= discard_ts;
            assert(user_key_of((pre[j]).key) == user_key_of(pre[i].key) && ts_of(pre[j].key)
                <= discard_ts);
        }
    }
}

/// Sortedness and validity restrict to any prefix.
proof fn lemma_sorted_prefix(s: Seq<EntryView>)
    requires
        entries_sorted(s, |e: EntryView| e.key),
        forall|i: int| 0 <= i < s.len() ==> is_key_ts((#[trigger] s[i]).key),
        s.len() > 0,
    ensures
        entries_sorted(s.drop_last(), |e: EntryView| e.key),
        forall|i: int| 0 <= i < s.drop_last().len() ==> is_key_ts(
            (#[trigger] s.drop_last()[i]).key,
        ),
{
    let pre = s.drop_last();
    assert(forall|p: int| 0 <= p < pre.len() ==> #[trigger] pre[p] == s[p]);
    assert(forall|p: int, q: int|
        0 <= p < q < pre.len() ==> key_lt(
            (|e: EntryView| e.key)(#[trigger] pre[p]),
            (|e: EntryView| e.key)(#[trigger] pre[q]),
        ));
}

/// Whatever the drop pass keeps was in the run.
pub proof fn lemma_keep_versions_from_original(s: Seq<EntryView>, discard_ts: u64)
    ensures
        forall|k: int|
            0 <= k < keep_versions(s, discard_ts).len() ==> contains_entry(
                s,
                #[trigger] keep_versions(s, discard_ts)[k],
            ),
        keep_versions(s, discard_ts).len() <= s.len(),
    decreases s.len(),
{
    if s.len() > 0 {
        let pre = s.drop_last();
        lemma_keep_versions_from_original(pre, discard_ts);
        let kp = keep_versions(pre, discard_ts);
        let ks = keep_versions(s, discard_ts);
        assert(forall|p: int| 0 <= p < pre.len() ==> #[trigger] pre[p] == s[p]);
        assert forall|k: int| 0 <= k < ks.len() implies contains_entry(s, #[trigger] ks[k]) by {
            if superseded(s, s.len() - 1, discard_ts) || k < ks.len() - 1 {
                assert(ks[k] == kp[k]);
                assert(contains_entry(pre, kp[k]));
                let q = choose|q: int| 0 <= q < pre.len() && #[trigger] pre[q] == kp[k];
                assert(s[q] == pre[q]);
            } else {
                assert(ks[k] == s[s.len() - 1]);
            }
        }
    }
}

/// The drop pass keeps the run sorted.
pub proof fn lemma_keep_versions_sorted(s: Seq<EntryView>, discard_ts: u64)
    requires
        entries_sorted(s, |e: EntryView| e.key),
        forall|i: int| 0 <= i < s.len() ==> is_key_ts((#[trigger] s[i]).key),
    ensures
        entries_sorted(keep_versions(s, discard_ts), |e: EntryView| e.key),
    decreases s.len(),
{
    if s.len() > 0 {
        let pre = s.drop_last();
        lemma_sorted_prefix(s);
        lemma_keep_versions_sorted(pre, discard_ts);
        lemma_keep_versions_from_original(pre, discard_ts);
        let kp = keep_versions(pre, discard_ts);
        let ks = keep_versions(s, discard_ts);
        if !superseded(s, s.len() - 1, discard_ts) {
            assert forall|k1: int, k2: int| 0 <= k1 < k2 < ks.len() implies key_lt(
                (|e: EntryView| e.key)(#[trigger] ks[k1]),
                (|e: EntryView| e.key)(#[trigger] ks[k2]),
            ) by {
                if k2 == ks.len() - 1 {
                    assert(ks[k1] == kp[k1]);
                    assert(contains_entry(pre, kp[k1]));
                    let q = choose|q: int| 0 <= q < pre.len() && #[trigger] pre[q] == kp[k1];
                    assert(pre[q] == s[q]);
                    assert(key_lt(
                        (|e: EntryView| e.key)(s[q]),
                        (|e: EntryView| e.key)(s[s.len() - 1]),
                    ));
                } else {
                    assert(ks[k1] == kp[k1] && ks[k2] == kp[k2]);
                }
            }
        }
    }
}

/// Law: every version above the garbage-collection mark, and the newest
/// version at or below it for each user key, survives the drop pass.
#[verifier::rlimit(60)]
#[verifier::spinoff_prover]
pub proof fn lemma_compaction_preserves_visible(s: Seq<EntryView>, discard_ts: u64)
    requires
        entries_sorted(s, |e: EntryView| e.key),
        forall|i: int| 0 <= i < s.len() ==> is_key_ts((#[trigger] s[i]).key),
    ensures
        forall|i: int|
            0 <= i < s.len() && !superseded(s, i, discard_ts) ==> contains_entry(
                keep_versions(s, discard_ts),
                #[trigger] s[i],
            ),
    decreases s.len(),
{
    if s.len() > 0 {
        let pre = s.drop_last();
        lemma_sorted_prefix(s);
        lemma_compaction_preserves_visible(pre, discard_ts);
        let kp = keep_versions(pre, discard_ts);
        let ks = keep_versions(s, discard_ts);
        assert(forall|p: int| 0 <= p < pre.len() ==> #[trigger] pre[p] == s[p]);
        assert forall|i: int|
            0 <= i < s.len() && !superseded(s, i, discard_ts) implies contains_entry(
            ks,
            #[trigger] s[i],
        ) by {
            if i < s.len() - 1 {
                lemma_superseded_prefix(s, i, discard_ts);
                assert(contains_entry(kp, pre[i]));
                let q = choose|q: int| 0 <= q < kp.len() && #[trigger] kp[q] == pre[i];
                assert(ks[q] == kp[q]);
            } else {
                assert(ks[ks.len() - 1] == s[i]);
            }
        }
    }
}

// ---------------------------------------------------------------------
// The controller
// ---------------------------------------------------------------------

/// The number of bottom tables each sub-compaction takes: a fifth of
/// them, rounded up, never fewer than three.
pub open spec fn split_width(nb: int) -> int {
    let w = nb / 5 + (if nb % 5 == 0 {
        0int
    } else {
        1int
    });
    if w < 3 {
        3
    } else {
        w
    }
}

/// Where the union of the two reserved ranges starts: the smaller of
/// the two left bounds, an empty bound standing for the start of the
/// key space.
pub open spec fn union_left(
    a: crate::level::compaction::KeyRangeView,
    b: crate::level::compaction::KeyRangeView,
) -> Seq<u8> {
    if range_is_empty(a) {
        b.left
    } else if range_is_empty(b) {
        a.left
    } else if a.left.len() == 0 || b.left.len() == 0 {
        Seq::empty()
    } else if key_le(a.left, b.left) {
        a.left
    } else {
        b.left
    }
}

/// One compaction attempt: source and target levels, the chosen table
/// sets, their key ranges, and the sub-ranges for parallel work.
pub struct CompactDef {
    pub compactor_id: usize,
    pub this_level: usize,
    pub next_level: usize,
    pub top: Vec<TableMeta>,
    pub bottom: Vec<TableMeta>,
    pub this_range: KeyRange,
    pub next_range: KeyRange,
    pub splits: Vec<KeyRange>,
    pub this_size: u64,
}

/// Orchestrates the background compaction workers: owns the level
/// handlers and the in-progress range registry.
pub struct LevelsController {
    pub next_file_id: u64,
    pub levels: Vec<LevelHandler>,
    pub compact_status: CompactStatus,
    pub memtable_size: u64,
}

impl LevelsController {
    pub open spec fn wf(&self) -> bool {
        &&& self.levels@.len() >= 1
        &&& self.compact_status.levels@.len() == self.levels@.len()
        &&& self.compact_status.wf()
        &&& forall|l: int| 0 <= l < self.levels@.len() ==> (#[trigger] self.levels@[l]).wf()
        &&& forall|l: int| 0 <= l < self.levels@.len() ==> (#[trigger] self.levels@[l]).level == l
    }

    /// The deepest level.
    pub fn last_level(&self) -> (r: &LevelHandler)
        requires
            self.wf(),
        ensures
            r.level == self.levels@.len() - 1,
            r.wf(),
    {
        &self.levels[self.levels.len() - 1]
    }

    /// Hands out the next table file id.
    pub fn get_reserve_file_id(&mut self) -> (r: u64)
        requires
            old(self).next_file_id < u64::MAX,
        ensures
            r == old(self).next_file_id,
            final(self).next_file_id == old(self).next_file_id + 1,
            final(self).levels == old(self).levels,
            final(self).compact_status == old(self).compact_status,
            final(self).memtable_size == old(self).memtable_size,
    {
        let r = self.next_file_id;
        self.next_file_id = self.next_file_id + 1;
        r
    }

    /// Whether `kr` overlaps any table at or below `level`; decides if
    /// a rewritten table may still shadow older versions further down.
    pub fn check_overlap(&self, kr: &KeyRange, level: usize) -> (r: bool)
        requires
            self.wf(),
            range_wf(kr@),
            !range_is_empty(kr@),
            level <= self.levels@.len(),
        ensures
            r <==> exists|l: int, t: int|
                level <= l < self.levels@.len() && 0 <= t < (#[trigger] self.levels@[l]).tables@
                    .len() && ranges_overlap(table_range(#[trigger] self.levels@[l].tables@[t]), kr@),
    {
        let nl = self.levels.len();
        let mut l = level;
        while l < nl
            invariant
                level <= l <= nl == self.levels@.len(),
                self.wf(),
                range_wf(kr@),
                !range_is_empty(kr@),
                forall|l2: int, t: int|
                    level <= l2 < l && 0 <= t < (#[trigger] self.levels@[l2]).tables@.len()
                        ==> !ranges_overlap(
                        table_range(#[trigger] self.levels@[l2].tables@[t]),
                        kr@,
                    ),
            decreases nl - l,
        {
            let nt = self.levels[l].tables.len();
            let mut t: usize = 0;
            while t < nt
                invariant
                    t <= nt == self.levels@[l as int].tables@.len(),
                    level <= l,
                    l < self.levels@.len(),
                    self.wf(),
                    range_wf(kr@),
                    !range_is_empty(kr@),
                    forall|t2: int|
                        0 <= t2 < t ==> !ranges_overlap(
                            table_range(#[trigger] self.levels@[l as int].tables@[t2]),
                            kr@,
                        ),
                decreases nt - t,
            {
                proof {
                    assert(self.levels@[l as int].tables@[t as int].wf());
                }
                if self.levels[l].tables[t].key_range().is_overlaps_with(kr) {
                    proof {
                        assert(ranges_overlap(
                            table_range(self.levels@[l as int].tables@[t as int]),
                            kr@,
                        ));
                    }
                    return true;
                }
                t = t + 1;
            }
            l = l + 1;
        }
        proof {
            if exists|l2: int, t2: int|
                level <= l2 < self.levels@.len() && 0 <= t2 < (#[trigger] self.levels@[l2]).tables@
                    .len() && ranges_overlap(
                    table_range(#[trigger] self.levels@[l2].tables@[t2]),
                    kr@,
                ) {
                let (l2, t2) = choose|l2: int, t2: int|
                    level <= l2 < self.levels@.len() && 0 <= t2
                        < (#[trigger] self.levels@[l2]).tables@.len() && ranges_overlap(
                        table_range(#[trigger] self.levels@[l2].tables@[t2]),
                        kr@,
                    );
                assert(false);
            }
        }
        false
    }

    /// Level-0 to base-level candidate fill: take the chain of level-0
    /// tables whose ranges overlap starting from the first, pair them
    /// with the overlapping span of the base level, and reserve both
    /// ranges. A collision with an in-progress range aborts the
    /// candidate without touching level state.
    pub fn fill_tables_l0_to_lbase(&mut self, cd: &mut CompactDef) -> (r: bool)
        requires
            old(self).wf(),
            old(cd).this_level == 0,
            0 < old(cd).next_level < old(self).levels@.len(),
        ensures
            final(self).wf(),
            final(self).levels == old(self).levels,
            final(cd).this_level == old(cd).this_level,
            final(cd).next_level == old(cd).next_level,
            !r ==> status_eq(final(self).compact_status, old(self).compact_status),
            r ==> final(cd).top@.len() > 0,
            r ==> forall|k: int|
                0 <= k < final(cd).top@.len() ==> (#[trigger] final(cd).top@[k]).wf(),
            r ==> forall|k: int|
                0 <= k < final(cd).bottom@.len() ==> (#[trigger] final(cd).bottom@[k]).wf(),
            r ==> registered_on(
                final(self).compact_status,
                old(self).compact_status,
                0,
                final(cd).this_range@,
                old(cd).next_level as int,
                final(cd).next_range@,
            ),
            // with a free registry and a non-empty level zero, a
            // candidate is owed
            (old(self).compact_status.levels@[0].ranges@.len() == 0 && old(self).compact_status.levels@[old(cd).next_level as int].ranges@.len() == 0 && old(self).levels@[0].tables@.len() > 0) ==> r,
    {
        let nt = self.levels[0].tables.len();
        if nt == 0 {
            return false;
        }
        let mut top: Vec<TableMeta> = Vec::new();
        proof {
            assert(self.levels@[0].tables@[0].wf());
        }
        let mut kr = self.levels[0].tables[0].key_range();
        top.push(self.levels[0].tables[0].clone_meta());
        let mut t: usize = 1;
        while t < nt
            invariant
                1 <= t <= nt == self.levels@[0].tables@.len(),
                self.wf(),
                range_wf(kr@),
                !range_is_empty(kr@),
                forall|k: int| 0 <= k < top@.len() ==> (#[trigger] top@[k]).wf(),
                top@.len() > 0,
            decreases nt - t,
        {
            proof {
                assert(self.levels@[0].tables@[t as int].wf());
            }
            let trange = self.levels[0].tables[t].key_range();
            if kr.is_overlaps_with(&trange) {
                top.push(self.levels[0].tables[t].clone_meta());
                kr.extend(&trange);
            } else {
                break ;
            }
            t = t + 1;
        }
        let (lo, hi) = self.levels[cd.next_level].overlapping_tables(&kr);
        let mut bottom: Vec<TableMeta> = Vec::new();
        let mut b = lo;
        while b < hi
            invariant
                lo <= b <= hi <= self.levels@[old(cd).next_level as int].tables@.len(),
                self.wf(),
                cd.next_level == old(cd).next_level,
                (old(cd).next_level as int) < self.levels@.len(),
                forall|k: int| 0 <= k < bottom@.len() ==> (#[trigger] bottom@[k]).wf(),
            decreases hi - b,
        {
            proof {
                assert(self.levels@[old(cd).next_level as int].tables@[b as int].wf());
            }
            bottom.push(self.levels[cd.next_level].tables[b].clone_meta());
            b = b + 1;
        }
        let mut next_range = if bottom.len() == 0 {
            KeyRange {
                left: vstd::slice::slice_to_vec(kr.left.as_slice()),
                right: vstd::slice::slice_to_vec(kr.right.as_slice()),
                inf: kr.inf,
            }
        } else {
            let mut nr = bottom[0].key_range();
            let mut k: usize = 1;
            while k < bottom.len()
                invariant
                    1 <= k <= bottom@.len(),
                    range_wf(nr@),
                    !range_is_empty(nr@),
                    forall|q: int| 0 <= q < bottom@.len() ==> (#[trigger] bottom@[q]).wf(),
                decreases bottom@.len() - k,
            {
                let br = bottom[k].key_range();
                nr.extend(&br);
                k = k + 1;
            }
            nr
        };
        proof {
            assert(next_range@.left =~= kr@.left || !range_is_empty(next_range@));
            if bottom@.len() == 0 {
                assert(next_range@.left =~= kr@.left);
                assert(next_range@.right =~= kr@.right);
            }
        }
        let ghost cs0 = self.compact_status;
        if !self.compact_status.compare_and_add(0, &kr) {
            return false;
        }
        let ghost cs1 = self.compact_status;
        if !self.compact_status.compare_and_add(cd.next_level, &next_range) {
            let ghost cs_mid = self.compact_status;
            self.compact_status.delete(0, &kr);
            proof {
                lemma_restore_after_push(cs0, cs_mid, self.compact_status, 0, kr@);
            }
            return false;
        }
        proof {
            assert(registered_on(
                self.compact_status,
                cs0,
                0,
                kr@,
                old(cd).next_level as int,
                next_range@,
            )) by {
                assert(self.compact_status.levels@[0] == cs1.levels@[0]);
            }
        }
        cd.top = top;
        cd.bottom = bottom;
        cd.this_range = kr;
        cd.next_range = next_range;
        true
    }

    /// Whether a level-zero table may join the in-place merge: small
    /// against the level-zero size target, at least the grace period
    /// old, and not already part of a compaction.
    pub open spec fn l0_qualifies(
        t: TableMeta,
        compacting: Seq<u64>,
        now: u64,
        file_size0: u64,
    ) -> bool {
        &&& t.size < file_size0
        &&& now >= t.created_at
        &&& now - t.created_at >= 10
        &&& !compacting.contains(t.id)
    }

    /// How many tables of a run qualify for the in-place merge.
    pub open spec fn l0_qualify_count(
        tables: Seq<TableMeta>,
        compacting: Seq<u64>,
        now: u64,
        file_size0: u64,
    ) -> int
        decreases tables.len(),
    {
        if tables.len() == 0 {
            0
        } else {
            Self::l0_qualify_count(tables.drop_last(), compacting, now, file_size0) + if Self::l0_qualifies(
                tables.last(),
                compacting,
                now,
                file_size0,
            ) {
                1int
            } else {
                0int
            }
        }
    }

    /// Level-0 load shedding, run by worker zero only: gather every
    /// qualifying level-0 table - small, old enough, not already
    /// compacting - and, when at least four qualify, reserve the whole
    /// level-0 key space for merging them in place with nothing below.
    /// After a success the rest of the attempt treats the level-zero
    /// size target as unbounded so the merged output is not split
    /// straight back apart; the build path here emits one table per
    /// compaction, so no code in the library consumes the widened
    /// target.
    pub fn fill_tables_l0_to_l0(&mut self, cd: &mut CompactDef, now: u64, file_size0: u64) -> (r:
        bool)
        requires
            old(self).wf(),
            old(cd).this_level == 0,
        ensures
            final(self).wf(),
            final(self).levels == old(self).levels,
            !r ==> status_eq(final(self).compact_status, old(self).compact_status),
            r ==> final(cd).top@.len() >= 4,
            r ==> final(cd).bottom@.len() == 0,
            r ==> forall|k: int|
                0 <= k < final(cd).top@.len() ==> (#[trigger] final(cd).top@[k]).wf(),
            // exactly the qualifying tables are chosen
            r ==> forall|k: int|
                0 <= k < final(cd).top@.len() ==> Self::l0_qualifies(
                    #[trigger] final(cd).top@[k],
                    old(self).compact_status.tables@,
                    now,
                    file_size0,
                ),
            r ==> final(cd).top@.len() == Self::l0_qualify_count(
                old(self).levels@[0].tables@,
                old(self).compact_status.tables@,
                now,
                file_size0,
            ),
            r ==> final(cd).this_range@.inf,
            // the whole level-zero key space is reserved, and the chosen
            // ids are marked as compacting
            r ==> final(self).compact_status.levels@[0].ranges@.len() == old(self).compact_status.levels@[0].ranges@.len() + 1 && (final(self).compact_status.levels@[0].ranges@.last())@.inf,
            r ==> final(self).compact_status.tables@.len() == old(self).compact_status.tables@.len() + final(cd).top@.len(),
            old(cd).compactor_id != 0 ==> !r && *final(self) == *old(self),
            // fewer than four qualifying tables force a refusal
            Self::l0_qualify_count(
                old(self).levels@[0].tables@,
                old(self).compact_status.tables@,
                now,
                file_size0,
            ) < 4 ==> !r,
            // worker zero is owed the merge when enough tables qualify
            // and level zero's key space is not already reserved
            (old(cd).compactor_id == 0 && old(self).compact_status.levels@[0].ranges@.len() == 0
                && Self::l0_qualify_count(
                old(self).levels@[0].tables@,
                old(self).compact_status.tables@,
                now,
                file_size0,
            ) >= 4) ==> r,
    {
        let ghost tables0 = old(self).levels@[0].tables@;
        let ghost compacting0 = old(self).compact_status.tables@;
        if cd.compactor_id != 0 {
            return false;
        }
        let nt = self.levels[0].tables.len();
        let mut out: Vec<TableMeta> = Vec::new();
        let mut t: usize = 0;
        while t < nt
            invariant
                t <= nt == tables0.len(),
                self.wf(),
                *self == *old(self),
                tables0 == old(self).levels@[0].tables@,
                compacting0 == old(self).compact_status.tables@,
                forall|k: int| 0 <= k < out@.len() ==> (#[trigger] out@[k]).wf(),
                forall|k: int|
                    0 <= k < out@.len() ==> Self::l0_qualifies(
                        #[trigger] out@[k],
                        compacting0,
                        now,
                        file_size0,
                    ),
                out@.len() == Self::l0_qualify_count(
                    tables0.take(t as int),
                    compacting0,
                    now,
                    file_size0,
                ),
            decreases nt - t,
        {
            proof {
                assert(self.levels@[0].tables@[t as int].wf());
                assert(tables0.take(t + 1).drop_last() =~= tables0.take(t as int));
                assert(tables0.take(t + 1).last() == tables0[t as int]);
            }
            let tm = &self.levels[0].tables[t];
            let old_enough = now >= tm.created_at && now - tm.created_at >= 10;
            if tm.size < file_size0 && old_enough && !self.table_is_compacting(tm.id) {
                out.push(tm.clone_meta());
            }
            t = t + 1;
        }
        proof {
            assert(tables0.take(nt as int) =~= tables0);
        }
        if out.len() < 4 {
            return false;
        }
        let inf = KeyRange::new_inf();
        if !self.compact_status.compare_and_add(0, &inf) {
            proof {
                if old(self).compact_status.levels@[0].ranges@.len() == 0 {
                    assert(false);
                }
            }
            return false;
        }
        let ghost cs_added = self.compact_status;
        let mut i: usize = 0;
        while i < out.len()
            invariant
                i <= out@.len(),
                self.wf(),
                self.levels == old(self).levels,
                forall|k: int| 0 <= k < out@.len() ==> (#[trigger] out@[k]).wf(),
                forall|k: int|
                    0 <= k < out@.len() ==> Self::l0_qualifies(
                        #[trigger] out@[k],
                        compacting0,
                        now,
                        file_size0,
                    ),
                out@.len() >= 4,
                out@.len() == Self::l0_qualify_count(tables0, compacting0, now, file_size0),
                self.compact_status.levels == cs_added.levels,
                self.compact_status.tables@.len() == cs_added.tables@.len() + i,
                cs_added.levels@[0].ranges@.len() == old(self).compact_status.levels@[
                    0
                ].ranges@.len() + 1,
                (cs_added.levels@[0].ranges@.last())@.inf,
                cs_added.tables@.len() == old(self).compact_status.tables@.len(),
            decreases out@.len() - i,
        {
            let id = out[i].id;
            self.compact_status.tables.push(id);
            i = i + 1;
        }
        cd.this_range = KeyRange::new_inf();
        cd.next_range = KeyRange::new_empty();
        cd.top = out;
        cd.bottom = Vec::new();
        true
    }

    /// Whether a table id is already part of an in-progress compaction.
    pub fn table_is_compacting(&self, id: u64) -> (r: bool)
        ensures
            r == self.compact_status.tables@.contains(id),
    {
        let n = self.compact_status.tables.len();
        let mut i: usize = 0;
        while i < n
            invariant
                i <= n == self.compact_status.tables@.len(),
                forall|k: int| 0 <= k < i ==> self.compact_status.tables@[k] != id,
            decreases n - i,
        {
            if self.compact_status.tables[i] == id {
                return true;
            }
            i = i + 1;
        }
        proof {
            if self.compact_status.tables@.contains(id) {
                let k = choose|k: int|
                    0 <= k < self.compact_status.tables@.len() && self.compact_status.tables@[k]
                        == id;
            }
        }
        false
    }

    /// General level-to-next-level fill: walk the source tables oldest
    /// data first, pick the first whose range collides with no
    /// in-progress range and whose bottom span is also free, and reserve
    /// both ranges. A failed attempt releases what it reserved, so a
    /// false return leaves the registry exactly as it was; with a free
    /// registry and a non-empty level, a candidate is owed.
    pub fn fill_tables(&mut self, cd: &mut CompactDef) -> (r: bool)
        requires
            old(self).wf(),
            0 < old(cd).this_level < old(self).levels@.len(),
            old(cd).this_level < old(cd).next_level < old(self).levels@.len(),
        ensures
            final(self).wf(),
            final(self).levels == old(self).levels,
            final(cd).this_level == old(cd).this_level,
            final(cd).next_level == old(cd).next_level,
            !r ==> status_eq(final(self).compact_status, old(self).compact_status),
            r ==> {
                &&& final(cd).top@.len() == 1
                &&& final(cd).top@[0].wf()
                &&& exists|i: int|
                    0 <= i < old(self).levels@[old(cd).this_level as int].tables@.len()
                        && table_meta_view(#[trigger] old(self).levels@[
                        old(cd).this_level as int
                    ].tables@[i]) == table_meta_view(final(cd).top@[0])
                &&& final(cd).this_range@.left == final(cd).top@[0].smallest@
                &&& final(cd).this_range@.right == final(cd).top@[0].biggest@
                &&& !final(cd).this_range@.inf
                &&& forall|k: int|
                    0 <= k < final(cd).bottom@.len() ==> (#[trigger] final(cd).bottom@[k]).wf()
                &&& forall|k: int|
                    #![trigger final(cd).bottom@[k]]
                    0 <= k < final(cd).bottom@.len() ==> exists|i: int|
                        0 <= i < old(self).levels@[old(cd).next_level as int].tables@.len()
                            && table_meta_view(#[trigger] old(self).levels@[
                            old(cd).next_level as int
                        ].tables@[i]) == table_meta_view(final(cd).bottom@[k])
                &&& registered_on(
                    final(self).compact_status,
                    old(self).compact_status,
                    old(cd).this_level as int,
                    final(cd).this_range@,
                    old(cd).next_level as int,
                    final(cd).next_range@,
                )
            },
            // a candidate is owed when nothing is reserved on either level
            (old(self).compact_status.levels@[old(cd).this_level as int].ranges@.len() == 0 && old(self).compact_status.levels@[old(cd).next_level as int].ranges@.len() == 0 && old(self).levels@[old(cd).this_level as int].tables@.len() > 0) ==> r,
    {
        let lvl = cd.this_level;
        let nt = self.levels[lvl].tables.len();
        let ghost free_registry = old(self).compact_status.levels@[lvl as int].ranges@.len() == 0
            && old(self).compact_status.levels@[old(cd).next_level as int].ranges@.len() == 0
            && nt > 0;
        // visit source tables in ascending max-version order: oldest
        // data compacts first
        let mut tried: Vec<bool> = Vec::new();
        let mut q: usize = 0;
        while q < nt
            invariant
                q <= nt,
                tried@.len() == q,
                forall|k: int| 0 <= k < q ==> !(#[trigger] tried@[k]),
            decreases nt - q,
        {
            tried.push(false);
            q = q + 1;
        }
        let mut rounds: usize = 0;
        while rounds < nt
            invariant
                rounds <= nt == self.levels@[lvl as int].tables@.len(),
                tried@.len() == nt,
                self.wf(),
                (lvl as int) < self.levels@.len(),
                0 < lvl,
                lvl < old(cd).next_level,
                (old(cd).next_level as int) < self.levels@.len(),
                lvl == old(cd).this_level,
                cd.next_level == old(cd).next_level,
                cd.this_level == old(cd).this_level,
                self.levels == old(self).levels,
                self.wf(),
                status_eq(self.compact_status, old(self).compact_status),
                self.compact_status.levels@.len() == old(self).compact_status.levels@.len(),
                self.compact_status.levels@[lvl as int].ranges@.len() == old(self).compact_status.levels@[lvl as int].ranges@.len(),
                self.compact_status.levels@[old(cd).next_level as int].ranges@.len() == old(self).compact_status.levels@[old(cd).next_level as int].ranges@.len(),
                free_registry == (old(self).compact_status.levels@[lvl as int].ranges@.len() == 0
                    && old(self).compact_status.levels@[
                    old(cd).next_level as int
                ].ranges@.len() == 0 && nt > 0),
                free_registry ==> rounds == 0,
                rounds == 0 ==> forall|k: int| 0 <= k < nt ==> !(#[trigger] tried@[k]),
            decreases nt - rounds,
        {
            // find the untried table with the smallest max version
            let mut best: usize = nt;
            let mut k: usize = 0;
            while k < nt
                invariant
                    k <= nt == self.levels@[lvl as int].tables@.len(),
                    tried@.len() == nt,
                    (lvl as int) < self.levels@.len(),
                    best <= nt,
                    best < nt ==> !tried@[best as int],
                    (exists|k2: int| 0 <= k2 < k && !(#[trigger] tried@[k2])) ==> best < nt,
                decreases nt - k,
            {
                if !tried[k] && (best == nt || self.levels[lvl].tables[k].max_version
                    < self.levels[lvl].tables[best].max_version) {
                    best = k;
                }
                k = k + 1;
            }
            if best == nt {
                proof {
                    if free_registry {
                        assert(!tried@[0]);
                        assert(false);
                    }
                }
                return false;
            }
            tried.set(best, true);
            proof {
                assert(self.levels@[lvl as int].tables@[best as int].wf());
            }
            let table = self.levels[lvl].tables[best].clone_meta();
            let this_range = table.key_range();
            if !self.compact_status.is_overlaps_with(lvl, &this_range) {
                let (lo, hi) = self.levels[cd.next_level].overlapping_tables(&this_range);
                let mut bottom: Vec<TableMeta> = Vec::new();
                let mut b = lo;
                while b < hi
                    invariant
                        lo <= b <= hi <= self.levels@[old(cd).next_level as int].tables@.len(),
                        self.wf(),
                        self.levels == old(self).levels,
                        cd.next_level == old(cd).next_level,
                        (old(cd).next_level as int) < self.levels@.len(),
                        forall|k2: int| 0 <= k2 < bottom@.len() ==> (#[trigger] bottom@[k2]).wf(),
                        forall|k2: int|
                            #![trigger bottom@[k2]]
                            0 <= k2 < bottom@.len() ==> exists|i: int|
                                0 <= i < old(self).levels@[old(cd).next_level as int].tables@.len()
                                    && table_meta_view(#[trigger] old(self).levels@[
                                    old(cd).next_level as int
                                ].tables@[i]) == table_meta_view(bottom@[k2]),
                    decreases hi - b,
                {
                    proof {
                        assert(self.levels@[old(cd).next_level as int].tables@[b as int].wf());
                    }
                    let ghost pre_bottom = bottom@;
                    bottom.push(self.levels[cd.next_level].tables[b].clone_meta());
                    proof {
                        assert forall|k2: int|
                            #![trigger bottom@[k2]]
                            0 <= k2 < bottom@.len() implies exists|i: int|
                                0 <= i < old(self).levels@[old(cd).next_level as int].tables@.len()
                                    && table_meta_view(#[trigger] old(self).levels@[
                                    old(cd).next_level as int
                                ].tables@[i]) == table_meta_view(bottom@[k2]) by {
                            if k2 < pre_bottom.len() {
                                assert(bottom@[k2] == pre_bottom[k2]);
                            } else {
                                assert(table_meta_view(
                                    old(self).levels@[old(cd).next_level as int].tables@[b as int],
                                ) == table_meta_view(bottom@[k2]));
                            }
                        }
                    }
                    b = b + 1;
                }
                let next_range = if bottom.len() == 0 {
                    KeyRange {
                        left: vstd::slice::slice_to_vec(this_range.left.as_slice()),
                        right: vstd::slice::slice_to_vec(this_range.right.as_slice()),
                        inf: this_range.inf,
                    }
                } else {
                    let mut nr = bottom[0].key_range();
                    let mut k2: usize = 1;
                    while k2 < bottom.len()
                        invariant
                            1 <= k2 <= bottom@.len(),
                            range_wf(nr@),
                            !range_is_empty(nr@),
                            forall|q2: int|
                                0 <= q2 < bottom@.len() ==> (#[trigger] bottom@[q2]).wf(),
                        decreases bottom@.len() - k2,
                    {
                        let br = bottom[k2].key_range();
                        nr.extend(&br);
                        k2 = k2 + 1;
                    }
                    nr
                };
                proof {
                    if bottom@.len() == 0 {
                        assert(next_range@.left =~= this_range@.left);
                        assert(next_range@.right =~= this_range@.right);
                    }
                }
                let ghost cs0 = self.compact_status;
                if self.compact_status.compare_and_add(lvl, &this_range) {
                    let ghost cs1 = self.compact_status;
                    if self.compact_status.compare_and_add(cd.next_level, &next_range) {
                        proof {
                            assert(registered_on(
                                self.compact_status,
                                cs0,
                                lvl as int,
                                this_range@,
                                old(cd).next_level as int,
                                next_range@,
                            )) by {
                                assert(self.compact_status.levels@[lvl as int] == cs1.levels@[
                                    lvl as int
                                ]);
                            }
                            lemma_registered_on_transfer(
                                self.compact_status,
                                cs0,
                                old(self).compact_status,
                                lvl as int,
                                this_range@,
                                old(cd).next_level as int,
                                next_range@,
                            );
                        }
                        cd.top = vec_of_one(table);
                        cd.bottom = bottom;
                        cd.this_range = this_range;
                        cd.next_range = next_range;
                        cd.this_size = cd.top[0].size;
                        proof {
                            assert(table_meta_view(
                                old(self).levels@[lvl as int].tables@[best as int],
                            ) == table_meta_view(cd.top@[0]));
                        }
                        return true;
                    }
                    let ghost cs_mid = self.compact_status;
                    self.compact_status.delete(lvl, &this_range);
                    proof {
                        lemma_restore_after_push(cs0, cs_mid, self.compact_status, lvl as int, this_range@);
                        if free_registry {
                            assert(false);
                        }
                    }
                } else {
                    proof {
                        if free_registry {
                            assert(false);
                        }
                    }
                }
            } else {
                proof {
                    if free_registry {
                        assert(false);
                    }
                }
            }
            rounds = rounds + 1;
        }
        proof {
            if free_registry {
                assert(false);
            }
        }
        false
    }

    /// Divides the candidate's key space into contiguous sub-ranges so
    /// that sub-compactions work disjoint keys: a boundary falls on a
    /// bottom table's biggest key once every `width` tables, each piece
    /// starts where the one before it ended, the first starts at the
    /// combined range's left bound, and the last runs to the end of the
    /// key space.
    pub fn add_splits(&self, cd: &mut CompactDef)
        requires
            forall|k: int| 0 <= k < old(cd).bottom@.len() ==> (#[trigger] old(cd).bottom@[k]).wf(),
            range_wf(old(cd).this_range@),
            range_wf(old(cd).next_range@),
            old(cd).this_range@.left.len() > 0 ==> crate::kv::is_key_ts(old(cd).this_range@.left),
            old(cd).next_range@.left.len() > 0 ==> crate::kv::is_key_ts(old(cd).next_range@.left),
        ensures
            final(cd).bottom == old(cd).bottom,
            final(cd).top == old(cd).top,
            final(cd).this_range == old(cd).this_range,
            final(cd).next_range == old(cd).next_range,
            old(cd).bottom@.len() == 0 ==> final(cd).splits@.len() == 0,
            old(cd).bottom@.len() > 0 ==> {
                let width = split_width(old(cd).bottom@.len() as int);
                &&& final(cd).splits@.len() == (old(cd).bottom@.len() - 1) / width + 1
                &&& (final(cd).splits@[0])@.left == union_left(
                    old(cd).this_range@,
                    old(cd).next_range@,
                )
                &&& forall|q: int|
                    0 < q < final(cd).splits@.len() ==> (#[trigger] final(cd).splits@[q])@.left
                        == (final(cd).splits@[q - 1])@.right
                &&& forall|q: int|
                    0 <= q < final(cd).splits@.len() - 1 ==> (#[trigger] final(cd).splits@[q])@.right
                        == crate::kv::key_ts_of(
                        crate::kv::user_key_of(old(cd).bottom@[(q + 1) * width - 1].biggest@),
                        0,
                    )
                &&& (final(cd).splits@.last())@.inf
            },
    {
        cd.splits = Vec::new();
        let nb = cd.bottom.len();
        if nb == 0 {
            return ;
        }
        let mut width = nb / 5 + (if nb % 5 == 0 {
            0
        } else {
            1
        });
        if width < 3 {
            width = 3;
        }
        proof {
            assert(width == split_width(nb as int));
        }
        // the sub-ranges start where the union of the two reserved
        // ranges starts
        let mut left: Vec<u8> = if cd.this_range.is_empty() {
            vstd::slice::slice_to_vec(cd.next_range.left.as_slice())
        } else if cd.next_range.is_empty() {
            vstd::slice::slice_to_vec(cd.this_range.left.as_slice())
        } else if cd.this_range.left.len() == 0 || cd.next_range.left.len() == 0 {
            Vec::new()
        } else {
            proof {
                crate::kv::lemma_key_le_total(cd.this_range@.left, cd.next_range@.left);
            }
            if crate::kv::compare_key_le(
                cd.this_range.left.as_slice(),
                cd.next_range.left.as_slice(),
            ) {
                vstd::slice::slice_to_vec(cd.this_range.left.as_slice())
            } else {
                vstd::slice::slice_to_vec(cd.next_range.left.as_slice())
            }
        };
        proof {
            assert(left@ =~= union_left(cd.this_range@, cd.next_range@));
        }
        let mut i: usize = 0;
        while i < nb - 1
            invariant
                i <= nb - 1,
                nb == cd.bottom@.len(),
                nb >= 1,
                width >= 3,
                width == split_width(nb as int),
                cd.bottom == old(cd).bottom,
                cd.top == old(cd).top,
                cd.this_range == old(cd).this_range,
                cd.next_range == old(cd).next_range,
                forall|k: int| 0 <= k < cd.bottom@.len() ==> (#[trigger] cd.bottom@[k]).wf(),
                cd.splits@.len() == i as int / width as int,
                cd.splits@.len() == 0 ==> left@ == union_left(
                    old(cd).this_range@,
                    old(cd).next_range@,
                ),
                cd.splits@.len() > 0 ==> (cd.splits@[0])@.left == union_left(
                    old(cd).this_range@,
                    old(cd).next_range@,
                ),
                cd.splits@.len() > 0 ==> left@ == (cd.splits@.last())@.right,
                forall|q: int|
                    0 < q < cd.splits@.len() ==> (#[trigger] cd.splits@[q])@.left == (cd.splits@[
                        q - 1
                    ])@.right,
                forall|q: int|
                    0 <= q < cd.splits@.len() ==> (#[trigger] cd.splits@[q])@.right
                        == crate::kv::key_ts_of(
                        crate::kv::user_key_of(cd.bottom@[(q + 1) * width - 1].biggest@),
                        0,
                    ),
            decreases nb - 1 - i,
        {
            proof {
                vstd::arithmetic::div_mod::lemma_fundamental_div_mod(i as int, width as int);
                vstd::arithmetic::div_mod::lemma_fundamental_div_mod(i as int + 1, width as int);
            }
            if i % width == width - 1 {
                proof {
                    assert(cd.bottom@[i as int].wf());
                    assert((cd.splits@.len() + 1) * width as int - 1 == i as int) by (nonlinear_arith)
                        requires
                            i as int == (i as int / width as int) * width as int + (
                            i as int % width as int),
                            cd.splits@.len() == i as int / width as int,
                            i as int % width as int == width as int - 1,
                            width as int >= 3,
                    ;
                    assert(i as int + 1 == (i as int / width as int + 1) * width as int);
                    vstd::arithmetic::div_mod::lemma_div_multiples_vanish(
                        i as int / width as int + 1,
                        width as int,
                    );
                    assert(width as int * (i as int / width as int + 1) == (i as int
                        / width as int + 1) * width as int) by (nonlinear_arith);
                    assert((i as int + 1) / width as int == i as int / width as int + 1);
                }
                // the boundary is the bottom table's biggest user key
                // restamped to the oldest version, so every version of
                // that key falls on one side
                let boundary = crate::kv::key_with_ts(
                    crate::kv::parse_key(cd.bottom[i].biggest.as_slice()),
                    0,
                );
                let boundary_copy = vstd::slice::slice_to_vec(boundary.as_slice());
                let piece = KeyRange { left, right: boundary, inf: false };
                left = boundary_copy;
                let ghost pre = cd.splits@;
                cd.splits.push(piece);
                proof {
                    assert((cd.splits@.last())@.right =~= crate::kv::key_ts_of(
                        crate::kv::user_key_of(cd.bottom@[i as int].biggest@),
                        0,
                    ));
                    assert(left@ =~= (cd.splits@.last())@.right);
                    assert forall|q: int|
                        0 <= q < cd.splits@.len() implies (#[trigger] cd.splits@[q])@.right
                            == crate::kv::key_ts_of(
                            crate::kv::user_key_of(cd.bottom@[(q + 1) * width - 1].biggest@),
                            0,
                        ) by {
                        if q < pre.len() {
                            assert(cd.splits@[q] == pre[q]);
                        } else {
                            assert(q == pre.len() && (q + 1) * width - 1 == i as int);
                        }
                    }
                }
            } else {
                proof {
                    let w = width as int;
                    let qi = i as int / w;
                    let ri = i as int % w;
                    vstd::arithmetic::div_mod::lemma_mod_bound(i as int, w);
                    vstd::arithmetic::div_mod::lemma_fundamental_div_mod_converse(
                        i as int + 1,
                        w,
                        qi,
                        ri + 1,
                    );
                }
            }
            i = i + 1;
        }
        // the last sub-range runs to the end of the key space
        let last = KeyRange { left, right: Vec::new(), inf: true };
        let ghost pre = cd.splits@;
        cd.splits.push(last);
        proof {
            assert forall|q: int|
                0 <= q < cd.splits@.len() - 1 implies (#[trigger] cd.splits@[q])@.right
                    == crate::kv::key_ts_of(
                    crate::kv::user_key_of(cd.bottom@[(q + 1) * width - 1].biggest@),
                    0,
                ) by {
                assert(cd.splits@[q] == pre[q]);
            }
        }
    }
}

/// Entries confined to one sub-range sort wholly before entries
/// confined to a later, disjoint sub-range: tables built per split
/// cannot overlap, whatever order the splits were worked in. `x` is
/// any key below the earlier split's right bound, `y` any key at or
/// past the later split's left bound.
pub proof fn lemma_split_outputs_separated(x: Seq<u8>, y: Seq<u8>, ra: Seq<u8>, lb: Seq<u8>)
    requires
        crate::kv::is_key_ts(x),
        crate::kv::is_key_ts(y),
        crate::kv::is_key_ts(ra),
        crate::kv::is_key_ts(lb),
        key_lt(x, ra),
        key_le(ra, lb),
        key_le(lb, y),
    ensures
        key_lt(x, y),
{
    crate::kv::lemma_key_le_trans(x, ra, lb);
    crate::kv::lemma_key_le_trans(x, lb, y);
    if x == y {
        crate::kv::lemma_key_le_total(x, lb);
        crate::kv::lemma_key_le_total(x, ra);
    }
}

/// A vector holding one table.
pub fn vec_of_one(t: TableMeta) -> (r: Vec<TableMeta>)
    ensures
        r@.len() == 1,
        r@[0] == t,
{
    let mut v: Vec<TableMeta> = Vec::new();
    v.push(t);
    v
}

impl TableMeta {
    /// A copy of the metadata.
    pub fn clone_meta(&self) -> (r: TableMeta)
        ensures
            r.id == self.id,
            r.smallest@ == self.smallest@,
            r.biggest@ == self.biggest@,
            r.size == self.size,
            r.max_version == self.max_version,
            r.stale_data_size == self.stale_data_size,
            r.created_at == self.created_at,
            self.wf() ==> r.wf(),
    {
        TableMeta {
            id: self.id,
            smallest: vstd::slice::slice_to_vec(self.smallest.as_slice()),
            biggest: vstd::slice::slice_to_vec(self.biggest.as_slice()),
            size: self.size,
            max_version: self.max_version,
            stale_data_size: self.stale_data_size,
            created_at: self.created_at,
        }
    }
}


impl LevelsController {
    /// The garbage-reclamation path on the deepest level: walk the
    /// tables stalest first, pick the first that is big enough, old
    /// enough, wholly below the garbage-collection mark and not already
    /// compacting, absorb immediately following tables while the total
    /// stays under the level's file-size target, and reserve the
    /// combined range. There is no bottom set: the level rewrites
    /// itself. A false return leaves the registry as it was; with a
    /// free registry and only qualifying tables, a candidate is owed.
    pub fn try_fill_max_level_tables(
        &mut self,
        cd: &mut CompactDef,
        discard_ts: u64,
        now: u64,
        target_file_size: u64,
    ) -> (r: bool)
        requires
            old(self).wf(),
            old(cd).this_level == old(self).levels@.len() - 1,
        ensures
            final(self).wf(),
            final(self).levels == old(self).levels,
            !r ==> status_eq(final(self).compact_status, old(self).compact_status),
            r ==> final(cd).top@.len() >= 1,
            r ==> forall|k: int|
                0 <= k < final(cd).top@.len() ==> (#[trigger] final(cd).top@[k]).wf(),
            r ==> forall|k: int|
                0 <= k < final(cd).bottom@.len() ==> (#[trigger] final(cd).bottom@[k]).wf(),
            r ==> (final(cd).top@[0]).max_version <= discard_ts && (final(cd).top@[0]).stale_data_size >= (10u64 << 20) && now >= final(cd).top@[0].created_at
                && now - final(cd).top@[0].created_at >= 3600,
            r ==> exists|i: int|
                0 <= i < old(self).levels@[old(cd).this_level as int].tables@.len()
                    && table_meta_view(#[trigger] old(self).levels@[
                    old(cd).this_level as int
                ].tables@[i]) == table_meta_view(final(cd).top@[0]),
            // the combined range is reserved on the level
            r ==> final(self).compact_status.levels@[old(cd).this_level as int].ranges@.len()
                == old(self).compact_status.levels@[old(cd).this_level as int].ranges@.len() + 1
                && (final(self).compact_status.levels@[
                old(cd).this_level as int
            ].ranges@.last())@ == final(cd).next_range@,
            // a candidate is owed when nothing is reserved on the level
            // and every table qualifies
            (old(self).compact_status.levels@[old(cd).this_level as int].ranges@.len() == 0 && old(
                self,
            ).levels@[old(cd).this_level as int].tables@.len() > 0 && (forall|k: int|
                0 <= k < old(self).levels@[old(cd).this_level as int].tables@.len() ==> (
                #[trigger] old(self).levels@[old(cd).this_level as int].tables@[k]).stale_data_size
                    >= (10u64 << 20) && old(self).levels@[
                    old(cd).this_level as int
                ].tables@[k].max_version <= discard_ts && now >= old(self).levels@[
                    old(cd).this_level as int
                ].tables@[k].created_at && now - old(self).levels@[
                    old(cd).this_level as int
                ].tables@[k].created_at >= 3600)) ==> r,
    {
        let lvl = cd.this_level;
        let nt = self.levels[lvl].tables.len();
        let ghost all_qualify = old(self).compact_status.levels@[lvl as int].ranges@.len() == 0
            && nt > 0 && (forall|k: int|
            0 <= k < old(self).levels@[lvl as int].tables@.len() ==> (#[trigger] old(
                self,
            ).levels@[lvl as int].tables@[k]).stale_data_size >= (10u64 << 20) && old(
                self,
            ).levels@[lvl as int].tables@[k].max_version <= discard_ts && now >= old(
                self,
            ).levels@[lvl as int].tables@[k].created_at && now - old(self).levels@[
                lvl as int
            ].tables@[k].created_at >= 3600);
        let mut tried: Vec<bool> = Vec::new();
        let mut q: usize = 0;
        while q < nt
            invariant
                q <= nt,
                tried@.len() == q,
                forall|k: int| 0 <= k < q ==> !(#[trigger] tried@[k]),
            decreases nt - q,
        {
            tried.push(false);
            q = q + 1;
        }
        let mut rounds: usize = 0;
        while rounds < nt
            invariant
                rounds <= nt == self.levels@[lvl as int].tables@.len(),
                tried@.len() == nt,
                self.wf(),
                (lvl as int) < self.levels@.len(),
                lvl == old(cd).this_level,
                self.levels == old(self).levels,
                self.compact_status == old(self).compact_status,
                all_qualify == (old(self).compact_status.levels@[lvl as int].ranges@.len() == 0
                    && nt > 0 && (forall|k: int|
                    0 <= k < old(self).levels@[lvl as int].tables@.len() ==> (#[trigger] old(
                        self,
                    ).levels@[lvl as int].tables@[k]).stale_data_size >= (10u64 << 20) && old(
                        self,
                    ).levels@[lvl as int].tables@[k].max_version <= discard_ts && now >= old(
                        self,
                    ).levels@[lvl as int].tables@[k].created_at && now - old(self).levels@[
                        lvl as int
                    ].tables@[k].created_at >= 3600)),
                all_qualify ==> rounds == 0,
                rounds == 0 ==> forall|k: int| 0 <= k < nt ==> !(#[trigger] tried@[k]),
            decreases nt - rounds,
        {
            // the stalest untried table first
            let mut best: usize = nt;
            let mut k: usize = 0;
            while k < nt
                invariant
                    k <= nt == self.levels@[lvl as int].tables@.len(),
                    tried@.len() == nt,
                    (lvl as int) < self.levels@.len(),
                    best <= nt,
                    best < nt ==> !tried@[best as int],
                    (exists|k2: int| 0 <= k2 < k && !(#[trigger] tried@[k2])) ==> best < nt,
                decreases nt - k,
            {
                if !tried[k] && (best == nt || self.levels[lvl].tables[k].stale_data_size
                    > self.levels[lvl].tables[best].stale_data_size) {
                    best = k;
                }
                k = k + 1;
            }
            if best == nt {
                proof {
                    if all_qualify {
                        assert(!tried@[0]);
                        assert(false);
                    }
                }
                return false;
            }
            tried.set(best, true);
            proof {
                assert(self.levels@[lvl as int].tables@[best as int].wf());
            }
            let table = self.levels[lvl].tables[best].clone_meta();
            let old_enough = now >= table.created_at && now - table.created_at >= 3600;
            if table.stale_data_size >= (10u64 << 20) && table.max_version <= discard_ts
                && old_enough {
                let this_range = table.key_range();
                if !self.compact_status.is_overlaps_with(lvl, &this_range) {
                    // absorb immediately following tables while the
                    // total size stays under the target
                    let mut total = table.size;
                    let mut bottom: Vec<TableMeta> = Vec::new();
                    let mut next_range = KeyRange {
                        left: vstd::slice::slice_to_vec(this_range.left.as_slice()),
                        right: vstd::slice::slice_to_vec(this_range.right.as_slice()),
                        inf: this_range.inf,
                    };
                    proof {
                        assert(next_range@.left =~= this_range@.left);
                        assert(next_range@.right =~= this_range@.right);
                    }
                    let mut j = best + 1;
                    while j < nt
                        invariant
                            best < j <= nt == self.levels@[lvl as int].tables@.len(),
                            self.wf(),
                            self.levels == old(self).levels,
                            (lvl as int) < self.levels@.len(),
                            range_wf(next_range@),
                            !range_is_empty(next_range@),
                            forall|q2: int|
                                0 <= q2 < bottom@.len() ==> (#[trigger] bottom@[q2]).wf(),
                        decreases nt - j,
                    {
                        proof {
                            assert(self.levels@[lvl as int].tables@[j as int].wf());
                        }
                        let sz = self.levels[lvl].tables[j].size;
                        if sz > u64::MAX - total || total + sz >= target_file_size {
                            break ;
                        }
                        total = total + sz;
                        let nr = self.levels[lvl].tables[j].key_range();
                        next_range.extend(&nr);
                        bottom.push(self.levels[lvl].tables[j].clone_meta());
                        j = j + 1;
                    }
                    if self.compact_status.compare_and_add(lvl, &next_range) {
                        cd.this_size = table.size;
                        cd.this_range = this_range;
                        cd.next_range = next_range;
                        cd.bottom = bottom;
                        cd.top = vec_of_one(table);
                        proof {
                            assert(table_meta_view(
                                old(self).levels@[lvl as int].tables@[best as int],
                            ) == table_meta_view(cd.top@[0]));
                        }
                        return true;
                    }
                    proof {
                        if all_qualify {
                            assert(false);
                        }
                    }
                } else {
                    proof {
                        if all_qualify {
                            assert(false);
                        }
                    }
                }
            } else {
                proof {
                    if all_qualify {
                        assert(false);
                    }
                }
            }
            rounds = rounds + 1;
        }
        proof {
            if all_qualify {
                assert(false);
            }
        }
        false
    }

    /// One compaction decision: level zero feeds the base level (or
    /// merges into itself for worker zero), every other level feeds the
    /// one below it, and the deepest level reclaims its own garbage.
    pub fn do_compact(
        &mut self,
        task_id: usize,
        priority_level: usize,
        base_level: usize,
        discard_ts: u64,
        now: u64,
        target_file_size: u64,
        file_size0: u64,
    ) -> (r: Option<CompactDef>)
        requires
            old(self).wf(),
            priority_level < old(self).levels@.len(),
            0 < base_level < old(self).levels@.len(),
        ensures
            final(self).wf(),
            final(self).levels == old(self).levels,
            r is None ==> status_eq(final(self).compact_status, old(self).compact_status),
            match r {
                Some(cd) => cd.top@.len() >= 1 && forall|k: int|
                    0 <= k < cd.top@.len() ==> (#[trigger] cd.top@[k]).wf(),
                None => true,
            },
            // a level-zero candidate is owed when nothing is reserved on
            // level zero or the base level and level zero holds tables
            (priority_level == 0 && old(self).compact_status.levels@[0].ranges@.len() == 0 && old(
                self,
            ).compact_status.levels@[base_level as int].ranges@.len() == 0 && old(
                self,
            ).levels@[0].tables@.len() > 0) ==> r is Some,
    {
        let mut cd = CompactDef {
            compactor_id: task_id,
            this_level: priority_level,
            next_level: if priority_level == 0 {
                base_level
            } else {
                priority_level
            },
            top: Vec::new(),
            bottom: Vec::new(),
            this_range: KeyRange::new_empty(),
            next_range: KeyRange::new_empty(),
            splits: Vec::new(),
            this_size: 0,
        };
        if priority_level == 0 {
            if self.fill_tables_l0_to_lbase(&mut cd) {
                return Some(cd);
            }
            if self.fill_tables_l0_to_l0(&mut cd, now, file_size0) {
                return Some(cd);
            }
            return None;
        }
        if priority_level == self.levels.len() - 1 {
            if self.try_fill_max_level_tables(&mut cd, discard_ts, now, target_file_size) {
                return Some(cd);
            }
            return None;
        }
        cd.next_level = priority_level + 1;
        if self.fill_tables(&mut cd) {
            return Some(cd);
        }
        None
    }
}

/// The merge step of one sub-compaction: interleave the top and bottom
/// runs, drop superseded versions below the garbage-collection mark,
/// and build a fresh table from what is left, skipping dropped
/// prefixes. The keys of both runs must be disjoint and sorted, as two
/// tables chosen from different levels always are.
pub fn compact_build_table(
    top: &Vec<(Vec<u8>, ValueMeta)>,
    bottom: &Vec<(Vec<u8>, ValueMeta)>,
    drop_prefixed: &Vec<Vec<u8>>,
    discard_ts: u64,
    opt: crate::table::opt::TableOption,
    id: u64,
    created_at: u64,
) -> (r: Result<Option<crate::table::read::TableInner>, crate::errors::DBError>)
    requires
        opt.block_size() <= u32::MAX,
        entries_sorted(view_pairs(top@), |e: EntryView| e.key),
        entries_sorted(view_pairs(bottom@), |e: EntryView| e.key),
        forall|i: int|
            0 <= i < top@.len() ==> is_key_ts((#[trigger] top@[i]).0@) && top@[i].0@.len()
                <= u16::MAX,
        forall|i: int|
            0 <= i < bottom@.len() ==> is_key_ts((#[trigger] bottom@[i]).0@) && bottom@[i].0@.len()
                <= u16::MAX,
        forall|i: int, j: int|
            0 <= i < top@.len() && 0 <= j < bottom@.len() ==> (#[trigger] top@[i]).0@ != (
            #[trigger] bottom@[j]).0@,
    ensures
        r is Err <==> exists|i: int|
            #![trigger keep_versions(merge_spec(view_pairs(top@), view_pairs(bottom@)), discard_ts)[i]]
            {
                &&& 0 <= i < keep_versions(
                    merge_spec(view_pairs(top@), view_pairs(bottom@)),
                    discard_ts,
                ).len()
                &&& !crate::table::write::has_dropped_prefix(
                    keep_versions(
                        merge_spec(view_pairs(top@), view_pairs(bottom@)),
                        discard_ts,
                    )[i].key,
                    drop_prefixed@.map_values(|p: Vec<u8>| p@),
                )
                &&& keep_versions(
                    merge_spec(view_pairs(top@), view_pairs(bottom@)),
                    discard_ts,
                )[i].val.value.len() > u32::MAX / 8
            },
        match r {
            Ok(Some(t)) => {
                &&& t.wf()
                &&& t.id == id
                // exactly the merged entries survive the version drop
                // and the prefix filter
                &&& t.entries_view() == crate::table::write::keep_entries(
                    keep_versions(merge_spec(view_pairs(top@), view_pairs(bottom@)), discard_ts),
                    drop_prefixed@.map_values(|p: Vec<u8>| p@),
                )
                &&& entries_sorted(t.entries_view(), |e: EntryView| e.key)
                &&& forall|k: int|
                    0 <= k < t.entries_view().len() ==> contains_entry(
                        view_pairs(top@),
                        #[trigger] t.entries_view()[k],
                    ) || contains_entry(view_pairs(bottom@), t.entries_view()[k])
            },
            Ok(None) => crate::table::write::keep_entries(
                keep_versions(merge_spec(view_pairs(top@), view_pairs(bottom@)), discard_ts),
                drop_prefixed@.map_values(|p: Vec<u8>| p@),
            ).len() == 0,
            Err(e) => e == crate::errors::DBError::RequestTooLarge,
        },
{
    let merged = merge_sorted(top, bottom);
    proof {
        assert forall|i: int| 0 <= i < merged@.len() implies (#[trigger] merged@[i]).0@.len()
            <= u16::MAX by {
            assert(view_pairs(merged@)[i].key == merged@[i].0@);
            if contains_entry(view_pairs(top@), view_pairs(merged@)[i]) {
                let k = choose|k: int|
                    0 <= k < view_pairs(top@).len() && #[trigger] view_pairs(top@)[k]
                        == view_pairs(merged@)[i];
                assert(view_pairs(top@)[k].key == top@[k].0@);
            } else {
                let k = choose|k: int|
                    0 <= k < view_pairs(bottom@).len() && #[trigger] view_pairs(bottom@)[k]
                        == view_pairs(merged@)[i];
                assert(view_pairs(bottom@)[k].key == bottom@[k].0@);
            }
        }
    }
    let kept = drop_obsolete(&merged, discard_ts);
    proof {
        lemma_keep_versions_sorted(view_pairs(merged@), discard_ts);
        lemma_keep_versions_from_original(view_pairs(merged@), discard_ts);
        assert forall|i: int| 0 <= i < kept@.len() implies is_key_ts((#[trigger] kept@[i]).0@)
            && kept@[i].0@.len() <= u16::MAX by {
            assert(view_pairs(kept@)[i].key == kept@[i].0@);
            assert(contains_entry(view_pairs(merged@), view_pairs(kept@)[i]));
            let k = choose|k: int|
                0 <= k < view_pairs(merged@).len() && #[trigger] view_pairs(merged@)[k]
                    == view_pairs(kept@)[i];
            assert(view_pairs(merged@)[k].key == merged@[k].0@);
        }
    }
    let builder = match crate::table::write::build_l0_table(&kept, drop_prefixed, opt) {
        Ok(b) => b,
        Err(e) => {
            return Err(e);
        },
    };
    let result = builder.done(id, created_at);
    proof {
        if result is Some {
            let t = result->0;
            let pviews = drop_prefixed@.map_values(|p: Vec<u8>| p@);
            assert forall|k: int| 0 <= k < t.entries_view().len() implies contains_entry(
                view_pairs(top@),
                #[trigger] t.entries_view()[k],
            ) || contains_entry(view_pairs(bottom@), t.entries_view()[k]) by {
                crate::table::write::lemma_keep_entries_member(view_pairs(kept@), pviews, k);
                let j = choose|j: int|
                    0 <= j < view_pairs(kept@).len() && t.entries_view()[k] == #[trigger] view_pairs(
                        kept@,
                    )[j];
                assert(contains_entry(view_pairs(merged@), view_pairs(kept@)[j]));
                let q = choose|q: int|
                    0 <= q < view_pairs(merged@).len() && #[trigger] view_pairs(merged@)[q]
                        == view_pairs(kept@)[j];
            }
        }
    }
    Ok(result)
}


// ---------------------------------------------------------------------
// Building the controller from a manifest
// ---------------------------------------------------------------------

/// Configuration for standing the levels controller up from a replayed
/// manifest.
#[derive(Debug, Clone)]
pub struct LevelsControllerBuilder {
    pub dir: String,
    pub read_only: bool,
    pub memtable_size: u64,
    pub num_level_zero_tables_stall: usize,
    pub num_level_zero_tables: usize,
    pub max_levels: usize,
}

impl Default for LevelsControllerBuilder {
    fn default() -> (r: Self)
        ensures
            r.max_levels == 0,
            r.memtable_size == 0,
            !r.read_only,
    {
        LevelsControllerBuilder {
            dir: String::new(),
            read_only: false,
            memtable_size: 0,
            num_level_zero_tables_stall: 0,
            num_level_zero_tables: 0,
            max_levels: 0,
        }
    }
}

/// A build input the controller builder owes success on: every opened
/// table is known to the manifest on a level within range, opened
/// tables sharing a deeper level are pairwise disjoint, and no id has
/// reached the counter's ceiling.
pub open spec fn build_input_clean(
    m: crate::manifest::Manifest,
    metas: Seq<TableMeta>,
    max_levels: int,
) -> bool {
    &&& forall|k: int|
        0 <= k < metas.len() ==> m.tables@.contains_key((#[trigger] metas[k]).id)
            && m.tables@[metas[k].id].level < max_levels && metas[k].id < u64::MAX
    &&& forall|p: int, q: int|
        #![trigger metas[p], metas[q]]
        0 <= p < q < metas.len() && m.tables@.contains_key(metas[p].id)
            && m.tables@.contains_key(metas[q].id) && m.tables@[metas[p].id].level
            == m.tables@[metas[q].id].level && m.tables@[metas[p].id].level > 0
            ==> tables_separated(metas[p], metas[q])
    &&& forall|l: int, k: int|
        0 <= l < m.levels@.len() && 0 <= k < (#[trigger] m.levels@[l]).tables@.len()
            ==> #[trigger] m.levels@[l].tables@[k] < u64::MAX
}

impl LevelsControllerBuilder {
    /// Builds a controller whose levels own exactly the opened tables
    /// the manifest assigns them, each deeper level kept sorted and
    /// non-overlapping, and whose next file id lies past every id the
    /// manifest knows as well as every opened table's. A table the
    /// manifest does not know, a level past the configured range, or an
    /// overlapping deeper-level table set refuses the whole build: the
    /// manifest is the source of truth and must agree with the tables.
    pub fn build(&self, m: &crate::manifest::Manifest, metas: &Vec<TableMeta>) -> (r: Result<
        LevelsController,
        crate::errors::DBError,
    >)
        requires
            self.num_level_zero_tables_stall > self.num_level_zero_tables,
            self.max_levels >= 1,
            m.wf(),
            forall|k: int| 0 <= k < metas@.len() ==> (#[trigger] metas@[k]).wf(),
        ensures
            match r {
                Ok(c) => {
                    &&& c.wf()
                    &&& c.levels@.len() == self.max_levels
                    &&& forall|k: int| 0 <= k < metas@.len() ==> c.next_file_id
                        > (#[trigger] metas@[k]).id
                    &&& forall|l: int, k: int|
                        0 <= l < m.levels@.len() && 0 <= k
                            < (#[trigger] m.levels@[l]).tables@.len() ==> c.next_file_id
                            > #[trigger] m.levels@[l].tables@[k]
                },
                Err(e) => e == crate::errors::DBError::Corruption,
            },
            build_input_clean(*m, metas@, self.max_levels as int) ==> r is Ok,
    {
        let ghost owed = build_input_clean(*m, metas@, self.max_levels as int);
        let mut levels: Vec<LevelHandler> = Vec::new();
        let mut l: usize = 0;
        while l < self.max_levels
            invariant
                l <= self.max_levels,
                levels@.len() == l,
                forall|k: int|
                    0 <= k < l ==> (#[trigger] levels@[k]).wf() && levels@[k].level == k
                        && levels@[k].tables@.len() == 0,
            decreases self.max_levels - l,
        {
            levels.push(LevelHandler::new(l));
            l = l + 1;
        }
        // place each opened table on the level the manifest assigns it;
        // level zero keeps insertion order, deeper levels would be
        // re-sorted by the caller before reads
        let mut max_file_id: u64 = 0;
        let nm = metas.len();
        let mut i: usize = 0;
        while i < nm
            invariant
                i <= nm == metas@.len(),
                levels@.len() == self.max_levels,
                self.max_levels >= 1,
                m.wf(),
                forall|k: int| 0 <= k < metas@.len() ==> (#[trigger] metas@[k]).wf(),
                forall|k: int| 0 <= k < levels@.len() ==> (#[trigger] levels@[k]).level == k,
                forall|k: int| 0 <= k < i ==> max_file_id >= (#[trigger] metas@[k]).id,
                (#[trigger] levels@[0]).wf(),
                forall|k: int| 0 <= k < levels@.len() ==> (#[trigger] levels@[k]).wf(),
                owed == build_input_clean(*m, metas@, self.max_levels as int),
                owed ==> max_file_id < u64::MAX,
                owed ==> forall|lv: int, e: int, k: int|
                    #![trigger levels@[lv].tables@[e], metas@[k]]
                    1 <= lv < levels@.len() && 0 <= e < levels@[lv].tables@.len() && i <= k
                        < metas@.len() && m.tables@.contains_key(metas@[k].id)
                        && m.tables@[metas@[k].id].level == lv ==> tables_separated(
                        levels@[lv].tables@[e],
                        metas@[k],
                    ),
            decreases nm - i,
        {
            let meta = &metas[i];
            if meta.id > max_file_id {
                max_file_id = meta.id;
            }
            let lvl: usize = match m.tables.get(&meta.id) {
                Some(tm) => tm.level as usize,
                None => {
                    proof {
                        if owed {
                            assert(m.tables@.contains_key(metas@[i as int].id));
                            assert(false);
                        }
                    }
                    return Err(crate::errors::DBError::Corruption);
                },
            };
            if lvl >= self.max_levels {
                proof {
                    if owed {
                        assert(m.tables@[metas@[i as int].id].level < self.max_levels);
                        assert(false);
                    }
                }
                return Err(crate::errors::DBError::Corruption);
            }
            if lvl == 0 {
                let ghost pre = levels@;
                let level_ref = &mut levels[0];
                level_ref.tables.push(meta.clone_meta());
                proof {
                    assert forall|k: int| 0 <= k < levels@.len() implies (
                    #[trigger] levels@[k]).wf() by {
                        if k != 0 {
                            assert(levels@[k] == pre[k]);
                        } else {
                            assert(forall|q: int|
                                0 <= q < levels@[0].tables@.len() - 1
                                    ==> (#[trigger] levels@[0].tables@[q]) == pre[0].tables@[q]);
                        }
                    }
                    if owed {
                        assert forall|lv: int, e: int, k: int|
                            #![trigger levels@[lv].tables@[e], metas@[k]]
                            1 <= lv < levels@.len() && 0 <= e < levels@[lv].tables@.len() && i + 1
                                <= k < metas@.len() && m.tables@.contains_key(metas@[k].id)
                                && m.tables@[metas@[k].id].level == lv implies tables_separated(
                            levels@[lv].tables@[e],
                            metas@[k],
                        ) by {
                            assert(levels@[lv] == pre[lv]);
                            assert(tables_separated(pre[lv].tables@[e], metas@[k]));
                        }
                    }
                }
            } else {
                // deeper levels stay sorted and non-overlapping; a table
                // set that cannot be ordered is invalid
                let ghost pre = levels@;
                let tclone = meta.clone_meta();
                let ghost tg = tclone;
                let level_ref = &mut levels[lvl];
                let placed = level_ref.insert_table_sorted(tclone);
                match placed {
                    Ok(()) => {},
                    Err(e) => {
                        proof {
                            if owed {
                                // some resident table overlaps the new
                                // one, yet every resident is separated
                                // from every still-unplaced table of
                                // its level, this one included
                                let e2 = choose|e2: int|
                                    0 <= e2 < pre[lvl as int].tables@.len() && !tables_separated(
                                        tg,
                                        pre[lvl as int].tables@[e2],
                                    );
                                assert(tables_separated(pre[lvl as int].tables@[e2], metas@[i as int]));
                                assert(tg.smallest@ == metas@[i as int].smallest@ && tg.biggest@
                                    == metas@[i as int].biggest@);
                                assert(tables_separated(tg, pre[lvl as int].tables@[e2]));
                                assert(false);
                            }
                        }
                        return Err(e);
                    },
                }
                proof {
                    assert forall|k: int| 0 <= k < levels@.len() implies (
                    #[trigger] levels@[k]).wf() by {
                        if k != lvl {
                            assert(levels@[k] == pre[k]);
                        }
                    }
                    assert forall|k: int| 0 <= k < levels@.len() implies (
                    #[trigger] levels@[k]).level == k by {
                        if k != lvl {
                            assert(levels@[k] == pre[k]);
                        }
                    }
                    if owed {
                        let pos = choose|ii: int|
                            0 <= ii <= pre[lvl as int].tables@.len() && levels@[lvl as int].tables@
                                == pre[lvl as int].tables@.insert(ii, tg);
                        assert forall|lv: int, e: int, k: int|
                            #![trigger levels@[lv].tables@[e], metas@[k]]
                            1 <= lv < levels@.len() && 0 <= e < levels@[lv].tables@.len() && i + 1
                                <= k < metas@.len() && m.tables@.contains_key(metas@[k].id)
                                && m.tables@[metas@[k].id].level == lv implies tables_separated(
                            levels@[lv].tables@[e],
                            metas@[k],
                        ) by {
                            if lv == lvl {
                                if e == pos {
                                    assert(levels@[lv].tables@[e] == tg);
                                    assert(tables_separated(metas@[i as int], metas@[k]));
                                    assert(tg.smallest@ == metas@[i as int].smallest@
                                        && tg.biggest@ == metas@[i as int].biggest@);
                                    assert(tables_separated(tg, metas@[k]));
                                } else {
                                    let e0: int = if e < pos {
                                        e
                                    } else {
                                        e - 1
                                    };
                                    assert(levels@[lv].tables@[e] == pre[lv].tables@[e0]);
                                    assert(tables_separated(pre[lv].tables@[e0], metas@[k]));
                                }
                            } else {
                                assert(levels@[lv] == pre[lv]);
                                assert(tables_separated(pre[lv].tables@[e], metas@[k]));
                            }
                        }
                    }
                }
            }
            i = i + 1;
        }
        // the id floor also covers every table the manifest knows, even
        // one whose file was skipped at open
        let nl = m.levels.len();
        let mut l2: usize = 0;
        while l2 < nl
            invariant
                l2 <= nl == m.levels@.len(),
                owed == build_input_clean(*m, metas@, self.max_levels as int),
                owed ==> max_file_id < u64::MAX,
                forall|k: int| 0 <= k < metas@.len() ==> max_file_id >= (#[trigger] metas@[k]).id,
                forall|l3: int, k: int|
                    0 <= l3 < l2 && 0 <= k < (#[trigger] m.levels@[l3]).tables@.len()
                        ==> max_file_id >= #[trigger] m.levels@[l3].tables@[k],
            decreases nl - l2,
        {
            let nk = m.levels[l2].tables.len();
            let mut k2: usize = 0;
            while k2 < nk
                invariant
                    k2 <= nk == m.levels@[l2 as int].tables@.len(),
                    l2 < m.levels@.len(),
                    owed == build_input_clean(*m, metas@, self.max_levels as int),
                    owed ==> max_file_id < u64::MAX,
                    forall|k: int|
                        0 <= k < metas@.len() ==> max_file_id >= (#[trigger] metas@[k]).id,
                    forall|l3: int, k: int|
                        0 <= l3 < l2 && 0 <= k < (#[trigger] m.levels@[l3]).tables@.len()
                            ==> max_file_id >= #[trigger] m.levels@[l3].tables@[k],
                    forall|k: int|
                        0 <= k < k2 ==> max_file_id >= #[trigger] m.levels@[l2 as int].tables@[k],
                decreases nk - k2,
            {
                let id = m.levels[l2].tables[k2];
                if id > max_file_id {
                    max_file_id = id;
                }
                k2 = k2 + 1;
            }
            l2 = l2 + 1;
        }
        if max_file_id == u64::MAX {
            proof {
                if owed {
                    assert(false);
                }
            }
            return Err(crate::errors::DBError::Corruption);
        }
        let controller = LevelsController {
            next_file_id: max_file_id + 1,
            levels,
            compact_status: CompactStatus::new(self.max_levels),
            memtable_size: self.memtable_size,
        };
        Ok(controller)
    }
}


} // verus!
