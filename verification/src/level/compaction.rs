//! The compaction-status registry: which key ranges are being
//! compacted on each level right now. Workers reserve a range before
//! touching tables and release it afterwards; the registry never holds
//! two overlapping ranges for one level.

use vstd::prelude::*;

use crate::kv::{is_key_ts, key_le, ValueMeta};

verus! {

/// A `[left, right]` span of stored keys; `inf` marks the whole space.
#[derive(Debug, Clone)]
pub struct KeyRange {
    pub left: Vec<u8>,
    pub right: Vec<u8>,
    pub inf: bool,
}

/// The mathematical image of a key range.
pub struct KeyRangeView {
    pub left: Seq<u8>,
    pub right: Seq<u8>,
    pub inf: bool,
}

impl View for KeyRange {
    type V = KeyRangeView;

    open spec fn view(&self) -> KeyRangeView {
        KeyRangeView { left: self.left@, right: self.right@, inf: self.inf }
    }
}

/// An empty range: no bounds, not infinite.
pub open spec fn range_is_empty(r: KeyRangeView) -> bool {
    !r.inf && r.left.len() == 0 && r.right.len() == 0
}

pub open spec fn range_wf(r: KeyRangeView) -> bool {
    range_is_empty(r) || r.inf || (is_key_ts(r.left) && is_key_ts(r.right) && key_le(
        r.left,
        r.right,
    ))
}

/// Two ranges overlap when neither is empty and neither lies wholly
/// before the other; an infinite range overlaps everything non-empty.
pub open spec fn ranges_overlap(a: KeyRangeView, b: KeyRangeView) -> bool {
    if range_is_empty(a) || range_is_empty(b) {
        false
    } else if a.inf || b.inf {
        true
    } else {
        key_le(a.left, b.right) && key_le(b.left, a.right)
    }
}

impl KeyRange {
    /// The empty range.
    pub fn new_empty() -> (r: KeyRange)
        ensures
            range_is_empty(r@),
            range_wf(r@),
    {
        KeyRange { left: Vec::new(), right: Vec::new(), inf: false }
    }

    /// The range that covers the whole key space.
    pub fn new_inf() -> (r: KeyRange)
        ensures
            r@.inf,
            !range_is_empty(r@),
            range_wf(r@),
    {
        KeyRange { left: Vec::new(), right: Vec::new(), inf: true }
    }

    /// A closed range between two stored keys.
    pub fn new(left: Vec<u8>, right: Vec<u8>) -> (r: KeyRange)
        requires
            is_key_ts(left@),
            is_key_ts(right@),
            key_le(left@, right@),
        ensures
            r@.left == left@,
            r@.right == right@,
            !r@.inf,
            range_wf(r@),
            !range_is_empty(r@),
    {
        KeyRange { left, right, inf: false }
    }

    pub fn is_empty(&self) -> (r: bool)
        ensures
            r == range_is_empty(self@),
    {
        !self.inf && self.left.len() == 0 && self.right.len() == 0
    }

    /// Whether this range overlaps another.
    pub fn is_overlaps_with(&self, other: &KeyRange) -> (r: bool)
        requires
            range_wf(self@),
            range_wf(other@),
        ensures
            r == ranges_overlap(self@, other@),
    {
        if self.is_empty() || other.is_empty() {
            return false;
        }
        if self.inf || other.inf {
            return true;
        }
        let a = crate::kv::compare_key_le(self.left.as_slice(), other.right.as_slice());
        if !a {
            return false;
        }
        crate::kv::compare_key_le(other.left.as_slice(), self.right.as_slice())
    }

    /// Widens this range to cover another.
    pub fn extend(&mut self, other: &KeyRange)
        requires
            range_wf(old(self)@),
            range_wf(other@),
        ensures
            range_wf(final(self)@),
            range_is_empty(other@) ==> final(self)@ == old(self)@,
            !range_is_empty(other@) && range_is_empty(old(self)@) ==> final(self)@ == other@,
            !range_is_empty(old(self)@) && !range_is_empty(other@) ==> !range_is_empty(
                final(self)@,
            ),
    {
        if other.is_empty() {
            return ;
        }
        if self.is_empty() {
            self.left = vstd::slice::slice_to_vec(other.left.as_slice());
            self.right = vstd::slice::slice_to_vec(other.right.as_slice());
            self.inf = other.inf;
            proof {
                assert(self@.left =~= other@.left);
                assert(self@.right =~= other@.right);
            }
            return ;
        }
        if other.inf {
            self.inf = true;
            return ;
        }
        if self.inf {
            return ;
        }
        // both ranges are finite and non-empty, so all four bounds are
        // real keys
        proof {
            assert(is_key_ts(self.left@) && is_key_ts(self.right@));
            assert(is_key_ts(other.left@) && is_key_ts(other.right@));
            crate::kv::lemma_key_le_total(self.left@, other.left@);
            crate::kv::lemma_key_le_total(other.right@, self.right@);
        }
        let ghost l0 = self.left@;
        let ghost r0 = self.right@;
        let take_other_left = !crate::kv::compare_key_le(
            self.left.as_slice(),
            other.left.as_slice(),
        );
        let take_other_right = !crate::kv::compare_key_le(
            other.right.as_slice(),
            self.right.as_slice(),
        );
        if take_other_left {
            self.left = vstd::slice::slice_to_vec(other.left.as_slice());
        }
        if take_other_right {
            self.right = vstd::slice::slice_to_vec(other.right.as_slice());
        }
        proof {
            if take_other_left && take_other_right {
                assert(key_le(self.left@, self.right@));
            } else if take_other_left {
                crate::kv::lemma_key_le_trans(other.left@, l0, r0);
            } else if take_other_right {
                crate::kv::lemma_key_le_trans(l0, r0, other.right@);
            }
            assert(self.left@.len() > 0);
        }
    }
}

/// The mathematical image of one level's in-progress ranges.
pub open spec fn ranges_view(lv: LevelCompactStatus) -> Seq<KeyRangeView> {
    lv.ranges@.map_values(|r: KeyRange| r@)
}

/// The whole registry's range lists as mathematical values.
pub open spec fn levels_view(cs: CompactStatus) -> Seq<Seq<KeyRangeView>> {
    cs.levels@.map_values(|lv: LevelCompactStatus| ranges_view(lv))
}

/// Two registries hold the same reservations.
pub open spec fn status_eq(a: CompactStatus, b: CompactStatus) -> bool {
    levels_view(a) == levels_view(b) && a.tables@ == b.tables@
}

/// One level's in-progress compaction ranges and a running byte delta.
pub struct LevelCompactStatus {
    pub ranges: Vec<KeyRange>,
    pub del_size: i64,
}

/// The process-wide registry of in-progress compactions.
pub struct CompactStatus {
    pub levels: Vec<LevelCompactStatus>,
    pub tables: Vec<u64>,
}

impl CompactStatus {
    /// No level ever holds two overlapping in-progress ranges, and
    /// every registered range is well formed and non-empty.
    pub open spec fn wf(&self) -> bool {
        &&& forall|l: int, i: int|
            0 <= l < self.levels@.len() && 0 <= i < (#[trigger] self.levels@[l]).ranges@.len()
                ==> range_wf((#[trigger] self.levels@[l].ranges@[i])@) && !range_is_empty(
                self.levels@[l].ranges@[i]@,
            )
        &&& forall|l: int, i: int, j: int|
            #![trigger self.levels@[l].ranges@[i], self.levels@[l].ranges@[j]]
            0 <= l < self.levels@.len() && 0 <= i < j < self.levels@[l].ranges@.len()
                ==> !ranges_overlap(self.levels@[l].ranges@[i]@, self.levels@[l].ranges@[j]@)
    }

    /// A registry with `max_levels` empty levels.
    pub fn new(max_levels: usize) -> (r: CompactStatus)
        ensures
            r.wf(),
            r.levels@.len() == max_levels,
            forall|l: int| 0 <= l < max_levels ==> (#[trigger] r.levels@[l]).ranges@.len() == 0,
    {
        let mut levels: Vec<LevelCompactStatus> = Vec::new();
        let mut l: usize = 0;
        while l < max_levels
            invariant
                l <= max_levels,
                levels@.len() == l,
                forall|k: int| 0 <= k < l ==> (#[trigger] levels@[k]).ranges@.len() == 0,
            decreases max_levels - l,
        {
            levels.push(LevelCompactStatus { ranges: Vec::new(), del_size: 0 });
            l = l + 1;
        }
        CompactStatus { levels, tables: Vec::new() }
    }

    /// Whether a range collides with any in-progress range on `level`.
    pub fn is_overlaps_with(&self, level: usize, this: &KeyRange) -> (r: bool)
        requires
            self.wf(),
            (level as int) < self.levels@.len(),
            range_wf(this@),
        ensures
            r == exists|i: int|
                0 <= i < self.levels@[level as int].ranges@.len() && ranges_overlap(
                    (#[trigger] self.levels@[level as int].ranges@[i])@,
                    this@,
                ),
    {
        let n = self.levels[level].ranges.len();
        let mut i: usize = 0;
        while i < n
            invariant
                i <= n == self.levels@[level as int].ranges@.len(),
                self.wf(),
                (level as int) < self.levels@.len(),
                range_wf(this@),
                forall|k: int|
                    0 <= k < i ==> !ranges_overlap(
                        (#[trigger] self.levels@[level as int].ranges@[k])@,
                        this@,
                    ),
            decreases n - i,
        {
            if self.levels[level].ranges[i].is_overlaps_with(this) {
                return true;
            }
            i = i + 1;
        }
        false
    }

    /// Atomically checks and reserves a range on `level`: the range is
    /// added exactly when it collides with nothing already registered,
    /// so two workers can never hold overlapping ranges on one level.
    pub fn compare_and_add(&mut self, level: usize, this: &KeyRange) -> (r: bool)
        requires
            old(self).wf(),
            (level as int) < old(self).levels@.len(),
            range_wf(this@),
            !range_is_empty(this@),
        ensures
            final(self).wf(),
            final(self).levels@.len() == old(self).levels@.len(),
            r == !(exists|i: int|
                0 <= i < old(self).levels@[level as int].ranges@.len() && ranges_overlap(
                    (#[trigger] old(self).levels@[level as int].ranges@[i])@,
                    this@,
                )),
            r ==> final(self).levels@[level as int].ranges@.len() == old(self).levels@[level as int].ranges@.len() + 1 && (final(self).levels@[level as int].ranges@.last())@ == this@ && forall|k: int|
                0 <= k < old(self).levels@[level as int].ranges@.len()
                    ==> final(self).levels@[level as int].ranges@[k] == old(self).levels@[level as int].ranges@[k],
            forall|l: int|
                0 <= l < old(self).levels@.len() && l != level ==> #[trigger] final(self).levels@[l]
                    == old(self).levels@[l],
            final(self).levels@[level as int].del_size == old(self).levels@[level as int].del_size,
            final(self).tables == old(self).tables,
            !r ==> *final(self) == *old(self),
    {
        if self.is_overlaps_with(level, this) {
            return false;
        }
        let ghost pre = self.levels@;
        let this_copy = KeyRange {
            left: vstd::slice::slice_to_vec(this.left.as_slice()),
            right: vstd::slice::slice_to_vec(this.right.as_slice()),
            inf: this.inf,
        };
        proof {
            assert(this_copy@.left =~= this@.left);
            assert(this_copy@.right =~= this@.right);
        }
        let level_ref = &mut self.levels[level];
        level_ref.ranges.push(this_copy);
        proof {
            let lv = level as int;
            assert(self.levels@[lv].ranges@ =~= pre[lv].ranges@.push(this_copy));
            assert(this_copy@ == this@);
            assert forall|l: int, i: int, j: int|
                #![trigger self.levels@[l].ranges@[i], self.levels@[l].ranges@[j]]
                0 <= l < self.levels@.len() && 0 <= i < j < self.levels@[l].ranges@.len() implies
                !ranges_overlap(self.levels@[l].ranges@[i]@, self.levels@[l].ranges@[j]@) by {
                if l == lv && j == self.levels@[l].ranges@.len() - 1 {
                    assert(self.levels@[l].ranges@[i] == pre[l].ranges@[i]);
                    assert(!ranges_overlap(pre[lv].ranges@[i]@, this@));
                    lemma_overlap_symmetric(pre[lv].ranges@[i]@, this@);
                } else if l == lv {
                    assert(self.levels@[l].ranges@[i] == pre[l].ranges@[i]);
                    assert(self.levels@[l].ranges@[j] == pre[l].ranges@[j]);
                } else {
                }
            }
        }
        true
    }

    /// Releases a reserved range on `level`, whether the compaction
    /// succeeded or failed: the first registered range equal to the
    /// given one is removed; nothing else moves.
    pub fn delete(&mut self, level: usize, this: &KeyRange)
        requires
            old(self).wf(),
            (level as int) < old(self).levels@.len(),
        ensures
            final(self).wf(),
            final(self).levels@.len() == old(self).levels@.len(),
            final(self).tables == old(self).tables,
            forall|l: int|
                0 <= l < old(self).levels@.len() && l != level ==> #[trigger] final(self).levels@[l]
                    == old(self).levels@[l],
            final(self).levels@[level as int].del_size == old(self).levels@[level as int].del_size,
            (exists|i: int|
                0 <= i < old(self).levels@[level as int].ranges@.len() && (#[trigger] old(
                    self,
                ).levels@[level as int].ranges@[i])@ == this@) ==> exists|i: int|
                {
                    &&& 0 <= i < old(self).levels@[level as int].ranges@.len()
                    &&& (#[trigger] old(self).levels@[level as int].ranges@[i])@ == this@
                    &&& final(self).levels@[level as int].ranges@ == old(self).levels@[
                        level as int
                    ].ranges@.remove(i)
                },
            !(exists|i: int|
                0 <= i < old(self).levels@[level as int].ranges@.len() && (#[trigger] old(
                    self,
                ).levels@[level as int].ranges@[i])@ == this@) ==> *final(self) == *old(self),
    {
        let n = self.levels[level].ranges.len();
        let mut i: usize = 0;
        let ghost pre = self.levels@;
        while i < n
            invariant
                i <= n == self.levels@[level as int].ranges@.len(),
                self.wf(),
                (level as int) < self.levels@.len(),
                self.levels == old(self).levels,
                self.tables == old(self).tables,
                self.levels@ == pre,
                pre == old(self).levels@,
                forall|q: int|
                    0 <= q < i ==> (#[trigger] pre[level as int].ranges@[q])@ != this@,
            decreases n - i,
        {
            let same_inf = self.levels[level].ranges[i].inf == this.inf;
            let same_left = crate::codec::bytes_equal(
                self.levels[level].ranges[i].left.as_slice(),
                this.left.as_slice(),
            );
            let same_right = crate::codec::bytes_equal(
                self.levels[level].ranges[i].right.as_slice(),
                this.right.as_slice(),
            );
            if same_inf && same_left && same_right {
                proof {
                    assert((self.levels@[level as int].ranges@[i as int])@ == this@);
                }
                let level_ref = &mut self.levels[level];
                level_ref.ranges.remove(i);
                proof {
                    let lv = level as int;
                    assert(self.levels@.len() == pre.len());
                    assert(forall|l: int|
                        0 <= l < pre.len() && l != lv ==> #[trigger] self.levels@[l] == pre[l]);
                    assert(self.levels@[lv].ranges@ == pre[lv].ranges@.remove(i as int));
                    assert forall|l: int, i2: int, j2: int|
                        #![trigger self.levels@[l].ranges@[i2], self.levels@[l].ranges@[j2]]
                        0 <= l < self.levels@.len() && 0 <= i2 < j2 < self.levels@[l].ranges@.len()
                            implies !ranges_overlap(
                        self.levels@[l].ranges@[i2]@,
                        self.levels@[l].ranges@[j2]@,
                    ) by {
                        if l == lv {
                            let oi: int = if i2 < i {
                                i2
                            } else {
                                i2 + 1
                            };
                            let oj: int = if j2 < i {
                                j2
                            } else {
                                j2 + 1
                            };
                            assert(self.levels@[l].ranges@[i2] == pre[l].ranges@[oi]);
                            assert(self.levels@[l].ranges@[j2] == pre[l].ranges@[oj]);
                        }
                    }
                    assert forall|l: int, i2: int|
                        0 <= l < self.levels@.len() && 0 <= i2
                            < (#[trigger] self.levels@[l]).ranges@.len() implies range_wf(
                        (#[trigger] self.levels@[l].ranges@[i2])@,
                    ) && !range_is_empty(self.levels@[l].ranges@[i2]@) by {
                        if l == lv {
                            let oi: int = if i2 < i {
                                i2
                            } else {
                                i2 + 1
                            };
                            assert(self.levels@[l].ranges@[i2] == pre[l].ranges@[oi]);
                        }
                    }
                }
                return ;
            }
            proof {
                if (pre[level as int].ranges@[i as int])@ == this@ {
                    assert(same_inf && same_left && same_right);
                }
            }
            i = i + 1;
        }
        proof {
            if exists|q: int|
                0 <= q < pre[level as int].ranges@.len() && (#[trigger] pre[level as int].ranges@[
                    q
                ])@ == this@ {
                let q = choose|q: int|
                    0 <= q < pre[level as int].ranges@.len() && (#[trigger] pre[
                        level as int
                    ].ranges@[q])@ == this@;
                assert(false);
            }
        }
    }
}

/// Two equal, well-formed, non-empty ranges overlap, so the registry
/// never holds the same range twice on one level.
pub proof fn lemma_range_registered_once(cs: CompactStatus, level: int, i: int, j: int)
    requires
        cs.wf(),
        0 <= level < cs.levels@.len(),
        0 <= i < cs.levels@[level].ranges@.len(),
        0 <= j < cs.levels@[level].ranges@.len(),
        (cs.levels@[level].ranges@[i])@ == (cs.levels@[level].ranges@[j])@,
    ensures
        i == j,
{
    if i != j {
        let a = (cs.levels@[level].ranges@[i])@;
        assert(range_wf(a) && !range_is_empty(a));
        if !a.inf {
            assert(ranges_overlap(a, a));
        }
        lemma_no_double_compaction(cs, level, i, j);
    }
}

/// Overlap is symmetric.
pub proof fn lemma_overlap_symmetric(a: KeyRangeView, b: KeyRangeView)
    ensures
        ranges_overlap(a, b) == ranges_overlap(b, a),
{
}

/// Law: whatever two compaction workers reserved on the same level,
/// their ranges do not overlap. This is the registry's invariant, read
/// off for any two registered ranges.
pub proof fn lemma_no_double_compaction(cs: CompactStatus, level: int, i: int, j: int)
    requires
        cs.wf(),
        0 <= level < cs.levels@.len(),
        0 <= i < cs.levels@[level].ranges@.len(),
        0 <= j < cs.levels@[level].ranges@.len(),
        i != j,
    ensures
        !ranges_overlap((cs.levels@[level].ranges@[i])@, (cs.levels@[level].ranges@[j])@),
{
    if i < j {
    } else {
        lemma_overlap_symmetric((cs.levels@[level].ranges@[j])@, (cs.levels@[level].ranges@[i])@);
    }
}

} // verus!
