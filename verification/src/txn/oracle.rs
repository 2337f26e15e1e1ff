//! The transaction oracle: read and commit timestamps, watermarks over
//! in-flight operations, and write-write conflict detection.

use vstd::prelude::*;

verus! {

/// Tracks a set of pending timestamps and exposes the highest
/// timestamp below which nothing is still pending.
pub struct WaterMark {
    pending: Vec<u64>,
    max_begun: u64,
}

impl WaterMark {
    pub closed spec fn pending_view(&self) -> Seq<u64> {
        self.pending@
    }

    pub closed spec fn max_begun_view(&self) -> u64 {
        self.max_begun
    }

    /// The value `done_until` reports: one below the smallest pending
    /// timestamp (never below zero), or the last begun timestamp when
    /// nothing is pending.
    pub open spec fn done_until_view(&self) -> u64 {
        if self.pending_view().len() == 0 {
            self.max_begun_view()
        } else if seq_min(self.pending_view()) == 0 {
            0u64
        } else {
            (seq_min(self.pending_view()) - 1) as u64
        }
    }

    pub fn new() -> (r: WaterMark)
        ensures
            r.pending_view() == Seq::<u64>::empty(),
            r.max_begun_view() == 0,
    {
        WaterMark { pending: Vec::new(), max_begun: 0 }
    }

    /// Registers `ts` as pending.
    pub fn begin(&mut self, ts: u64)
        ensures
            final(self).pending_view() == old(self).pending_view().push(ts),
            final(self).max_begun_view() == (if ts > old(self).max_begun_view() {
                ts
            } else {
                old(self).max_begun_view()
            }),
    {
        self.pending.push(ts);
        if ts > self.max_begun {
            self.max_begun = ts;
        }
    }

    /// Marks one pending occurrence of `ts` as finished.
    pub fn done(&mut self, ts: u64)
        ensures
            final(self).max_begun_view() == old(self).max_begun_view(),
            (exists|i: int|
                0 <= i < old(self).pending_view().len() && old(self).pending_view()[i] == ts)
                ==> exists|i: int|
                {
                    &&& 0 <= i < old(self).pending_view().len()
                    &&& old(self).pending_view()[i] == ts
                    &&& final(self).pending_view() == old(self).pending_view().remove(i)
                },
            !(exists|i: int|
                0 <= i < old(self).pending_view().len() && old(self).pending_view()[i] == ts)
                ==> final(self).pending_view() == old(self).pending_view(),
    {
        let n = self.pending.len();
        let mut i: usize = 0;
        while i < n
            invariant
                i <= n == self.pending@.len(),
                self.pending@ == old(self).pending_view(),
                self.max_begun == old(self).max_begun_view(),
                forall|j: int| 0 <= j < i ==> old(self).pending_view()[j] != ts,
            decreases n - i,
        {
            if self.pending[i] == ts {
                self.pending.remove(i);
                return ;
            }
            i = i + 1;
        }
    }

    /// The highest timestamp below which nothing is pending.
    pub fn done_until(&self) -> (r: u64)
        ensures
            r == self.done_until_view(),
    {
        if self.pending.len() == 0 {
            return self.max_begun;
        }
        let n = self.pending.len();
        let mut m: u64 = self.pending[0];
        let mut i: usize = 1;
        proof {
            lemma_seq_min_take(self.pending@, 1);
        }
        while i < n
            invariant
                1 <= i <= n == self.pending@.len(),
                m == seq_min(self.pending@.take(i as int)),
            decreases n - i,
        {
            let x = self.pending[i];
            proof {
                assert(self.pending@.take(i + 1).drop_last() =~= self.pending@.take(i as int));
            }
            if x < m {
                m = x;
            }
            i = i + 1;
        }
        proof {
            assert(self.pending@.take(n as int) =~= self.pending@);
        }
        if m == 0 {
            0
        } else {
            m - 1
        }
    }
}

/// The least element of a non-empty sequence.
pub open spec fn seq_min(s: Seq<u64>) -> u64
    recommends
        s.len() > 0,
    decreases s.len(),
{
    if s.len() <= 1 {
        s[0]
    } else {
        let rest = seq_min(s.drop_last());
        if s.last() < rest {
            s.last()
        } else {
            rest
        }
    }
}

proof fn lemma_seq_min_take(s: Seq<u64>, i: int)
    requires
        0 < i <= s.len(),
    ensures
        i == 1 ==> seq_min(s.take(1)) == s[0],
{
    if i == 1 {
        assert(s.take(1).len() == 1);
        assert(s.take(1)[0] == s[0]);
    }
}

/// Per-transaction options.
#[derive(Debug, Clone, Copy, PartialEq, Eq, Structural)]
pub struct TxnConfig {
    /// Whether write-write conflicts are checked at commit.
    pub detect_conflicts: bool,
    /// Whether the caller manages commit timestamps itself.
    pub managed_txns: bool,
}

impl Default for TxnConfig {
    fn default() -> (r: Self)
        ensures
            r.detect_conflicts && !r.managed_txns,
    {
        TxnConfig { detect_conflicts: true, managed_txns: false }
    }
}

/// One committed transaction the oracle still remembers: its commit
/// timestamp and the hashes of the keys it wrote.
#[derive(Debug, Clone)]
pub struct CommittedTxn {
    pub ts: u64,
    pub conflict_keys: Vec<u64>,
}

/// A transaction, as the oracle sees it: its snapshot, the hashes of
/// the keys it read, and the hashes of the keys it wrote.
#[derive(Debug, Clone)]
pub struct Txn {
    pub read_ts: u64,
    pub commit_ts: u64,
    pub read_key_hash: Vec<u64>,
    pub conflict_keys: Vec<u64>,
}

/// This committed transaction wrote a key the reader read, after the
/// reader's snapshot.
pub open spec fn conflicts_with(c: CommittedTxn, read_ts: u64, reads: Seq<u64>) -> bool {
    c.ts > read_ts && exists|j: int| 0 <= j < reads.len() && c.conflict_keys@.contains(
        #[trigger] reads[j],
    )
}

/// Some transaction committed after the reader's snapshot wrote a key
/// the reader read.
pub open spec fn has_conflict(committed: Seq<CommittedTxn>, read_ts: u64, reads: Seq<u64>) -> bool {
    exists|i: int|
        0 <= i < committed.len() && conflicts_with(#[trigger] committed[i], read_ts, reads)
}

/// A remembered commit as mathematical values.
pub open spec fn ct_view(c: CommittedTxn) -> (u64, Seq<u64>) {
    (c.ts, c.conflict_keys@)
}

pub open spec fn txns_view(s: Seq<CommittedTxn>) -> Seq<(u64, Seq<u64>)> {
    s.map_values(|c: CommittedTxn| ct_view(c))
}

/// The records with a commit timestamp above the watermark, in order.
pub open spec fn keep_txns(s: Seq<(u64, Seq<u64>)>, mark: u64) -> Seq<(u64, Seq<u64>)>
    decreases s.len(),
{
    if s.len() == 0 {
        Seq::empty()
    } else if s.last().0 > mark {
        keep_txns(s.drop_last(), mark).push(s.last())
    } else {
        keep_txns(s.drop_last(), mark)
    }
}

/// Issues read and commit timestamps, tracks in-flight reads and
/// commits through watermarks, and detects write-write conflicts.
pub struct Oracle {
    pub next_txn_ts: u64,
    pub discard_ts: u64,
    pub last_cleanup_ts: u64,
    pub committed_txns: Vec<CommittedTxn>,
    pub read_mark: WaterMark,
    pub txn_mark: WaterMark,
    pub config: TxnConfig,
}

impl Oracle {
    pub fn new(config: TxnConfig) -> (r: Oracle)
        ensures
            r.next_txn_ts == 1,
            r.committed_txns@.len() == 0,
            r.config == config,
    {
        Oracle {
            next_txn_ts: 1,
            discard_ts: 0,
            last_cleanup_ts: 0,
            committed_txns: Vec::new(),
            read_mark: WaterMark::new(),
            txn_mark: WaterMark::new(),
            config,
        }
    }

    pub fn config(&self) -> (r: TxnConfig)
        ensures
            r == self.config,
    {
        self.config
    }

    /// The timestamp at or below which compaction may drop versions:
    /// the caller-set discard mark for managed stores, the read
    /// watermark otherwise.
    pub fn discard_at_or_below(&self) -> (r: u64)
        ensures
            self.config.managed_txns ==> r == self.discard_ts,
            !self.config.managed_txns ==> r == self.read_mark.done_until_view(),
    {
        if self.config.managed_txns {
            return self.discard_ts;
        }
        self.read_mark.done_until()
    }

    /// Hands out the snapshot for a new read transaction: one before
    /// the next commit timestamp, registered as a pending read.
    pub fn get_latest_read_ts(&mut self) -> (r: u64)
        requires
            !old(self).config.managed_txns,
            old(self).next_txn_ts >= 1,
        ensures
            r == old(self).next_txn_ts - 1,
            final(self).next_txn_ts == old(self).next_txn_ts,
            final(self).read_mark.pending_view() == old(self).read_mark.pending_view().push(r),
            final(self).committed_txns == old(self).committed_txns,
            final(self).config == old(self).config,
            final(self).txn_mark == old(self).txn_mark,
    {
        let read_ts = self.next_txn_ts - 1;
        self.read_mark.begin(read_ts);
        read_ts
    }

    /// Commits a transaction: fails with a conflict exactly when
    /// conflict detection is on and some transaction that committed
    /// after this one's snapshot wrote a key it read. On success the
    /// next commit timestamp is allocated: it lies past the
    /// transaction's snapshot and at or past the last cleanup, and the
    /// transaction's own written keys are remembered for future
    /// checks. Managed mode, where the caller chooses every commit
    /// timestamp, is outside this oracle: it serves the unmanaged
    /// engine only, which the second premise says.
    pub fn get_latest_commit_ts(&mut self, txn: &Txn) -> (r: Result<u64, crate::errors::DBError>)
        requires
            old(self).next_txn_ts < u64::MAX,
            !old(self).config.managed_txns,
            // a snapshot this oracle handed out precedes its counter,
            // and cleanup never runs past the counter
            txn.read_ts < old(self).next_txn_ts,
            old(self).last_cleanup_ts <= old(self).next_txn_ts,
        ensures
            match r {
                Ok(commit_ts) => {
                    &&& !(old(self).config.detect_conflicts && has_conflict(
                        old(self).committed_txns@,
                        txn.read_ts,
                        txn.read_key_hash@,
                    ))
                    &&& commit_ts == old(self).next_txn_ts
                    &&& commit_ts > txn.read_ts
                    &&& commit_ts >= old(self).last_cleanup_ts
                    &&& final(self).next_txn_ts == old(self).next_txn_ts + 1
                    &&& (old(self).config.detect_conflicts ==> final(self).committed_txns@.len()
                        > 0 && final(self).committed_txns@.last().ts == commit_ts
                        && (final(self).committed_txns@.last()).conflict_keys@
                        == txn.conflict_keys@)
                    &&& final(self).txn_mark.pending_view()
                        == old(self).txn_mark.pending_view().push(commit_ts)
                },
                Err(e) => {
                    &&& e == crate::errors::DBError::Conflict
                    &&& old(self).config.detect_conflicts
                    &&& has_conflict(old(self).committed_txns@, txn.read_ts, txn.read_key_hash@)
                    &&& *final(self) == *old(self)
                },
            },
    {
        if self.config.detect_conflicts {
            let nc = self.committed_txns.len();
            let mut i: usize = 0;
            while i < nc
                invariant
                    i <= nc == self.committed_txns@.len(),
                    self == old(self),
                    self.config.detect_conflicts,
                    forall|i2: int|
                        0 <= i2 < i ==> !conflicts_with(
                            #[trigger] self.committed_txns@[i2],
                            txn.read_ts,
                            txn.read_key_hash@,
                        ),
                decreases nc - i,
            {
                let ct_ts = self.committed_txns[i].ts;
                if ct_ts > txn.read_ts {
                    let nh = txn.read_key_hash.len();
                    let mut j: usize = 0;
                    while j < nh
                        invariant
                            j <= nh == txn.read_key_hash@.len(),
                            i < self.committed_txns@.len(),
                            self == old(self),
                            self.config.detect_conflicts,
                            (self.committed_txns@[i as int]).ts > txn.read_ts,
                            forall|j2: int|
                                0 <= j2 < j ==> !self.committed_txns@[i as int].conflict_keys@
                                    .contains(#[trigger] txn.read_key_hash@[j2]),
                        decreases nh - j,
                    {
                        let hash = txn.read_key_hash[j];
                        let keys = &self.committed_txns[i].conflict_keys;
                        let nk = keys.len();
                        let mut k: usize = 0;
                        let mut found = false;
                        while k < nk && !found
                            invariant
                                k <= nk == keys@.len(),
                                found ==> k < nk && keys@[k as int] == hash,
                                !found ==> forall|q: int| 0 <= q < k ==> keys@[q] != hash,
                            decreases nk - k + (if found {
                                0int
                            } else {
                                1int
                            }),
                        {
                            if keys[k] == hash {
                                found = true;
                            } else {
                                k = k + 1;
                            }
                        }
                        if found {
                            proof {
                                let c = self.committed_txns@[i as int];
                                assert(keys@ == c.conflict_keys@);
                                assert(hash == txn.read_key_hash@[j as int]);
                                assert(keys@[k as int] == hash);
                                assert(c.conflict_keys@[k as int] == txn.read_key_hash@[j as int]);
                                assert(c.conflict_keys@.contains(txn.read_key_hash@[j as int]));
                                assert(conflicts_with(c, txn.read_ts, txn.read_key_hash@));
                                assert(has_conflict(
                                    self.committed_txns@,
                                    txn.read_ts,
                                    txn.read_key_hash@,
                                ));
                            }
                            return Err(crate::errors::DBError::Conflict);
                        }
                        proof {
                            let c = self.committed_txns@[i as int];
                            if c.conflict_keys@.contains(txn.read_key_hash@[j as int]) {
                                let q = choose|q: int|
                                    0 <= q < c.conflict_keys@.len() && c.conflict_keys@[q]
                                        == txn.read_key_hash@[j as int];
                                assert(keys@[q] == txn.read_key_hash@[j as int]);
                                assert(false);
                            }
                        }
                        j = j + 1;
                    }
                    proof {
                        let c = self.committed_txns@[i as int];
                        if conflicts_with(c, txn.read_ts, txn.read_key_hash@) {
                            let j2 = choose|j2: int|
                                0 <= j2 < txn.read_key_hash@.len() && c.conflict_keys@.contains(
                                    #[trigger] txn.read_key_hash@[j2],
                                );
                            assert(false);
                        }
                    }
                }
                i = i + 1;
            }
            proof {
                if has_conflict(self.committed_txns@, txn.read_ts, txn.read_key_hash@) {
                    let i2 = choose|i2: int|
                        0 <= i2 < self.committed_txns@.len() && conflicts_with(
                            #[trigger] self.committed_txns@[i2],
                            txn.read_ts,
                            txn.read_key_hash@,
                        );
                    assert(false);
                }
            }
        }
        let commit_ts = self.next_txn_ts;
        self.next_txn_ts = self.next_txn_ts + 1;
        self.txn_mark.begin(commit_ts);
        if self.config.detect_conflicts {
            let keys_copy = vstd::slice::slice_to_vec(txn.conflict_keys.as_slice());
            self.committed_txns.push(CommittedTxn { ts: commit_ts, conflict_keys: keys_copy });
        }
        Ok(commit_ts)
    }

    /// Forgets committed transactions no active reader can still
    /// conflict with: when the read watermark has moved past the last
    /// cleanup point, exactly the records at or below it are dropped
    /// and the cleanup point advances; otherwise nothing changes.
    pub fn cleanup_committed_txns(&mut self)
        ensures
            final(self).read_mark == old(self).read_mark,
            final(self).txn_mark == old(self).txn_mark,
            final(self).next_txn_ts == old(self).next_txn_ts,
            final(self).discard_ts == old(self).discard_ts,
            final(self).config == old(self).config,
            !old(self).config.detect_conflicts ==> final(self).committed_txns == old(self).committed_txns && final(self).last_cleanup_ts == old(self).last_cleanup_ts,
            old(self).config.detect_conflicts && cleanup_mark(*old(self)) <= old(self).last_cleanup_ts ==> final(self).committed_txns == old(self).committed_txns && final(self).last_cleanup_ts == old(self).last_cleanup_ts,
            old(self).config.detect_conflicts && cleanup_mark(*old(self)) > old(self).last_cleanup_ts ==> final(self).last_cleanup_ts == cleanup_mark(*old(self))
                && txns_view(final(self).committed_txns@) == keep_txns(
                txns_view(old(self).committed_txns@),
                cleanup_mark(*old(self)),
            ),
    {
        if !self.config.detect_conflicts {
            return ;
        }
        let max_read_ts = if self.config.managed_txns {
            self.discard_ts
        } else {
            self.read_mark.done_until()
        };
        if max_read_ts < self.last_cleanup_ts {
            return ;
        }
        if max_read_ts == self.last_cleanup_ts {
            return ;
        }
        self.last_cleanup_ts = max_read_ts;
        let n = self.committed_txns.len();
        let mut kept: Vec<CommittedTxn> = Vec::new();
        let mut i: usize = 0;
        proof {
            assert(txns_view(old(self).committed_txns@).take(0)
                =~= Seq::<(u64, Seq<u64>)>::empty());
            assert(txns_view(kept@) =~= Seq::<(u64, Seq<u64>)>::empty());
        }
        while i < n
            invariant
                i <= n == self.committed_txns@.len(),
                self.committed_txns == old(self).committed_txns,
                txns_view(kept@) == keep_txns(
                    txns_view(old(self).committed_txns@).take(i as int),
                    max_read_ts,
                ),
            decreases n - i,
        {
            let t = self.committed_txns[i].ts;
            proof {
                let full = txns_view(old(self).committed_txns@);
                assert(full.take(i + 1).drop_last() =~= full.take(i as int));
                assert(full.take(i + 1).last() == full[i as int]);
                assert(full[i as int].0 == t);
            }
            if t > max_read_ts {
                let c = CommittedTxn {
                    ts: t,
                    conflict_keys: vstd::slice::slice_to_vec(
                        self.committed_txns[i].conflict_keys.as_slice(),
                    ),
                };
                let ghost kept0 = kept@;
                kept.push(c);
                proof {
                    assert(txns_view(kept@) =~= txns_view(kept0).push(
                        txns_view(old(self).committed_txns@)[i as int],
                    ));
                }
            }
            i = i + 1;
        }
        proof {
            assert(txns_view(old(self).committed_txns@).take(n as int) =~= txns_view(
                old(self).committed_txns@,
            ));
        }
        self.committed_txns = kept;
    }
}

/// The watermark a cleanup pass compares against: the caller-set
/// discard mark for managed stores, the read watermark otherwise.
pub open spec fn cleanup_mark(o: Oracle) -> u64 {
    if o.config.managed_txns {
        o.discard_ts
    } else {
        o.read_mark.done_until_view()
    }
}

} // verus!
