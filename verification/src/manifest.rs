//! The manifest: the durable, replayable ledger of which table ids
//! exist and which level owns each.
//!
//! The file starts with the magic bytes, an external magic version and
//! the engine's own format version, followed by a stream of
//! length-prefixed, checksummed change-set records. Replay folds every
//! record into the in-memory table map; a truncated or corrupt tail is
//! discarded and the file is cut back to the last whole record.

use vstd::prelude::*;

use crate::checksum::{crc32, crc32_of};
use crate::codec::{
    be16_val, be32_of, be32_val, be64_of, get_u32_be, get_u64_be, get_varint, put_u32_be,
    put_u64_be, put_varint, varint_of,
};
use crate::errors::DBError;
use crate::table::opt::CompressionType;

verus! {

broadcast use vstd::std_specs::hash::group_hash_axioms;

/// The engine's manifest format version.
pub const BADGER_MAGIC_VERSION: u16 = 8;

/// Bytes every manifest file starts with.
pub const MAGIC_B: u8 = 66;

pub const MAGIC_D: u8 = 100;

pub const MAGIC_G: u8 = 103;

pub const MAGIC_R: u8 = 114;

/// Size of one serialized manifest change.
pub const CHANGE_SIZE: usize = 22;

/// What the manifest records about one table.
#[derive(Debug, Clone, Copy, PartialEq, Eq, Structural)]
pub struct TableManifest {
    pub level: u8,
    pub keyid: u64,
    pub compression: CompressionType,
}

/// One create or delete operation in a change set.
#[derive(Debug, Clone, Copy, PartialEq, Eq, Structural)]
pub enum ManifestOp {
    Create,
    Delete,
}

#[derive(Debug, Clone, Copy, PartialEq, Eq, Structural)]
pub struct ManifestChange {
    pub id: u64,
    pub op: ManifestOp,
    pub level: u32,
    pub key_id: u64,
    pub compression: u8,
}

impl ManifestChange {
    pub fn new_create_change(id: u64, level: u32, key_id: u64, compression: u8) -> (r:
        ManifestChange)
        ensures
            r == (ManifestChange { id, op: ManifestOp::Create, level, key_id, compression }),
    {
        ManifestChange { id, op: ManifestOp::Create, level, key_id, compression }
    }

    pub fn new_delete_change(id: u64) -> (r: ManifestChange)
        ensures
            r == (ManifestChange {
                id,
                op: ManifestOp::Delete,
                level: 0u32,
                key_id: 0u64,
                compression: 0u8,
            }),
    {
        ManifestChange { id, op: ManifestOp::Delete, level: 0, key_id: 0, compression: 0 }
    }
}

// ---------------------------------------------------------------------
// Change-set serialization
// ---------------------------------------------------------------------

pub open spec fn op_byte(op: ManifestOp) -> u8 {
    match op {
        ManifestOp::Create => 0u8,
        ManifestOp::Delete => 1u8,
    }
}

/// The 22-byte wire form of one change.
pub open spec fn change_bytes(c: ManifestChange) -> Seq<u8> {
    seq![op_byte(c.op)] + be64_of(c.id) + be32_of(c.level) + be64_of(c.key_id) + seq![
        c.compression,
    ]
}

pub open spec fn changes_bytes(cs: Seq<ManifestChange>) -> Seq<u8>
    decreases cs.len(),
{
    if cs.len() == 0 {
        Seq::empty()
    } else {
        changes_bytes(cs.drop_last()) + change_bytes(cs.last())
    }
}

/// A serialized change set: the change count, then the changes.
pub open spec fn change_set_bytes(cs: Seq<ManifestChange>) -> Seq<u8> {
    varint_of(cs.len() as u64) + changes_bytes(cs)
}

/// A change list the engine could have written: compression bytes it
/// knows, and a count a varint can carry.
pub open spec fn change_set_valid(cs: Seq<ManifestChange>) -> bool {
    &&& cs.len() <= u64::MAX
    &&& forall|i: int| 0 <= i < cs.len() ==> (#[trigger] cs[i]).compression <= 2
}

pub proof fn lemma_changes_bytes_len(cs: Seq<ManifestChange>)
    ensures
        changes_bytes(cs).len() == CHANGE_SIZE * cs.len(),
    decreases cs.len(),
{
    if cs.len() > 0 {
        lemma_changes_bytes_len(cs.drop_last());
    }
}

pub proof fn lemma_changes_bytes_index(cs: Seq<ManifestChange>, i: int)
    requires
        0 <= i < cs.len(),
    ensures
        changes_bytes(cs).subrange(CHANGE_SIZE * i, CHANGE_SIZE * i + CHANGE_SIZE as int)
            == change_bytes(cs[i]),
    decreases cs.len(),
{
    lemma_changes_bytes_len(cs);
    lemma_changes_bytes_len(cs.drop_last());
    if i == cs.len() - 1 {
        assert(changes_bytes(cs).subrange(CHANGE_SIZE * i, CHANGE_SIZE * i + CHANGE_SIZE as int)
            =~= change_bytes(cs.last()));
    } else {
        lemma_changes_bytes_index(cs.drop_last(), i);
        assert(changes_bytes(cs).subrange(CHANGE_SIZE * i, CHANGE_SIZE * i + CHANGE_SIZE as int)
            =~= changes_bytes(cs.drop_last()).subrange(
            CHANGE_SIZE * i,
            CHANGE_SIZE * i + CHANGE_SIZE as int,
        ));
        assert(cs[i] == cs.drop_last()[i]);
    }
}

/// Appends the wire form of one change.
fn put_change(out: &mut Vec<u8>, c: &ManifestChange)
    ensures
        final(out)@ == old(out)@ + change_bytes(*c),
{
    let ghost pre = out@;
    match c.op {
        ManifestOp::Create => out.push(0u8),
        ManifestOp::Delete => out.push(1u8),
    }
    put_u64_be(out, c.id);
    put_u32_be(out, c.level);
    put_u64_be(out, c.key_id);
    out.push(c.compression);
    proof {
        assert(out@ =~= pre + change_bytes(*c));
    }
}

/// Serializes a change set.
pub fn encode_change_set(changes: &Vec<ManifestChange>) -> (r: Vec<u8>)
    ensures
        r@ == change_set_bytes(changes@),
{
    let mut out: Vec<u8> = Vec::new();
    put_varint(&mut out, changes.len() as u64);
    let n = changes.len();
    let mut i: usize = 0;
    while i < n
        invariant
            i <= n == changes@.len(),
            out@ == varint_of(n as u64) + changes_bytes(changes@.take(i as int)),
        decreases n - i,
    {
        let ghost pre = out@;
        put_change(&mut out, &changes[i]);
        proof {
            assert(changes@.take(i + 1).drop_last() =~= changes@.take(i as int));
            assert(changes@.take(i + 1).last() == changes@[i as int]);
        }
        i = i + 1;
    }
    proof {
        assert(changes@.take(n as int) =~= changes@);
    }
    out
}

/// Reads the change that starts at `pos`; `None` when the operation or
/// compression byte is not one the engine writes.
fn get_change(buf: &[u8], pos: usize) -> (r: Option<ManifestChange>)
    requires
        pos + CHANGE_SIZE <= buf@.len(),
    ensures
        match r {
            Some(c) => change_bytes(c) == buf@.subrange(pos as int, pos + CHANGE_SIZE as int)
                && c.compression <= 2,
            None => forall|c: ManifestChange|
                c.compression <= 2 ==> #[trigger] change_bytes(c) != buf@.subrange(
                    pos as int,
                    pos + CHANGE_SIZE as int,
                ),
        },
{
    let opb = buf[pos];
    let comp = buf[pos + 21];
    if opb > 1 || comp > 2 {
        proof {
            assert forall|c: ManifestChange| c.compression <= 2 implies #[trigger] change_bytes(
                c,
            ) != buf@.subrange(pos as int, pos + CHANGE_SIZE as int) by {
                if change_bytes(c) == buf@.subrange(pos as int, pos + CHANGE_SIZE as int) {
                    assert(change_bytes(c)[0] == buf@[pos as int]);
                    assert(change_bytes(c)[21] == buf@[pos + 21]);
                }
            }
        }
        return None;
    }
    let op = if opb == 0 {
        ManifestOp::Create
    } else {
        ManifestOp::Delete
    };
    let id = get_u64_be(buf, pos + 1);
    let level = get_u32_be(buf, pos + 9);
    let key_id = get_u64_be(buf, pos + 13);
    let c = ManifestChange { id, op, level, key_id, compression: comp };
    proof {
        crate::codec::lemma_be64_inverse(buf@.subrange(pos + 1, pos + 9));
        crate::codec::lemma_be32_inverse(buf@.subrange(pos + 9, pos + 13));
        crate::codec::lemma_be64_inverse(buf@.subrange(pos + 13, pos + 21));
        assert(change_bytes(c) =~= buf@.subrange(pos as int, pos + CHANGE_SIZE as int));
    }
    Some(c)
}

/// Parses a whole change-set payload. Exact: `Some` if and only if the
/// payload is the wire form of some change list, which it returns.
pub fn decode_change_set(buf: &[u8]) -> (r: Option<Vec<ManifestChange>>)
    ensures
        match r {
            Some(cs) => change_set_bytes(cs@) == buf@ && change_set_valid(cs@),
            None => forall|cs: Seq<ManifestChange>|
                change_set_valid(cs) ==> #[trigger] change_set_bytes(cs) != buf@,
        },
{
    let n = buf.len();
    let count_parse = get_varint(buf, 0);
    let (count64, vn) = match count_parse {
        Some(x) => x,
        None => {
            proof {
                assert forall|cs: Seq<ManifestChange>| change_set_valid(cs) implies #[trigger]
                    change_set_bytes(cs) != buf@ by {
                    if change_set_bytes(cs) == buf@ {
                        let v = varint_of(cs.len() as u64);
                        crate::codec::lemma_varint_len(cs.len() as u64);
                        assert(buf@.subrange(0, v.len() as int) =~= v);
                        assert(crate::codec::varint_at(buf@, 0));
                    }
                }
            }
            return None;
        },
    };
    if count64 > (usize::MAX / CHANGE_SIZE) as u64 || (count64 as usize) > (n - vn)
        / CHANGE_SIZE {
        proof {
            assert((CHANGE_SIZE as int) * (count64 as int) != buf@.len() - vn)
                by (nonlinear_arith)
                requires
                    buf@.len() == n <= usize::MAX,
                    0 <= vn <= n,
                    (count64 as int) > (usize::MAX as int) / (CHANGE_SIZE as int) || (
                    count64 as int) > (n - vn) / (CHANGE_SIZE as int),
            ;
            lemma_decode_set_mismatch(buf@, count64, vn as int);
        }
        return None;
    }
    let count = count64 as usize;
    proof {
        assert(count * CHANGE_SIZE <= n - vn) by (nonlinear_arith)
            requires
                count <= (n - vn) / (CHANGE_SIZE as int),
                n >= vn >= 0,
        ;
    }
    if n - vn != count * CHANGE_SIZE {
        proof {
            lemma_decode_set_mismatch(buf@, count64, vn as int);
        }
        return None;
    }
    let mut cs: Vec<ManifestChange> = Vec::new();
    let mut i: usize = 0;
    while i < count
        invariant
            i <= count,
            n == buf@.len(),
            vn + count * CHANGE_SIZE == n,
            cs@.len() == i,
            forall|j: int|
                0 <= j < i ==> change_bytes(#[trigger] cs@[j]) == buf@.subrange(
                    vn + CHANGE_SIZE * j,
                    vn + CHANGE_SIZE * j + CHANGE_SIZE as int,
                ),
            forall|j: int| 0 <= j < i ==> (#[trigger] cs@[j]).compression <= 2,
            buf@.subrange(0, vn as int) == varint_of(count64),
            count64 == count,
            vn == varint_of(count64).len(),
        decreases count - i,
    {
        proof {
            assert(CHANGE_SIZE * i + CHANGE_SIZE <= CHANGE_SIZE * count) by (nonlinear_arith)
                requires
                    0 <= i < count,
            ;
            assert(vn + CHANGE_SIZE * i + CHANGE_SIZE <= buf@.len());
        }
        let c = match get_change(buf, vn + CHANGE_SIZE * i) {
            Some(c) => c,
            None => {
                proof {
                    assert forall|cs2: Seq<ManifestChange>| change_set_valid(cs2) implies
                        #[trigger] change_set_bytes(cs2) != buf@ by {
                        if change_set_bytes(cs2) == buf@ {
                            lemma_decode_set_facts(buf@, cs2, count64, vn as int);
                            lemma_changes_bytes_index(cs2, i as int);
                            assert(change_bytes(cs2[i as int]) =~= buf@.subrange(
                                vn + CHANGE_SIZE * i,
                                vn + CHANGE_SIZE * i + CHANGE_SIZE as int,
                            ));
                        }
                    }
                }
                return None;
            },
        };
        cs.push(c);
        i = i + 1;
    }
    proof {
        lemma_changes_bytes_len(cs@);
        let region = buf@.subrange(vn as int, buf@.len() as int);
        assert forall|j: int| 0 <= j < count implies #[trigger] changes_bytes(cs@).subrange(
            CHANGE_SIZE * j,
            CHANGE_SIZE * j + CHANGE_SIZE as int,
        ) == region.subrange(CHANGE_SIZE * j, CHANGE_SIZE * j + CHANGE_SIZE as int) by {
            lemma_changes_bytes_index(cs@, j);
            assert(region.subrange(CHANGE_SIZE * j, CHANGE_SIZE * j + CHANGE_SIZE as int)
                =~= buf@.subrange(
                vn + CHANGE_SIZE * j,
                vn + CHANGE_SIZE * j + CHANGE_SIZE as int,
            ));
        }
        lemma_bytes_by_chunks(changes_bytes(cs@), region, count as int);
        assert(change_set_bytes(cs@) =~= buf@);
    }
    Some(cs)
}

/// Two byte strings that agree on every 22-byte chunk agree everywhere.
proof fn lemma_bytes_by_chunks(a: Seq<u8>, b: Seq<u8>, count: int)
    requires
        0 <= count,
        a.len() == CHANGE_SIZE * count,
        b.len() == CHANGE_SIZE * count,
        forall|j: int|
            0 <= j < count ==> #[trigger] a.subrange(
                CHANGE_SIZE * j,
                CHANGE_SIZE * j + CHANGE_SIZE as int,
            ) == b.subrange(CHANGE_SIZE * j, CHANGE_SIZE * j + CHANGE_SIZE as int),
    ensures
        a =~= b,
{
    assert forall|p: int| 0 <= p < a.len() implies a[p] == b[p] by {
        let j = p / (CHANGE_SIZE as int);
        let o = p % (CHANGE_SIZE as int);
        assert(p == CHANGE_SIZE * j + o && 0 <= o < CHANGE_SIZE && 0 <= j < count)
            by (nonlinear_arith)
            requires
                0 <= p < CHANGE_SIZE * count,
                j == p / (CHANGE_SIZE as int),
                o == p % (CHANGE_SIZE as int),
        ;
        let sa = a.subrange(CHANGE_SIZE * j, CHANGE_SIZE * j + CHANGE_SIZE as int);
        let sb = b.subrange(CHANGE_SIZE * j, CHANGE_SIZE * j + CHANGE_SIZE as int);
        assert(sa == sb);
        assert(sa[o] == a[p]);
        assert(sb[o] == b[p]);
    }
}

/// If a change list's wire form is `bytes`, its count varint and length
/// must line up with what the decoder parsed.
proof fn lemma_decode_set_facts(bytes: Seq<u8>, cs: Seq<ManifestChange>, count64: u64, vn: int)
    requires
        change_set_bytes(cs) == bytes,
        0 <= vn <= bytes.len(),
        bytes.subrange(0, vn) == varint_of(count64),
        vn == varint_of(count64).len(),
    ensures
        change_set_valid(cs) ==> cs.len() == count64,
        changes_bytes(cs) == bytes.subrange(vn, bytes.len() as int),
        bytes.len() == vn + CHANGE_SIZE * cs.len(),
        change_set_valid(cs) ==> bytes.len() == vn + CHANGE_SIZE * count64,
{
    let v = varint_of(cs.len() as u64);
    lemma_changes_bytes_len(cs);
    assert(bytes.subrange(0, v.len() as int) =~= v);
    crate::codec::lemma_varint_unique_at(bytes, 0, cs.len() as u64, count64);
    assert(v.len() == vn);
    assert(changes_bytes(cs) =~= bytes.subrange(vn, bytes.len() as int));
}

/// No change list fits a payload whose length disagrees with its count.
proof fn lemma_decode_set_mismatch(bytes: Seq<u8>, count64: u64, vn: int)
    requires
        0 <= vn <= bytes.len(),
        bytes.subrange(0, vn) == varint_of(count64),
        vn == varint_of(count64).len(),
        bytes.len() - vn != CHANGE_SIZE * count64,
    ensures
        forall|cs: Seq<ManifestChange>|
            change_set_valid(cs) ==> #[trigger] change_set_bytes(cs) != bytes,
{
    assert forall|cs: Seq<ManifestChange>| change_set_valid(cs) implies #[trigger]
        change_set_bytes(cs) != bytes by {
        if change_set_bytes(cs) == bytes {
            lemma_decode_set_facts(bytes, cs, count64, vn);
        }
    }
}

// ---------------------------------------------------------------------
// The in-memory manifest and change application
// ---------------------------------------------------------------------

pub open spec fn compression_of(b: u8) -> CompressionType {
    if b == 1 {
        CompressionType::Snappy
    } else if b == 2 {
        CompressionType::Zstd
    } else {
        CompressionType::NoCompression
    }
}

pub open spec fn table_manifest_of(c: ManifestChange) -> TableManifest {
    TableManifest { level: c.level as u8, keyid: c.key_id, compression: compression_of(c.compression) }
}

/// What one change does to the table map; `None` when it is invalid
/// against the current state.
pub open spec fn apply_change_map(
    t: Map<u64, TableManifest>,
    c: ManifestChange,
) -> Option<Map<u64, TableManifest>> {
    match c.op {
        ManifestOp::Create => {
            if t.dom().contains(c.id) || c.level > u8::MAX {
                None
            } else {
                Some(t.insert(c.id, table_manifest_of(c)))
            }
        },
        ManifestOp::Delete => {
            if t.dom().contains(c.id) {
                Some(t.remove(c.id))
            } else {
                None
            }
        },
    }
}

/// Folds a change list over the table map.
pub open spec fn apply_changes_map(
    t: Map<u64, TableManifest>,
    cs: Seq<ManifestChange>,
) -> Option<Map<u64, TableManifest>>
    decreases cs.len(),
{
    if cs.len() == 0 {
        Some(t)
    } else {
        match apply_changes_map(t, cs.drop_last()) {
            Some(m) => apply_change_map(m, cs.last()),
            None => None,
        }
    }
}

/// Folds a whole run of change sets.
pub open spec fn apply_sets_map(
    t: Map<u64, TableManifest>,
    csl: Seq<Seq<ManifestChange>>,
) -> Option<Map<u64, TableManifest>>
    decreases csl.len(),
{
    if csl.len() == 0 {
        Some(t)
    } else {
        match apply_sets_map(t, csl.drop_last()) {
            Some(m) => apply_changes_map(m, csl.last()),
            None => None,
        }
    }
}

/// The table ids one level owns.
#[derive(Debug)]
pub struct LevelManifest {
    pub tables: Vec<u64>,
}

/// The manifest: which table ids exist and which level owns each.
#[derive(Debug)]
pub struct Manifest {
    pub levels: Vec<LevelManifest>,
    pub tables: std::collections::HashMap<u64, TableManifest>,
    pub creations: u64,
    pub deletions: u64,
}

impl Manifest {
    /// The level lists and the table map say the same thing.
    pub open spec fn wf(&self) -> bool {
        &&& forall|l: int, i: int|
            0 <= l < self.levels@.len() && 0 <= i < self.levels@[l].tables@.len()
                ==> self.tables@.contains_key(#[trigger] self.levels@[l].tables@[i])
                && self.tables@[self.levels@[l].tables@[i]].level == l
        &&& forall|l: int, i: int, j: int|
            #![trigger self.levels@[l].tables@[i], self.levels@[l].tables@[j]]
            0 <= l < self.levels@.len() && 0 <= i < j < self.levels@[l].tables@.len()
                ==> self.levels@[l].tables@[i] != self.levels@[l].tables@[j]
        &&& forall|id: u64|
            self.tables@.contains_key(id) ==> (#[trigger] self.tables@[id]).level < self
                .levels@.len() && self.levels@[self.tables@[id].level as int].tables@.contains(id)
    }

    pub fn new() -> (r: Manifest)
        ensures
            r.wf(),
            r.tables@ == Map::<u64, TableManifest>::empty(),
            r.levels@.len() == 0,
    {
        let r = Manifest {
            levels: Vec::new(),
            tables: std::collections::HashMap::new(),
            creations: 0,
            deletions: 0,
        };
        proof {
            assert(r.tables@ =~= Map::<u64, TableManifest>::empty());
        }
        r
    }

    /// Applies one create or delete to the ledger. Fails exactly when
    /// the change is invalid: creating an id that exists, creating at a
    /// level past the ledger's 255-level range (refused outright rather
    /// than silently truncating the level to a byte), or deleting an id
    /// that does not exist.
    /// What a recovery removes from disk: every file id found there
    /// that the manifest does not know, in the order given. The
    /// manifest is the ledger; a table file it never recorded, or whose
    /// record was deleted, is dead weight.
    pub fn ids_to_revert(&self, on_disk: &Vec<u64>) -> (r: Vec<u64>)
        ensures
            r@ == on_disk@.filter(|id: u64| !self.tables@.contains_key(id)),
    {
        let ghost pred = |id: u64| !self.tables@.contains_key(id);
        let mut out: Vec<u64> = Vec::new();
        let n = on_disk.len();
        let mut i: usize = 0;
        while i < n
            invariant
                i <= n == on_disk@.len(),
                pred == (|id: u64| !self.tables@.contains_key(id)),
                out@ == on_disk@.take(i as int).filter(pred),
            decreases n - i,
        {
            proof {
                reveal(Seq::filter);
                assert(on_disk@.take(i + 1).drop_last() =~= on_disk@.take(i as int));
                assert(on_disk@.take(i + 1).last() == on_disk@[i as int]);
            }
            let id = on_disk[i];
            if !self.tables.contains_key(&id) {
                out.push(id);
                proof {
                    assert(pred(on_disk@[i as int]));
                    assert(out@ =~= on_disk@.take(i + 1).filter(pred));
                }
            } else {
                proof {
                    assert(!pred(on_disk@[i as int]));
                    assert(out@ =~= on_disk@.take(i + 1).filter(pred));
                }
            }
            i = i + 1;
        }
        proof {
            assert(on_disk@.take(n as int) =~= on_disk@);
        }
        out
    }

    pub fn apply_manifest_change(&mut self, change: &ManifestChange) -> (r: Result<(), DBError>)
        requires
            old(self).wf(),
        ensures
            final(self).wf(),
            match r {
                Ok(()) => {
                    &&& apply_change_map(old(self).tables@, *change) == Some(final(self).tables@)
                    // the rewrite threshold's counters: a create counts a
                    // creation, a delete counts a deletion, saturating
                    &&& change.op == ManifestOp::Create ==> final(self).deletions == old(
                        self,
                    ).deletions && final(self).creations as int == (if old(self).creations < u64::MAX {
                        old(self).creations as int + 1
                    } else {
                        old(self).creations as int
                    })
                    &&& change.op == ManifestOp::Delete ==> final(self).creations == old(
                        self,
                    ).creations && final(self).deletions as int == (if old(self).deletions < u64::MAX {
                        old(self).deletions as int + 1
                    } else {
                        old(self).deletions as int
                    })
                },
                Err(e) => {
                    &&& apply_change_map(old(self).tables@, *change) is None
                    &&& final(self).creations == old(self).creations
                    &&& final(self).deletions == old(self).deletions
                    &&& final(self).tables@ == old(self).tables@
                    &&& (e == DBError::TableExists <==> change.op == ManifestOp::Create && old(
                        self,
                    ).tables@.contains_key(change.id))
                    &&& (e == DBError::Corruption <==> change.op == ManifestOp::Create && !old(
                        self,
                    ).tables@.contains_key(change.id) && change.level > u8::MAX)
                    &&& (e == DBError::TableMissing <==> change.op == ManifestOp::Delete)
                    &&& (e == DBError::TableExists || e == DBError::Corruption || e
                        == DBError::TableMissing)
                },
            },
    {
        match change.op {
            ManifestOp::Create => {
                if self.tables.contains_key(&change.id) {
                    return Err(DBError::TableExists);
                }
                if change.level > u8::MAX as u32 {
                    return Err(DBError::Corruption);
                }
                let tm = TableManifest {
                    level: change.level as u8,
                    keyid: change.key_id,
                    compression: if change.compression == 1 {
                        CompressionType::Snappy
                    } else if change.compression == 2 {
                        CompressionType::Zstd
                    } else {
                        CompressionType::NoCompression
                    },
                };
                self.tables.insert(change.id, tm);
                while self.levels.len() <= change.level as usize
                    invariant
                        old(self).wf(),
                        self.tables@ == old(self).tables@.insert(
                            change.id,
                            table_manifest_of(*change),
                        ),
                        self.levels@.len() >= old(self).levels@.len(),
                        forall|l: int|
                            0 <= l < old(self).levels@.len() ==> #[trigger] self.levels@[l].tables@
                                == old(self).levels@[l].tables@,
                        forall|l: int|
                            old(self).levels@.len() <= l < self.levels@.len()
                                ==> (#[trigger] self.levels@[l]).tables@.len() == 0,
                        self.creations == old(self).creations,
                        self.deletions == old(self).deletions,
                    decreases change.level + 1 - self.levels@.len(),
                {
                    self.levels.push(LevelManifest { tables: Vec::new() });
                }
                let lvl = change.level as usize;
                let ghost pre_level = self.levels@[lvl as int].tables@;
                let level_ref = &mut self.levels[lvl];
                level_ref.tables.push(change.id);
                if self.creations < u64::MAX {
                    self.creations = self.creations + 1;
                }
                proof {
                    let t0 = old(self).tables@;
                    let id = change.id;
                    assert(self.levels@[lvl as int].tables@ == pre_level.push(id));
                    assert forall|l: int, i: int|
                        0 <= l < self.levels@.len() && 0 <= i < self.levels@[l].tables@.len()
                            implies self.tables@.contains_key(
                        #[trigger] self.levels@[l].tables@[i],
                    ) && self.tables@[self.levels@[l].tables@[i]].level == l by {
                        if l == lvl && i == self.levels@[l].tables@.len() - 1 {
                            assert(self.levels@[l].tables@[i] == id);
                        } else if l < old(self).levels@.len() {
                            assert(old(self).tables@.contains_key(
                                old(self).levels@[l].tables@[i],
                            ));
                        }
                    }
                    assert forall|l: int, i: int, j: int|
                        #![trigger self.levels@[l].tables@[i], self.levels@[l].tables@[j]]
                        0 <= l < self.levels@.len() && 0 <= i < j
                            < self.levels@[l].tables@.len() implies self.levels@[l].tables@[i]
                        != self.levels@[l].tables@[j] by {
                        if l == lvl && j == self.levels@[l].tables@.len() - 1 {
                            if l < old(self).levels@.len() {
                                assert(old(self).tables@.contains_key(
                                    old(self).levels@[l].tables@[i],
                                ));
                            }
                        } else if l < old(self).levels@.len() {
                        }
                    }
                    assert forall|id2: u64|
                        self.tables@.contains_key(id2) implies (#[trigger] self.tables@[id2]).level
                        < self.levels@.len() && self.levels@[self.tables@[id2].level as int].tables@
                        .contains(id2) by {
                        if id2 == id {
                            assert(self.levels@[lvl as int].tables@[pre_level.len() as int] == id);
                        } else {
                            assert(old(self).tables@.contains_key(id2));
                            let l2 = old(self).tables@[id2].level as int;
                            let tl = old(self).levels@[l2].tables@;
                            let k = choose|k: int| 0 <= k < tl.len() && tl[k] == id2;
                            assert(self.levels@[l2].tables@[k] == id2);
                        }
                    }
                }
                Ok(())
            },
            ManifestOp::Delete => {
                let existing = match self.tables.get(&change.id) {
                    Some(tm) => *tm,
                    None => {
                        return Err(DBError::TableMissing);
                    },
                };
                let lvl = existing.level as usize;
                let ghost pre_level = self.levels@[lvl as int].tables@;
                // find and remove the id from its level's list
                let level_ref = &mut self.levels[lvl];
                let n = level_ref.tables.len();
                let mut k: usize = 0;
                let mut found: bool = false;
                while k < n && !found
                    invariant
                        k <= n == level_ref.tables@.len(),
                        level_ref.tables@ == pre_level,
                        !found ==> forall|q: int| 0 <= q < k ==> pre_level[q] != change.id,
                        found ==> k < n && pre_level[k as int] == change.id,
                    decreases n - k + (if found {
                        0int
                    } else {
                        1int
                    }),
                {
                    if level_ref.tables[k] == change.id {
                        found = true;
                    } else {
                        k = k + 1;
                    }
                }
                proof {
                    assert(pre_level.contains(change.id));
                    if !found {
                        let w = choose|w: int| 0 <= w < pre_level.len() && pre_level[w] == change.id;
                        assert(false);
                    }
                }
                level_ref.tables.remove(k);
                self.tables.remove(&change.id);
                if self.deletions < u64::MAX {
                    self.deletions = self.deletions + 1;
                }
                proof {
                    let id = change.id;
                    let rem = self.levels@[lvl as int].tables@;
                    assert(rem == pre_level.remove(k as int));
                    assert forall|l: int, i: int|
                        0 <= l < self.levels@.len() && 0 <= i < self.levels@[l].tables@.len()
                            implies self.tables@.contains_key(
                        #[trigger] self.levels@[l].tables@[i],
                    ) && self.tables@[self.levels@[l].tables@[i]].level == l by {
                        if l == lvl {
                            let orig_i: int = if i < k {
                                i
                            } else {
                                i + 1
                            };
                            assert(rem[i] == pre_level[orig_i]);
                            assert(old(self).tables@.contains_key(pre_level[orig_i]));
                            assert(pre_level[orig_i] != id);
                        } else {
                            assert(old(self).tables@.contains_key(
                                old(self).levels@[l].tables@[i],
                            ));
                            assert(old(self).tables@[old(self).levels@[l].tables@[i]].level == l);
                            assert(old(self).levels@[l].tables@[i] != id) by {
                                if old(self).levels@[l].tables@[i] == id {
                                    assert(old(self).tables@[id].level == lvl);
                                }
                            }
                        }
                    }
                    assert forall|l: int, i: int, j: int|
                        #![trigger self.levels@[l].tables@[i], self.levels@[l].tables@[j]]
                        0 <= l < self.levels@.len() && 0 <= i < j
                            < self.levels@[l].tables@.len() implies self.levels@[l].tables@[i]
                        != self.levels@[l].tables@[j] by {
                        if l == lvl {
                            let oi: int = if i < k {
                                i
                            } else {
                                i + 1
                            };
                            let oj: int = if j < k {
                                j
                            } else {
                                j + 1
                            };
                            assert(rem[i] == pre_level[oi] && rem[j] == pre_level[oj]);
                        }
                    }
                    assert forall|id2: u64|
                        self.tables@.contains_key(id2) implies (#[trigger] self.tables@[id2]).level
                        < self.levels@.len() && self.levels@[self.tables@[id2].level as int].tables@
                        .contains(id2) by {
                        assert(old(self).tables@.contains_key(id2));
                        assert(id2 != id);
                        let l2 = old(self).tables@[id2].level as int;
                        let tl = old(self).levels@[l2].tables@;
                        let w = choose|w: int| 0 <= w < tl.len() && tl[w] == id2;
                        if l2 == lvl {
                            if w < k {
                                assert(rem[w] == id2);
                            } else {
                                assert(w != k) by {
                                    assert(pre_level[k as int] == id);
                                }
                                assert(rem[w - 1] == id2);
                            }
                        } else {
                            assert(self.levels@[l2].tables@[w] == id2);
                        }
                    }
                }
                Ok(())
            },
        }
    }

    /// Applies every change of a set, in order; stops at the first
    /// invalid one.
    pub fn apply_change_set(&mut self, changes: &Vec<ManifestChange>) -> (r: Result<(), DBError>)
        requires
            old(self).wf(),
        ensures
            final(self).wf(),
            match r {
                Ok(()) => apply_changes_map(old(self).tables@, changes@) == Some(
                    final(self).tables@,
                ),
                Err(e) => {
                    &&& apply_changes_map(old(self).tables@, changes@) is None
                    &&& (e == DBError::TableExists || e == DBError::Corruption || e
                        == DBError::TableMissing)
                },
            },
    {
        let n = changes.len();
        let mut i: usize = 0;
        while i < n
            invariant
                i <= n == changes@.len(),
                self.wf(),
                apply_changes_map(old(self).tables@, changes@.take(i as int)) == Some(
                    self.tables@,
                ),
            decreases n - i,
        {
            let ghost pre = self.tables@;
            let r = self.apply_manifest_change(&changes[i]);
            proof {
                assert(changes@.take(i + 1).drop_last() =~= changes@.take(i as int));
                assert(changes@.take(i + 1).last() == changes@[i as int]);
            }
            match r {
                Ok(()) => {},
                Err(e) => {
                    proof {
                        lemma_apply_changes_extend_none(
                            old(self).tables@,
                            changes@,
                            i as int,
                        );
                    }
                    return Err(e);
                },
            }
            i = i + 1;
        }
        proof {
            assert(changes@.take(n as int) =~= changes@);
        }
        Ok(())
    }

    /// One create change per live table, in level order.
    pub fn as_changes(&self) -> (r: Vec<ManifestChange>)
        requires
            self.wf(),
        ensures
            forall|k: int| 0 <= k < r@.len() ==> change_describes(#[trigger] r@[k], self.tables@),
            forall|k1: int, k2: int| 0 <= k1 < k2 < r@.len() ==> (#[trigger] r@[k1]).id != (
            #[trigger] r@[k2]).id,
            forall|id: u64|
                self.tables@.contains_key(id) ==> exists|k: int|
                    0 <= k < r@.len() && (#[trigger] r@[k]).id == id,
    {
        let mut out: Vec<ManifestChange> = Vec::new();
        let nl = self.levels.len();
        let mut l: usize = 0;
        while l < nl
            invariant
                l <= nl == self.levels@.len(),
                self.wf(),
                forall|k: int|
                    0 <= k < out@.len() ==> change_describes(#[trigger] out@[k], self.tables@),
                forall|k1: int, k2: int|
                    0 <= k1 < k2 < out@.len() ==> (#[trigger] out@[k1]).id != (
                    #[trigger] out@[k2]).id,
                forall|k: int| 0 <= k < out@.len() ==> (#[trigger] out@[k]).level < l,
                forall|id: u64|
                    self.tables@.contains_key(id) && (#[trigger] self.tables@[id]).level < l
                        ==> exists|k: int| 0 <= k < out@.len() && (#[trigger] out@[k]).id == id,
            decreases nl - l,
        {
            self.level_changes(l, &mut out);
            l = l + 1;
        }
        proof {
            assert forall|id: u64| self.tables@.contains_key(id) implies exists|k: int|
                0 <= k < out@.len() && (#[trigger] out@[k]).id == id by {
                assert((#[trigger] self.tables@[id]).level < self.levels@.len());
            }
        }
        out
    }

    /// Appends one create change per table that level `l` owns.
    #[verifier::rlimit(100)]
    #[verifier::spinoff_prover]
    fn level_changes(&self, l: usize, out: &mut Vec<ManifestChange>)
        requires
            self.wf(),
            (l as int) < self.levels@.len(),
            forall|k: int|
                0 <= k < old(out)@.len() ==> change_describes(#[trigger] old(out)@[k], self.tables@),
            forall|k1: int, k2: int|
                0 <= k1 < k2 < old(out)@.len() ==> (#[trigger] old(out)@[k1]).id != (
                #[trigger] old(out)@[k2]).id,
            forall|k: int| 0 <= k < old(out)@.len() ==> (#[trigger] old(out)@[k]).level < l,
            forall|id: u64|
                self.tables@.contains_key(id) && (#[trigger] self.tables@[id]).level < l
                    ==> exists|k: int| 0 <= k < old(out)@.len() && (#[trigger] old(out)@[k]).id
                    == id,
        ensures
            forall|k: int|
                0 <= k < final(out)@.len() ==> change_describes(
                    #[trigger] final(out)@[k],
                    self.tables@,
                ),
            forall|k1: int, k2: int|
                0 <= k1 < k2 < final(out)@.len() ==> (#[trigger] final(out)@[k1]).id != (
                #[trigger] final(out)@[k2]).id,
            forall|k: int| 0 <= k < final(out)@.len() ==> (#[trigger] final(out)@[k]).level < l + 1,
            forall|id: u64|
                self.tables@.contains_key(id) && (#[trigger] self.tables@[id]).level < l + 1
                    ==> exists|k: int|
                    0 <= k < final(out)@.len() && (#[trigger] final(out)@[k]).id == id,
    {
        let level_tables_len = self.levels[l].tables.len();
        let mut i: usize = 0;
        while i < level_tables_len
            invariant
                self.wf(),
                (l as int) < self.levels@.len(),
                i <= level_tables_len == self.levels@[l as int].tables@.len(),
                forall|k: int|
                    0 <= k < out@.len() ==> change_describes(#[trigger] out@[k], self.tables@),
                forall|k1: int, k2: int|
                    0 <= k1 < k2 < out@.len() ==> (#[trigger] out@[k1]).id != (
                    #[trigger] out@[k2]).id,
                forall|k: int| 0 <= k < out@.len() ==> (#[trigger] out@[k]).level <= l,
                forall|k: int|
                    0 <= k < out@.len() && (#[trigger] out@[k]).level == l ==> (
                    self.levels@[l as int]).tables@.take(i as int).contains(out@[k].id),
                forall|id: u64|
                    self.tables@.contains_key(id) && (#[trigger] self.tables@[id]).level < l
                        ==> exists|k: int| 0 <= k < out@.len() && (#[trigger] out@[k]).id == id,
                forall|q: int|
                    #![trigger (self.levels@[l as int]).tables@[q]]
                    0 <= q < i ==> exists|k: int|
                        0 <= k < out@.len() && (#[trigger] out@[k]).id == (
                        self.levels@[l as int]).tables@[q],
            decreases level_tables_len - i,
        {
            let id = self.levels[l].tables[i];
            let tm = match self.tables.get(&id) {
                Some(tm) => *tm,
                None => {
                    proof {
                        assert(false);
                    }
                    return ;
                },
            };
            let comp: u8 = match tm.compression {
                CompressionType::NoCompression => 0,
                CompressionType::Snappy => 1,
                CompressionType::Zstd => 2,
            };
            let c = ManifestChange {
                id,
                op: ManifestOp::Create,
                level: tm.level as u32,
                key_id: tm.keyid,
                compression: comp,
            };
            let ghost out0 = out@;
            out.push(c);
            proof {
                let tl = (self.levels@[l as int]).tables@;
                assert forall|k1: int, k2: int|
                    0 <= k1 < k2 < out@.len() implies (#[trigger] out@[k1]).id != (
                    #[trigger] out@[k2]).id by {
                    if k2 == out@.len() - 1 {
                        assert(out@[k1] == out0[k1]);
                        if out0[k1].id == id {
                            assert(out0[k1].level == self.tables@[id].level);
                            assert(tl.take(i as int).contains(out0[k1].id));
                            let q = choose|q: int|
                                0 <= q < i && tl.take(i as int)[q] == out0[k1].id;
                            assert(tl[q] == tl[i as int]);
                        }
                    } else {
                        assert(out@[k1] == out0[k1] && out@[k2] == out0[k2]);
                    }
                }
                assert forall|k: int|
                    0 <= k < out@.len() && (#[trigger] out@[k]).level == l implies tl.take(
                    i + 1,
                ).contains(out@[k].id) by {
                    if k == out@.len() - 1 {
                        assert(tl.take(i + 1)[i as int] == id);
                    } else {
                        assert(out@[k] == out0[k]);
                        if out0[k].level == l {
                            let q = choose|q: int|
                                0 <= q < i && tl.take(i as int)[q] == out0[k].id;
                            assert(tl.take(i + 1)[q] == out0[k].id);
                        }
                    }
                }
                assert forall|q: int|
                    #![trigger (self.levels@[l as int]).tables@[q]]
                    0 <= q < i + 1 implies exists|k: int|
                        0 <= k < out@.len() && (#[trigger] out@[k]).id == (
                        self.levels@[l as int]).tables@[q] by {
                    if q < i {
                        let k = choose|k: int|
                            0 <= k < out0.len() && (#[trigger] out0[k]).id == tl[q];
                        assert(out@[k] == out0[k]);
                    } else {
                        assert(out@[out@.len() - 1].id == tl[q]);
                    }
                }
                assert forall|id2: u64|
                    self.tables@.contains_key(id2) && (#[trigger] self.tables@[id2]).level < l
                        implies exists|k: int| 0 <= k < out@.len() && (#[trigger] out@[k]).id
                    == id2 by {
                    let k = choose|k: int| 0 <= k < out0.len() && (#[trigger] out0[k]).id == id2;
                    assert(out@[k] == out0[k]);
                }
            }
            i = i + 1;
        }
        proof {
            assert forall|id: u64|
                self.tables@.contains_key(id) && (#[trigger] self.tables@[id]).level < l + 1
                    implies exists|k: int| 0 <= k < out@.len() && (#[trigger] out@[k]).id == id by {
                if self.tables@[id].level == l {
                    let tl = (self.levels@[l as int]).tables@;
                    let q = choose|q: int| 0 <= q < tl.len() && tl[q] == id;
                    assert(exists|k: int| 0 <= k < out@.len() && (#[trigger] out@[k]).id == tl[q]);
                }
            }
        }
    }
}

/// A change list with distinct ids, all in the map, naming every id of
/// the map, has exactly as many entries as the map has keys.
pub proof fn lemma_changes_count(cs: Seq<ManifestChange>, t: Map<u64, TableManifest>)
    requires
        t.dom().finite(),
        forall|k: int| 0 <= k < cs.len() ==> t.contains_key((#[trigger] cs[k]).id),
        forall|k1: int, k2: int|
            0 <= k1 < k2 < cs.len() ==> (#[trigger] cs[k1]).id != (#[trigger] cs[k2]).id,
        forall|id: u64|
            t.contains_key(id) ==> exists|k: int| 0 <= k < cs.len() && (#[trigger] cs[k]).id == id,
    ensures
        cs.len() == t.dom().len(),
{
    let ids = cs.map_values(|c: ManifestChange| c.id);
    assert(ids.no_duplicates()) by {
        assert forall|k1: int, k2: int|
            0 <= k1 < k2 < ids.len() implies ids[k1] != ids[k2] by {
            assert(cs[k1].id != cs[k2].id);
        }
    }
    ids.unique_seq_to_set();
    assert(ids.to_set() =~= t.dom()) by {
        assert forall|id: u64| t.dom().contains(id) implies ids.to_set().contains(id) by {
            let k = choose|k: int| 0 <= k < cs.len() && (#[trigger] cs[k]).id == id;
            assert(ids[k] == id);
        }
        assert forall|id: u64| ids.to_set().contains(id) implies t.dom().contains(id) by {
            let k = choose|k: int| 0 <= k < ids.len() && ids[k] == id;
            assert(cs[k].id == id);
        }
    }
}

/// The change is a create that restates what the map holds for its id.
pub open spec fn change_describes(c: ManifestChange, t: Map<u64, TableManifest>) -> bool {
    &&& c.op == ManifestOp::Create
    &&& t.contains_key(c.id)
    &&& c.level == t[c.id].level
    &&& c.key_id == t[c.id].keyid
    &&& c.compression <= 2
    &&& compression_of(c.compression) == t[c.id].compression
}

/// Extending a failing fold keeps it failing; extending past a failing
/// step fails.
proof fn lemma_apply_changes_extend_none(t: Map<u64, TableManifest>, cs: Seq<ManifestChange>, i: int)
    requires
        0 <= i < cs.len(),
        apply_changes_map(t, cs.take(i + 1)) is None,
    ensures
        apply_changes_map(t, cs) is None,
    decreases cs.len() - i,
{
    if i + 1 == cs.len() {
        assert(cs.take(i + 1) =~= cs);
    } else {
        assert(apply_changes_map(t, cs.take(i + 2)) is None) by {
            assert(cs.take(i + 2).drop_last() =~= cs.take(i + 1));
        }
        lemma_apply_changes_extend_none(t, cs, i + 1);
    }
}

// ---------------------------------------------------------------------
// The manifest file: header, records, replay
// ---------------------------------------------------------------------

/// The fixed 8-byte file header.
pub open spec fn header_bytes(ext: u16) -> Seq<u8> {
    seq![MAGIC_B, MAGIC_D, MAGIC_G, MAGIC_R] + crate::codec::be16_of(ext) + crate::codec::be16_of(
        BADGER_MAGIC_VERSION,
    )
}

/// One length-prefixed, checksummed record.
pub open spec fn record_bytes(payload: Seq<u8>) -> Seq<u8> {
    be32_of(payload.len() as u32) + be32_of(crc32_of(payload)) + payload
}

/// A run of records, each framing one change set.
pub open spec fn records_bytes(csl: Seq<Seq<ManifestChange>>) -> Seq<u8>
    decreases csl.len(),
{
    if csl.len() == 0 {
        Seq::empty()
    } else {
        records_bytes(csl.drop_last()) + record_bytes(change_set_bytes(csl.last()))
    }
}

/// A whole, checksum-valid record whose payload is a well-formed
/// change set starts at `off`.
pub open spec fn whole_record_at(bytes: Seq<u8>, off: int) -> bool {
    &&& off + 8 <= bytes.len()
    &&& off + 8 + be32_val(bytes.subrange(off, off + 4)) <= bytes.len()
    &&& crc32_of(
        bytes.subrange(off + 8, off + 8 + be32_val(bytes.subrange(off, off + 4))),
    ) == be32_val(bytes.subrange(off + 4, off + 8))
    &&& exists|cs: Seq<ManifestChange>|
        change_set_valid(cs) && #[trigger] change_set_bytes(cs) == bytes.subrange(
            off + 8,
            off + 8 + be32_val(bytes.subrange(off, off + 4)),
        )
}

/// Replays a manifest file image. The header is checked byte for byte;
/// every whole, checksummed, decodable record is folded into the table
/// map; the first truncated or corrupt record ends the replay, and the
/// returned offset marks where the good prefix ends. A change that is
/// invalid against the state built so far is an error.
pub fn replay_manifest_file(bytes: &[u8], ext_magic: u16) -> (r: (
    Result<(Manifest, usize), DBError>,
    Ghost<Seq<Seq<ManifestChange>>>,
))
    ensures
        match r.0 {
            Ok((m, offset)) => {
                &&& bytes@.len() >= 8
                &&& bytes@.subrange(0, 8) == header_bytes(ext_magic)
                &&& 8 <= offset <= bytes@.len()
                &&& bytes@.subrange(8, offset as int) == records_bytes(r.1@)
                &&& apply_sets_map(Map::empty(), r.1@) == Some(m.tables@)
                &&& m.wf()
                // the offset is maximal: what follows it is no whole,
                // checksum-valid, decodable record
                &&& !whole_record_at(bytes@, offset as int)
            },
            Err(e) => {
                &&& (e == DBError::BadMagic <==> (bytes@.len() < 8 || bytes@.subrange(0, 4)
                    != seq![MAGIC_B, MAGIC_D, MAGIC_G, MAGIC_R]))
                &&& (e == DBError::UnsupportedVersion ==> bytes@.len() >= 8 && be16_val(
                    bytes@.subrange(6, 8),
                ) != BADGER_MAGIC_VERSION)
                &&& (e == DBError::ExternalVersionMismatch ==> bytes@.len() >= 8 && be16_val(
                    bytes@.subrange(4, 6),
                ) != ext_magic)
                &&& (e == DBError::UnsupportedVersion || e == DBError::ExternalVersionMismatch
                    || e == DBError::BadMagic || e == DBError::TableExists || e
                    == DBError::Corruption || e == DBError::TableMissing)
                // replay fails past the header only because some whole
                // record's change set is invalid against the state the
                // records before it build
                &&& ((e == DBError::TableExists || e == DBError::Corruption || e
                    == DBError::TableMissing) ==> exists|
                    cs: Seq<ManifestChange>,
                    off2: int,
                |
                    #![trigger records_bytes(r.1@.push(cs)), bytes@.subrange(8, off2)]
                    {
                        &&& change_set_valid(cs)
                        &&& 8 <= off2 <= bytes@.len()
                        &&& records_bytes(r.1@.push(cs)) == bytes@.subrange(8, off2)
                        &&& apply_sets_map(Map::empty(), r.1@) is Some
                        &&& apply_changes_map(
                            (apply_sets_map(Map::empty(), r.1@))->0,
                            cs,
                        ) is None
                    })
            },
        },
{
    let n = bytes.len();
    if n < 8 {
        return (Err(DBError::BadMagic), Ghost(Seq::empty()));
    }
    if bytes[0] != MAGIC_B || bytes[1] != MAGIC_D || bytes[2] != MAGIC_G || bytes[3] != MAGIC_R {
        proof {
            if bytes@.subrange(0, 4) == seq![MAGIC_B, MAGIC_D, MAGIC_G, MAGIC_R] {
                assert(bytes@[0] == bytes@.subrange(0, 4)[0]);
                assert(bytes@[1] == bytes@.subrange(0, 4)[1]);
                assert(bytes@[2] == bytes@.subrange(0, 4)[2]);
                assert(bytes@[3] == bytes@.subrange(0, 4)[3]);
            }
        }
        return (Err(DBError::BadMagic), Ghost(Seq::empty()));
    }
    proof {
        assert(bytes@.subrange(0, 4) =~= seq![MAGIC_B, MAGIC_D, MAGIC_G, MAGIC_R]);
    }
    let ext_version = crate::codec::get_u16_be(bytes, 4);
    let version = crate::codec::get_u16_be(bytes, 6);
    proof {
        crate::codec::lemma_be16_inverse(bytes@.subrange(4, 6));
        crate::codec::lemma_be16_inverse(bytes@.subrange(6, 8));
        crate::codec::lemma_be16_round_trip(ext_magic);
        crate::codec::lemma_be16_round_trip(BADGER_MAGIC_VERSION);
    }
    if version != BADGER_MAGIC_VERSION {
        return (Err(DBError::UnsupportedVersion), Ghost(Seq::empty()));
    }
    if ext_version != ext_magic {
        return (Err(DBError::ExternalVersionMismatch), Ghost(Seq::empty()));
    }
    proof {
        assert(bytes@.subrange(0, 8) =~= header_bytes(ext_magic));
    }
    let mut manifest = Manifest::new();
    let ghost mut csl: Seq<Seq<ManifestChange>> = Seq::empty();
    let mut offset: usize = 8;
    loop
        invariant
            n == bytes@.len(),
            n >= 8,
            8 <= offset <= n,
            manifest.wf(),
            bytes@.subrange(8, offset as int) == records_bytes(csl),
            apply_sets_map(Map::empty(), csl) == Some(manifest.tables@),
            bytes@.subrange(0, 8) == header_bytes(ext_magic),
        ensures
            n == bytes@.len(),
            8 <= offset <= n,
            manifest.wf(),
            bytes@.subrange(8, offset as int) == records_bytes(csl),
            apply_sets_map(Map::empty(), csl) == Some(manifest.tables@),
            bytes@.subrange(0, 8) == header_bytes(ext_magic),
            !whole_record_at(bytes@, offset as int),
        decreases n - offset,
    {
        if n - offset < 8 {
            break ;
        }
        let len32 = get_u32_be(bytes, offset);
        let crc = get_u32_be(bytes, offset + 4);
        proof {
            assert(be32_val(bytes@.subrange(offset as int, offset + 4)) == len32);
            assert(be32_val(bytes@.subrange(offset + 4, offset + 8)) == crc);
        }
        if len32 as u64 > (n - offset - 8) as u64 {
            break ;
        }
        let rec_len = len32 as usize;
        let payload = vstd::slice::slice_subrange(bytes, offset + 8, offset + 8 + rec_len);
        proof {
            assert(payload@ == bytes@.subrange(offset + 8, offset + 8 + rec_len));
        }
        let computed = crc32(payload);
        if computed != crc {
            proof {
                assert(!whole_record_at(bytes@, offset as int));
            }
            break ;
        }
        let cs = match decode_change_set(payload) {
            Some(cs) => cs,
            None => {
                proof {
                    assert(!whole_record_at(bytes@, offset as int)) by {
                        if whole_record_at(bytes@, offset as int) {
                            let cs2 = choose|cs2: Seq<ManifestChange>|
                                change_set_valid(cs2) && #[trigger] change_set_bytes(cs2)
                                    == bytes@.subrange(
                                    offset + 8,
                                    offset + 8 + be32_val(
                                        bytes@.subrange(offset as int, offset + 4),
                                    ),
                                );
                            assert(change_set_bytes(cs2) == payload@);
                        }
                    }
                }
                break ;
            },
        };
        let ghost pre_tables = manifest.tables@;
        match manifest.apply_change_set(&cs) {
            Ok(()) => {},
            Err(e) => {
                proof {
                    assert(bytes@.subrange(0, 4) =~= bytes@.subrange(0, 8).subrange(0, 4));
                    assert(header_bytes(ext_magic).subrange(0, 4) =~= seq![
                        MAGIC_B,
                        MAGIC_D,
                        MAGIC_G,
                        MAGIC_R,
                    ]);
                    // the record at the current offset frames the failing
                    // change set
                    let csl2 = csl.push(cs@);
                    let off2 = offset + 8 + rec_len;
                    assert(csl2.drop_last() =~= csl);
                    assert(records_bytes(csl2) == records_bytes(csl) + record_bytes(
                        change_set_bytes(cs@),
                    ));
                    crate::codec::lemma_be32_inverse(bytes@.subrange(offset as int, offset + 4));
                    crate::codec::lemma_be32_inverse(bytes@.subrange(offset + 4, offset + 8));
                    assert(record_bytes(change_set_bytes(cs@)) =~= bytes@.subrange(
                        offset as int,
                        offset + 8 + rec_len,
                    )) by {
                        assert(change_set_bytes(cs@).len() == rec_len);
                        assert(be32_of(len32) =~= bytes@.subrange(offset as int, offset + 4));
                        assert(be32_of(crc) =~= bytes@.subrange(offset + 4, offset + 8));
                    }
                    assert(records_bytes(csl2) =~= bytes@.subrange(8, off2 as int)) by {
                        assert(bytes@.subrange(8, off2 as int) =~= bytes@.subrange(
                            8,
                            offset as int,
                        ) + bytes@.subrange(offset as int, off2 as int));
                    }
                    assert(change_set_valid(cs@) && 8 <= off2 <= bytes@.len() && records_bytes(
                        csl.push(cs@),
                    ) == bytes@.subrange(8, off2 as int) && apply_sets_map(
                        Map::empty(),
                        csl,
                    ) is Some && apply_changes_map(
                        (apply_sets_map(Map::empty(), csl))->0,
                        cs@,
                    ) is None);
                }
                return (Err(e), Ghost(csl));
            },
        }
        proof {
            let ghost csl2 = csl.push(cs@);
            assert(csl2.drop_last() =~= csl);
            assert(records_bytes(csl2) == records_bytes(csl) + record_bytes(
                change_set_bytes(cs@),
            ));
            crate::codec::lemma_be32_inverse(bytes@.subrange(offset as int, offset + 4));
            crate::codec::lemma_be32_inverse(bytes@.subrange(offset + 4, offset + 8));
            assert(payload@ == bytes@.subrange(offset + 8, offset + 8 + rec_len));
            assert(record_bytes(change_set_bytes(cs@)) =~= bytes@.subrange(
                offset as int,
                offset + 8 + rec_len,
            )) by {
                assert(change_set_bytes(cs@).len() == rec_len);
                assert(be32_of(len32) =~= bytes@.subrange(offset as int, offset + 4));
                assert(be32_of(crc) =~= bytes@.subrange(offset + 4, offset + 8));
            }
            assert(bytes@.subrange(8, offset + 8 + rec_len) =~= bytes@.subrange(
                8,
                offset as int,
            ) + bytes@.subrange(offset as int, offset + 8 + rec_len));
            csl = csl2;
        }
        offset = offset + 8 + rec_len;
    }
    (Ok((manifest, offset)), Ghost(csl))
}

/// Where manifest files live and which external magic they carry.
#[derive(Debug, Clone)]
pub struct ManifestConfig {
    dir: String,
    read_only: bool,
    /// Magic version of the application using the engine, so that a
    /// store is never opened with an incompatible data format.
    external_magic_version: u16,
}

impl Default for ManifestConfig {
    fn default() -> (r: Self)
        ensures
            r.dir_view().len() == 0,
            !r.read_only_view(),
            r.external_magic_view() == 0,
    {
        ManifestConfig { dir: String::new(), read_only: false, external_magic_version: 0 }
    }
}

impl ManifestConfig {
    pub closed spec fn dir_view(&self) -> Seq<char> {
        self.dir@
    }

    pub closed spec fn read_only_view(&self) -> bool {
        self.read_only
    }

    pub closed spec fn external_magic_view(&self) -> u16 {
        self.external_magic_version
    }

    pub fn set_dir(&mut self, dir: String)
        ensures
            final(self).dir_view() == dir@,
            final(self).read_only_view() == old(self).read_only_view(),
            final(self).external_magic_view() == old(self).external_magic_view(),
    {
        self.dir = dir;
    }

    pub fn dir(&self) -> (r: &String)
        ensures
            r@ == self.dir_view(),
    {
        &self.dir
    }

    pub fn set_external_magic_version(&mut self, external_magic_version: u16)
        ensures
            final(self).external_magic_view() == external_magic_version,
            final(self).dir_view() == old(self).dir_view(),
            final(self).read_only_view() == old(self).read_only_view(),
    {
        self.external_magic_version = external_magic_version;
    }

    pub fn set_read_only(&mut self, read_only: bool)
        ensures
            final(self).read_only_view() == read_only,
            final(self).dir_view() == old(self).dir_view(),
            final(self).external_magic_view() == old(self).external_magic_view(),
    {
        self.read_only = read_only;
    }

    pub fn external_magic_version(&self) -> (r: u16)
        ensures
            r == self.external_magic_view(),
    {
        self.external_magic_version
    }

    pub fn read_only(&self) -> (r: bool)
        ensures
            r == self.read_only_view(),
    {
        self.read_only
    }
}

/// The byte image a full manifest rewrite puts on disk: the header and
/// one record holding a create for every live table. Also returns how
/// many creations the new file carries.
pub fn manifest_rewrite_bytes(m: &Manifest, ext_magic: u16) -> (r: Result<
    (Vec<u8>, usize),
    DBError,
>)
    requires
        m.wf(),
    ensures
        r is Err <==> varint_of(m.tables@.dom().len() as u64).len() + CHANGE_SIZE
            * m.tables@.dom().len() > u32::MAX,
        match r {
            Ok((bytes, net)) => exists|cs: Seq<ManifestChange>|
                {
                    &&& #[trigger] change_set_valid(cs)
                    &&& bytes@ == header_bytes(ext_magic) + record_bytes(change_set_bytes(cs))
                    &&& apply_changes_map(Map::empty(), cs) == Some(m.tables@)
                    &&& net == m.tables@.dom().len()
                },
            Err(e) => e == DBError::RequestTooLarge,
        },
{
    let changes = m.as_changes();
    proof {
        lemma_changes_count(changes@, m.tables@);
        lemma_changes_bytes_len(changes@);
    }
    let nc = changes.len();
    let net_creations = m.tables.len();
    let payload = encode_change_set(&changes);
    if payload.len() > u32::MAX as usize {
        return Err(DBError::RequestTooLarge);
    }
    let mut buf: Vec<u8> = Vec::new();
    buf.push(MAGIC_B);
    buf.push(MAGIC_D);
    buf.push(MAGIC_G);
    buf.push(MAGIC_R);
    crate::codec::put_u16_be(&mut buf, ext_magic);
    crate::codec::put_u16_be(&mut buf, BADGER_MAGIC_VERSION);
    put_u32_be(&mut buf, payload.len() as u32);
    let sum = crc32(payload.as_slice());
    put_u32_be(&mut buf, sum);
    crate::codec::extend_bytes(&mut buf, payload.as_slice());
    proof {
        lemma_changes_describe_apply(changes@, m.tables@);
        assert(buf@ =~= header_bytes(ext_magic) + record_bytes(change_set_bytes(changes@)));
        assert(change_set_valid(changes@)) by {
            assert(changes@.len() == nc <= usize::MAX);
            assert forall|i: int| 0 <= i < changes@.len() implies (#[trigger] changes@[i]).compression
                <= 2 by {
                assert(change_describes(changes@[i], m.tables@));
            }
        }
    }
    Ok((buf, net_creations))
}

/// A change list that describes a table map, one create per id,
/// rebuilds exactly that map when applied to an empty one.
pub proof fn lemma_changes_describe_apply(cs: Seq<ManifestChange>, t: Map<u64, TableManifest>)
    requires
        forall|k: int| 0 <= k < cs.len() ==> change_describes(#[trigger] cs[k], t),
        forall|k1: int, k2: int|
            0 <= k1 < k2 < cs.len() ==> (#[trigger] cs[k1]).id != (#[trigger] cs[k2]).id,
        forall|id: u64|
            t.contains_key(id) ==> exists|k: int| 0 <= k < cs.len() && (#[trigger] cs[k]).id == id,
        t.dom().finite(),
    ensures
        apply_changes_map(Map::empty(), cs) == Some(t),
{
    lemma_changes_describe_apply_prefix(cs, t, cs.len() as int);
    let sub = restrict_ids(t, cs, cs.len() as int);
    assert(cs.take(cs.len() as int) =~= cs);
    assert(sub =~= t) by {
        assert forall|id: u64| t.contains_key(id) implies sub.contains_key(id) by {
            let k = choose|k: int| 0 <= k < cs.len() && (#[trigger] cs[k]).id == id;
        }
    }
}

/// The table map holding only the ids named by the first `i` changes.
pub open spec fn restrict_ids(
    t: Map<u64, TableManifest>,
    cs: Seq<ManifestChange>,
    i: int,
) -> Map<u64, TableManifest> {
    t.restrict(Set::new(|id: u64| exists|k: int| 0 <= k < i && (#[trigger] cs[k]).id == id))
}

proof fn lemma_changes_describe_apply_prefix(
    cs: Seq<ManifestChange>,
    t: Map<u64, TableManifest>,
    i: int,
)
    requires
        0 <= i <= cs.len(),
        forall|k: int| 0 <= k < cs.len() ==> change_describes(#[trigger] cs[k], t),
        forall|k1: int, k2: int|
            0 <= k1 < k2 < cs.len() ==> (#[trigger] cs[k1]).id != (#[trigger] cs[k2]).id,
    ensures
        apply_changes_map(Map::empty(), cs.take(i)) == Some(restrict_ids(t, cs, i)),
    decreases i,
{
    if i == 0 {
        assert(cs.take(0) =~= Seq::<ManifestChange>::empty());
        assert(restrict_ids(t, cs, 0) =~= Map::<u64, TableManifest>::empty());
    } else {
        lemma_changes_describe_apply_prefix(cs, t, i - 1);
        let prev = restrict_ids(t, cs, i - 1);
        let c = cs[i - 1];
        assert(cs.take(i).drop_last() =~= cs.take(i - 1));
        assert(cs.take(i).last() == c);
        assert(!prev.contains_key(c.id)) by {
            if prev.contains_key(c.id) {
                let k = choose|k: int| 0 <= k < i - 1 && (#[trigger] cs[k]).id == c.id;
            }
        }
        assert(change_describes(c, t));
        assert(c.level <= u8::MAX) by {
            assert(c.level == t[c.id].level);
        }
        assert(table_manifest_of(c) == t[c.id]);
        assert(restrict_ids(t, cs, i) =~= prev.insert(c.id, t[c.id])) by {
            assert forall|id: u64| #[trigger] restrict_ids(t, cs, i).contains_key(id) implies
                prev.insert(c.id, t[c.id]).contains_key(id) by {
                let k = choose|k: int| 0 <= k < i && (#[trigger] cs[k]).id == id;
            }
        }
    }
}

// ---------------------------------------------------------------------
// Replay counting: creates followed by deletes
// ---------------------------------------------------------------------

/// Law: replaying a change list of `N` creates with distinct ids
/// followed by `M` deletes of some of those ids leaves exactly
/// `N - M` live tables.
pub proof fn lemma_replay_live_count(creates: Seq<ManifestChange>, deletes: Seq<ManifestChange>)
    requires
        forall|k: int|
            0 <= k < creates.len() ==> (#[trigger] creates[k]).op == ManifestOp::Create
                && (creates[k]).level <= u8::MAX,
        forall|k1: int, k2: int|
            0 <= k1 < k2 < creates.len() ==> (#[trigger] creates[k1]).id != (
            #[trigger] creates[k2]).id,
        forall|k: int| 0 <= k < deletes.len() ==> (#[trigger] deletes[k]).op == ManifestOp::Delete,
        forall|k1: int, k2: int|
            0 <= k1 < k2 < deletes.len() ==> (#[trigger] deletes[k1]).id != (
            #[trigger] deletes[k2]).id,
        forall|k: int|
            0 <= k < deletes.len() ==> exists|j: int|
                0 <= j < creates.len() && (#[trigger] deletes[k]).id == (#[trigger] creates[j]).id,
    ensures
        apply_changes_map(Map::empty(), creates + deletes) is Some,
        (apply_changes_map(Map::empty(), creates + deletes)->0).dom().finite(),
        (apply_changes_map(Map::empty(), creates + deletes)->0).dom().len() == creates.len()
            - deletes.len(),
{
    lemma_apply_creates(creates);
    let t0 = apply_changes_map(Map::empty(), creates)->0;
    let del_ids = deletes.map_values(|c: ManifestChange| c.id);
    assert(del_ids.no_duplicates()) by {
        assert forall|k1: int, k2: int|
            0 <= k1 < k2 < del_ids.len() implies del_ids[k1] != del_ids[k2] by {
            assert(deletes[k1].id != deletes[k2].id);
        }
    }
    del_ids.unique_seq_to_set();
    assert(del_ids.to_set().subset_of(t0.dom())) by {
        assert forall|id: u64| del_ids.to_set().contains(id) implies t0.dom().contains(id) by {
            let k = choose|k: int| 0 <= k < del_ids.len() && del_ids[k] == id;
            assert(deletes[k].id == id);
            let j = choose|j: int|
                0 <= j < creates.len() && (#[trigger] deletes[k]).id == (#[trigger] creates[j]).id;
        }
    }
    vstd::set_lib::lemma_len_subset(del_ids.to_set(), t0.dom());
    assert forall|k: int| 0 <= k < deletes.len() implies t0.contains_key(
        (#[trigger] deletes[k]).id,
    ) by {
        let j = choose|j: int|
            0 <= j < creates.len() && (#[trigger] deletes[k]).id == (#[trigger] creates[j]).id;
    }
    lemma_apply_deletes(t0, deletes);
    lemma_apply_concat(Map::empty(), creates, deletes);
}

/// Applying change lists one after the other is applying their
/// concatenation.
pub proof fn lemma_apply_concat(t: Map<u64, TableManifest>, a: Seq<ManifestChange>, b: Seq<ManifestChange>)
    ensures
        apply_changes_map(t, a + b) == (match apply_changes_map(t, a) {
            Some(m) => apply_changes_map(m, b),
            None => None::<Map<u64, TableManifest>>,
        }),
    decreases b.len(),
{
    if b.len() == 0 {
        assert(a + b =~= a);
    } else {
        lemma_apply_concat(t, a, b.drop_last());
        assert((a + b).drop_last() =~= a + b.drop_last());
        assert((a + b).last() == b.last());
    }
}

proof fn lemma_apply_creates(creates: Seq<ManifestChange>)
    requires
        forall|k: int|
            0 <= k < creates.len() ==> (#[trigger] creates[k]).op == ManifestOp::Create
                && (creates[k]).level <= u8::MAX,
        forall|k1: int, k2: int|
            0 <= k1 < k2 < creates.len() ==> (#[trigger] creates[k1]).id != (
            #[trigger] creates[k2]).id,
    ensures
        apply_changes_map(Map::empty(), creates) is Some,
        (apply_changes_map(Map::empty(), creates)->0).dom().finite(),
        (apply_changes_map(Map::empty(), creates)->0).dom().len() == creates.len(),
        forall|k: int|
            0 <= k < creates.len() ==> (apply_changes_map(Map::empty(), creates)->0).contains_key(
                (#[trigger] creates[k]).id,
            ),
    decreases creates.len(),
{
    if creates.len() == 0 {
        assert(apply_changes_map(Map::empty(), creates) == Some(
            Map::<u64, TableManifest>::empty(),
        ));
        assert(Map::<u64, TableManifest>::empty().dom() =~= Set::<u64>::empty());
    } else {
        let pre = creates.drop_last();
        lemma_apply_creates(pre);
        let t = apply_changes_map(Map::empty(), pre)->0;
        let c = creates.last();
        assert(!t.contains_key(c.id)) by {
            if t.contains_key(c.id) {
                lemma_apply_changes_dom(pre, c.id);
            }
        }
        assert(t.insert(c.id, table_manifest_of(c)).dom() =~= t.dom().insert(c.id));
        vstd::set::axiom_set_insert_len(t.dom(), c.id);
        let m2 = apply_changes_map(Map::empty(), creates)->0;
        assert forall|k: int| 0 <= k < creates.len() implies m2.contains_key(
            (#[trigger] creates[k]).id,
        ) by {
            if k < creates.len() - 1 {
                assert(pre[k] == creates[k]);
                assert(t.contains_key(pre[k].id));
            }
        }
    }
}

/// Every id a create fold holds was named by some create.
proof fn lemma_apply_changes_dom(cs: Seq<ManifestChange>, id: u64)
    requires
        apply_changes_map(Map::empty(), cs) is Some,
        (apply_changes_map(Map::empty(), cs)->0).contains_key(id),
    ensures
        exists|k: int| 0 <= k < cs.len() && (#[trigger] cs[k]).id == id,
    decreases cs.len(),
{
    if cs.len() > 0 {
        let pre = cs.drop_last();
        let c = cs.last();
        let t = apply_changes_map(Map::empty(), pre)->0;
        match c.op {
            ManifestOp::Create => {
                if id != c.id {
                    lemma_apply_changes_dom(pre, id);
                    let k = choose|k: int| 0 <= k < pre.len() && (#[trigger] pre[k]).id == id;
                    assert(cs[k] == pre[k]);
                } else {
                    assert(cs[cs.len() - 1].id == id);
                }
            },
            ManifestOp::Delete => {
                lemma_apply_changes_dom(pre, id);
                let k = choose|k: int| 0 <= k < pre.len() && (#[trigger] pre[k]).id == id;
                assert(cs[k] == pre[k]);
            },
        }
    }
}

proof fn lemma_apply_deletes(t: Map<u64, TableManifest>, deletes: Seq<ManifestChange>)
    requires
        t.dom().finite(),
        forall|k: int| 0 <= k < deletes.len() ==> (#[trigger] deletes[k]).op == ManifestOp::Delete,
        forall|k1: int, k2: int|
            0 <= k1 < k2 < deletes.len() ==> (#[trigger] deletes[k1]).id != (
            #[trigger] deletes[k2]).id,
        forall|k: int| 0 <= k < deletes.len() ==> t.contains_key((#[trigger] deletes[k]).id),
        deletes.len() <= t.dom().len(),
    ensures
        apply_changes_map(t, deletes) is Some,
        (apply_changes_map(t, deletes)->0).dom().finite(),
        (apply_changes_map(t, deletes)->0).dom().len() == t.dom().len() - deletes.len(),
    decreases deletes.len(),
{
    if deletes.len() > 0 {
        let pre = deletes.drop_last();
        let c = deletes.last();
        lemma_apply_deletes(t, pre);
        let m = apply_changes_map(t, pre)->0;
        assert(m.contains_key(c.id)) by {
            lemma_apply_deletes_keeps(t, pre, c.id);
        }
        assert(m.remove(c.id).dom() =~= m.dom().remove(c.id));
        vstd::set::axiom_set_remove_len(m.dom(), c.id);
    }
}

/// Deleting other ids keeps an id that none of them named.
proof fn lemma_apply_deletes_keeps(t: Map<u64, TableManifest>, deletes: Seq<ManifestChange>, id: u64)
    requires
        t.contains_key(id),
        apply_changes_map(t, deletes) is Some,
        forall|k: int| 0 <= k < deletes.len() ==> (#[trigger] deletes[k]).op == ManifestOp::Delete,
        forall|k: int| 0 <= k < deletes.len() ==> (#[trigger] deletes[k]).id != id,
    ensures
        (apply_changes_map(t, deletes)->0).contains_key(id),
    decreases deletes.len(),
{
    if deletes.len() > 0 {
        let pre = deletes.drop_last();
        assert(forall|k: int| 0 <= k < pre.len() ==> #[trigger] pre[k] == deletes[k]);
        lemma_apply_deletes_keeps(t, pre, id);
        assert(deletes[deletes.len() - 1].id != id);
    }
}

} // verus!
