use badger_lsm::errors::DBError;
use badger_lsm::kv::{key_with_ts, parse_key, parse_ts, ValueMeta};
use badger_lsm::level::compaction::{CompactStatus, KeyRange};
use badger_lsm::level::levels::{
    compact_build_table, drop_obsolete, level_targets, merge_sorted, LevelsControllerBuilder,
    TableMeta,
};
use badger_lsm::manifest::Manifest;
use badger_lsm::txn::oracle::{Oracle, Txn, TxnConfig, WaterMark};
use badger_lsm::table::opt::AesCipher;
use badger_lsm::skl::arena::Arena;
use badger_lsm::lsm::memtable::MemTable;
use badger_lsm::table::opt::{ChecksumVerificationMode, CompressionType, TableOption};
use badger_lsm::table::write::TableBuilder;

fn vm(value: &[u8]) -> ValueMeta {
    ValueMeta::new(value.to_vec(), 0, 0, 0)
}

fn meta(id: u64, lo: &[u8], hi: &[u8]) -> TableMeta {
    TableMeta {
        id,
        smallest: key_with_ts(lo, u64::MAX),
        biggest: key_with_ts(hi, 0),
        size: 100,
        max_version: 5,
        stale_data_size: 0,
        created_at: 0,
    }
}

#[test]
fn no_double_compaction() {
    // two workers reserving ranges on one level: the second reservation
    // of overlapping space must be refused
    let mut cs = CompactStatus::new(3);
    let r1 = KeyRange::new(key_with_ts(b"a", u64::MAX), key_with_ts(b"m", 0));
    let r2 = KeyRange::new(key_with_ts(b"k", u64::MAX), key_with_ts(b"z", 0));
    let r3 = KeyRange::new(key_with_ts(b"n", u64::MAX), key_with_ts(b"z", 0));
    assert!(cs.compare_and_add(1, &r1));
    assert!(!cs.compare_and_add(1, &r2));
    assert!(cs.compare_and_add(1, &r3));
    // the same span is free on another level
    assert!(cs.compare_and_add(2, &r2));
    // releasing makes the space contendable again
    cs.delete(1, &r1);
    let r4 = KeyRange::new(key_with_ts(b"a", u64::MAX), key_with_ts(b"j", 0));
    assert!(cs.compare_and_add(1, &r4));
}

#[test]
fn conflict_detection() {
    // transaction A reads K at snapshot 5; B writes K and commits after
    // that snapshot; A's commit must fail with a conflict
    let mut oracle = Oracle::new(TxnConfig::default());
    oracle.next_txn_ts = 6;
    let k_hash = 12345u64;
    let b = Txn { read_ts: 5, commit_ts: 0, read_key_hash: vec![], conflict_keys: vec![k_hash] };
    let b_commit = oracle.get_latest_commit_ts(&b).unwrap();
    assert_eq!(b_commit, 6);
    let a = Txn { read_ts: 5, commit_ts: 0, read_key_hash: vec![k_hash], conflict_keys: vec![] };
    assert_eq!(oracle.get_latest_commit_ts(&a), Err(DBError::Conflict));
    // with a disjoint key the commit succeeds
    let a2 = Txn { read_ts: 5, commit_ts: 0, read_key_hash: vec![999], conflict_keys: vec![] };
    assert_eq!(oracle.get_latest_commit_ts(&a2).unwrap(), 7);
}

#[test]
fn watermark_done_until() {
    let mut w = WaterMark::new();
    w.begin(3);
    w.begin(5);
    assert_eq!(w.done_until(), 2);
    w.done(3);
    assert_eq!(w.done_until(), 4);
    w.done(5);
    assert_eq!(w.done_until(), 5);
}

#[test]
fn read_ts_registers_pending() {
    let mut oracle = Oracle::new(TxnConfig::default());
    oracle.next_txn_ts = 10;
    let rts = oracle.get_latest_read_ts();
    assert_eq!(rts, 9);
    assert_eq!(oracle.read_mark.done_until(), 8);
}

#[test]
fn merge_and_drop_versions() {
    // merging two sorted runs and dropping superseded versions keeps
    // the newest version at or below the watermark per key
    let top = vec![
        (key_with_ts(b"a", 9), vm(b"a9")),
        (key_with_ts(b"b", 8), vm(b"b8")),
    ];
    let bottom = vec![
        (key_with_ts(b"a", 4), vm(b"a4")),
        (key_with_ts(b"a", 2), vm(b"a2")),
        (key_with_ts(b"c", 3), vm(b"c3")),
    ];
    let merged = merge_sorted(&top, &bottom);
    let keys: Vec<(Vec<u8>, u64)> =
        merged.iter().map(|p| (parse_key(&p.0).to_vec(), parse_ts(&p.0))).collect();
    assert_eq!(
        keys,
        vec![
            (b"a".to_vec(), 9),
            (b"a".to_vec(), 4),
            (b"a".to_vec(), 2),
            (b"b".to_vec(), 8),
            (b"c".to_vec(), 3),
        ]
    );
    // discard mark 5: a@4 is the newest at-or-below version and stays;
    // a@2 is superseded and goes
    let kept = drop_obsolete(&merged, 5);
    let kept_keys: Vec<(Vec<u8>, u64)> =
        kept.iter().map(|p| (parse_key(&p.0).to_vec(), parse_ts(&p.0))).collect();
    assert_eq!(
        kept_keys,
        vec![
            (b"a".to_vec(), 9),
            (b"a".to_vec(), 4),
            (b"b".to_vec(), 8),
            (b"c".to_vec(), 3),
        ]
    );
}

#[test]
fn level_targets_formula() {
    // last level holds 1,000,000 bytes, multiplier 10, floor 1,000:
    // targets shrink by 10x per level up and clamp at the floor
    let t = level_targets(4, 1_000_000, 1_000, 10, 64, 128, 2);
    assert_eq!(t.target_size.len(), 4);
    assert_eq!(t.target_size[3], 1_000_000);
    assert_eq!(t.target_size[2], 100_000);
    assert_eq!(t.target_size[1], 10_000);
    assert_eq!(t.base_level, 0);
    assert_eq!(t.file_size[0], 128);
    // with a larger floor the base level is the shallowest at the floor
    let t2 = level_targets(4, 5_000, 1_000, 10, 64, 128, 2);
    assert_eq!(t2.target_size[3], 5_000);
    assert_eq!(t2.target_size[2], 1_000);
    assert_eq!(t2.base_level, 2);
}

#[test]
fn fill_tables_reserves_ranges() {
    let mut builder = LevelsControllerBuilder::default();
    builder.max_levels = 3;
    builder.num_level_zero_tables = 4;
    builder.num_level_zero_tables_stall = 8;
    builder.memtable_size = 1 << 20;
    let m = Manifest::new();
    let mut c = builder.build(&m, &Vec::new()).unwrap();
    // place overlapping tables on level 0 and a sorted run on level 1
    c.levels[0].tables.push(meta(1, b"a", b"f"));
    c.levels[0].tables.push(meta(2, b"c", b"j"));
    c.levels[1].tables.push(meta(3, b"a", b"c"));
    let mut cd = badger_lsm::level::levels::CompactDef {
        compactor_id: 0,
        this_level: 0,
        next_level: 1,
        top: Vec::new(),
        bottom: Vec::new(),
        this_range: KeyRange::new_empty(),
        next_range: KeyRange::new_empty(),
        splits: Vec::new(),
        this_size: 0,
    };
    assert!(c.fill_tables_l0_to_lbase(&mut cd));
    assert_eq!(cd.top.len(), 2);
    assert_eq!(cd.bottom.len(), 1);
    // the reserved range now blocks a second identical candidate
    let mut cd2 = badger_lsm::level::levels::CompactDef {
        compactor_id: 1,
        this_level: 0,
        next_level: 1,
        top: Vec::new(),
        bottom: Vec::new(),
        this_range: KeyRange::new_empty(),
        next_range: KeyRange::new_empty(),
        splits: Vec::new(),
        this_size: 0,
    };
    assert!(!c.fill_tables_l0_to_lbase(&mut cd2));
    c.add_splits(&mut cd);
    assert!(cd.splits.len() >= 1);
}

#[test]
fn garbage_reclamation_on_last_level() {
    // the deepest level reclaims its own garbage: the stalest table is
    // chosen once it is big, old and wholly below the watermark
    let mut builder = LevelsControllerBuilder::default();
    builder.max_levels = 3;
    builder.num_level_zero_tables = 4;
    builder.num_level_zero_tables_stall = 8;
    let m = Manifest::new();
    let mut c = builder.build(&m, &Vec::new()).unwrap();
    let mut stale = meta(9, b"a", b"z");
    stale.stale_data_size = 11 << 20;
    stale.max_version = 3;
    stale.created_at = 0;
    c.levels[2].tables.push(stale);
    let cd = c.do_compact(1, 2, 1, 5, 4000, 1 << 30, 1 << 20);
    let cd = cd.expect("the stale table should be chosen");
    assert_eq!(cd.top.len(), 1);
    assert_eq!(cd.top[0].id, 9);
    // a second worker cannot reserve the same space
    assert!(c.do_compact(0, 2, 1, 5, 4000, 1 << 30, 1 << 20).is_none());
}

#[test]
fn compact_build_table_end_to_end() {
    let top = vec![
        (key_with_ts(b"a", 9), vm(b"a9")),
        (key_with_ts(b"a", 4), vm(b"a4")),
        (key_with_ts(b"a", 2), vm(b"a2")),
    ];
    let bottom = vec![(key_with_ts(b"b", 3), vm(b"b3"))];
    let opt = TableOption::new(
        1 << 20,
        4096,
        CompressionType::NoCompression,
        ChecksumVerificationMode::OnTableAndBlockRead,
        None,
    );
    let t = compact_build_table(&top, &bottom, &Vec::new(), 5, opt, 7, 0)
        .unwrap()
        .expect("entries remain");
    let all = t.all_entries();
    let keys: Vec<(Vec<u8>, u64)> =
        all.iter().map(|p| (parse_key(&p.0).to_vec(), parse_ts(&p.0))).collect();
    // a@2 is superseded by a@4 under watermark 5 and disappears
    assert_eq!(
        keys,
        vec![(b"a".to_vec(), 9), (b"a".to_vec(), 4), (b"b".to_vec(), 3)]
    );
}

#[test]
fn banned_namespaces() {
    let banned = vec![7u64];
    let mut key = vec![0u8; 4];
    key.extend_from_slice(&7u64.to_be_bytes());
    key.extend_from_slice(b"suffix");
    assert_eq!(
        badger_lsm::db::is_banned(&key, Some(4), &banned),
        Err(DBError::BannedKey)
    );
    assert!(badger_lsm::db::is_banned(&key, Some(5), &banned).is_ok());
    assert!(badger_lsm::db::is_banned(&key, None, &banned).is_ok());
    assert!(badger_lsm::db::is_banned(b"short", Some(4), &banned).is_ok());
}

#[test]
fn cipher_key_sizes() {
    assert!(AesCipher::new(&[0u8; 16], false).is_ok());
    assert!(AesCipher::new(&[0u8; 32], true).is_ok());
    assert!(AesCipher::new(&[0u8; 15], false).is_err());
}

#[test]
fn arena_is_bounded() {
    let mut a = Arena::new(64);
    assert!(a.allocate(32).is_ok());
    assert!(a.allocate(32).is_ok());
    assert_eq!(a.allocate(4096), Err(DBError::ArenaFull));
}

#[test]
fn end_to_end_flush_and_merge() {
    // a small end-to-end pass: inserts flow through a memtable into a
    // table, and every key stays retrievable with its latest value
    let mut mt = MemTable::new(1 << 20);
    let n = 1000u64;
    for i in 0..n {
        let user = format!("key-{:06}", i);
        mt.put(&key_with_ts(user.as_bytes(), i + 1), vm(&i.to_be_bytes())).unwrap();
    }
    let opt = TableOption::new(
        1 << 20,
        4096,
        CompressionType::NoCompression,
        ChecksumVerificationMode::OnTableAndBlockRead,
        None,
    );
    let mut b = TableBuilder::new(opt);
    for (k, v) in mt.all_entries() {
        b.push(k, v, None).unwrap();
    }
    let table = b.done(1, 0).unwrap();
    let all = table.all_entries();
    assert_eq!(all.len(), n as usize);
    for (i, (k, v)) in all.iter().enumerate() {
        assert_eq!(parse_key(k), format!("key-{:06}", i).as_bytes());
        assert_eq!(v.value, (i as u64).to_be_bytes().to_vec());
    }
}

#[test]
fn deeper_level_tables_keep_sorted_and_reject_overlap() {
    let mut h = badger_lsm::level::levels::LevelHandler::new(1);
    h.insert_table_sorted(meta(1, b"m", b"p")).unwrap();
    h.insert_table_sorted(meta(2, b"a", b"c")).unwrap();
    h.insert_table_sorted(meta(3, b"t", b"z")).unwrap();
    let ids: Vec<u64> = h.tables.iter().map(|t| t.id).collect();
    assert_eq!(ids, vec![2, 1, 3]);
    // a table crossing an existing one cannot be placed
    let clash = h.insert_table_sorted(meta(4, b"b", b"d"));
    assert!(matches!(clash, Err(DBError::Corruption)));
    assert_eq!(h.tables.len(), 3);
}

#[test]
fn controller_build_places_levels_and_floors_ids() {
    let mut m = Manifest::new();
    m.apply_manifest_change(&badger_lsm::manifest::ManifestChange::new_create_change(10, 0, 0, 0)).unwrap();
    m.apply_manifest_change(&badger_lsm::manifest::ManifestChange::new_create_change(11, 1, 0, 0)).unwrap();
    m.apply_manifest_change(&badger_lsm::manifest::ManifestChange::new_create_change(12, 1, 0, 0)).unwrap();
    // a manifest-known id whose file was not opened still floors the counter
    m.apply_manifest_change(&badger_lsm::manifest::ManifestChange::new_create_change(99, 2, 0, 0)).unwrap();
    let metas = vec![meta(10, b"a", b"d"), meta(12, b"q", b"t"), meta(11, b"e", b"h")];
    let builder = LevelsControllerBuilder {
        dir: String::new(),
        read_only: false,
        memtable_size: 1 << 20,
        num_level_zero_tables_stall: 10,
        num_level_zero_tables: 4,
        max_levels: 3,
    };
    let c = builder.build(&m, &metas).unwrap();
    assert_eq!(c.levels.len(), 3);
    assert_eq!(c.levels[0].tables.len(), 1);
    let l1: Vec<u64> = c.levels[1].tables.iter().map(|t| t.id).collect();
    assert_eq!(l1, vec![11, 12]);
    assert!(c.next_file_id > 99);
    // an opened table the manifest does not know refuses the build
    let stray = vec![meta(55, b"a", b"b")];
    assert!(matches!(builder.build(&m, &stray), Err(DBError::Corruption)));
    // two overlapping tables on one deeper level refuse the build
    let mut m2 = Manifest::new();
    m2.apply_manifest_change(&badger_lsm::manifest::ManifestChange::new_create_change(1, 1, 0, 0)).unwrap();
    m2.apply_manifest_change(&badger_lsm::manifest::ManifestChange::new_create_change(2, 1, 0, 0)).unwrap();
    let overlapping = vec![meta(1, b"a", b"m"), meta(2, b"g", b"z")];
    assert!(matches!(builder.build(&m2, &overlapping), Err(DBError::Corruption)));
}

#[test]
fn add_splits_partitions_with_restamped_boundaries() {
    let builder = LevelsControllerBuilder {
        dir: String::new(),
        read_only: false,
        memtable_size: 1 << 20,
        num_level_zero_tables_stall: 10,
        num_level_zero_tables: 4,
        max_levels: 3,
    };
    let m = Manifest::new();
    let c = builder.build(&m, &Vec::new()).unwrap();
    let mut bottom = Vec::new();
    for (i, name) in [b"b", b"c", b"d", b"e", b"f", b"g", b"h"].iter().enumerate() {
        let mut t = meta(i as u64 + 1, &name[..], &name[..]);
        // a biggest key stamped mid-history: the boundary must restamp it
        t.biggest = key_with_ts(&name[..], 7);
        bottom.push(t);
    }
    let mut cd = badger_lsm::level::levels::CompactDef {
        compactor_id: 0,
        this_level: 1,
        next_level: 2,
        top: Vec::new(),
        bottom,
        this_range: KeyRange::new(key_with_ts(b"c", u64::MAX), key_with_ts(b"d", 0)),
        next_range: KeyRange::new(key_with_ts(b"b", u64::MAX), key_with_ts(b"h", 0)),
        splits: Vec::new(),
        this_size: 0,
    };
    c.add_splits(&mut cd);
    // seven bottom tables: width three, so two boundaries and a tail
    assert_eq!(cd.splits.len(), 3);
    // the partition starts at the union of the two reserved ranges
    assert_eq!(cd.splits[0].left, key_with_ts(b"b", u64::MAX));
    // each boundary is the bottom table's biggest user key restamped
    // to the oldest version
    assert_eq!(cd.splits[0].right, key_with_ts(b"d", 0));
    assert_eq!(cd.splits[1].left, cd.splits[0].right);
    assert_eq!(cd.splits[1].right, key_with_ts(b"g", 0));
    assert_eq!(cd.splits[2].left, cd.splits[1].right);
    assert!(cd.splits[2].inf);
}

#[test]
fn revert_lists_files_unknown_to_manifest() {
    let mut m = Manifest::new();
    m.apply_manifest_change(&badger_lsm::manifest::ManifestChange::new_create_change(3, 0, 0, 0))
        .unwrap();
    m.apply_manifest_change(&badger_lsm::manifest::ManifestChange::new_create_change(5, 1, 0, 0))
        .unwrap();
    let on_disk = vec![1, 3, 4, 5, 9];
    assert_eq!(m.ids_to_revert(&on_disk), vec![1, 4, 9]);
    assert_eq!(m.ids_to_revert(&Vec::new()), Vec::<u64>::new());
}
