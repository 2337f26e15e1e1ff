use badger_lsm::errors::DBError;
use badger_lsm::kv::{key_with_ts, ValueMeta};
use badger_lsm::lsm::memtable::MemTable;
use badger_lsm::manifest::{
    decode_change_set, encode_change_set, manifest_rewrite_bytes, replay_manifest_file,
    Manifest, ManifestChange, ManifestConfig, BADGER_MAGIC_VERSION,
};
use badger_lsm::vlog::header::EntryHeader;
use badger_lsm::vlog::write::{encode_entry, write_entries, ValueLog};

fn vm(value: &[u8]) -> ValueMeta {
    ValueMeta::new(value.to_vec(), 0, 0, 0)
}

fn manifest_image(changes: &[Vec<ManifestChange>], ext: u16) -> Vec<u8> {
    let mut bytes = vec![66u8, 100, 103, 114];
    bytes.extend_from_slice(&ext.to_be_bytes());
    bytes.extend_from_slice(&BADGER_MAGIC_VERSION.to_be_bytes());
    for set in changes {
        let payload = encode_change_set(&set.to_vec());
        bytes.extend_from_slice(&(payload.len() as u32).to_be_bytes());
        bytes.extend_from_slice(&crc32fast::hash(&payload).to_be_bytes());
        bytes.extend_from_slice(&payload);
    }
    bytes
}

#[test]
fn manifest_replay_counts() {
    // six creates in two sets, then two deletes, then a truncated tail:
    // replay keeps exactly four tables and stops at the last whole record
    let creates1: Vec<ManifestChange> =
        (1..=4u64).map(|id| ManifestChange::new_create_change(id, 0, 0, 0)).collect();
    let creates2: Vec<ManifestChange> =
        (5..=6u64).map(|id| ManifestChange::new_create_change(id, 1, 0, 0)).collect();
    let deletes: Vec<ManifestChange> =
        vec![ManifestChange::new_delete_change(2), ManifestChange::new_delete_change(5)];
    let mut bytes = manifest_image(&[creates1, creates2, deletes], 0);
    let good_len = bytes.len();
    // a partial trailing record: a length header promising more than is there
    bytes.extend_from_slice(&[0, 0, 0, 99, 1, 2, 3]);
    let (result, _) = replay_manifest_file(&bytes, 0);
    let (m, offset) = result.unwrap();
    assert_eq!(offset, good_len);
    assert_eq!(m.tables.len(), 4);
    assert!(m.tables.contains_key(&1));
    assert!(!m.tables.contains_key(&2));
    assert!(m.tables.contains_key(&6));
}

#[test]
fn manifest_replay_rejects_bad_headers() {
    let (r1, _) = replay_manifest_file(b"Xdgr\x00\x00\x00\x08", 0);
    assert!(matches!(r1, Err(DBError::BadMagic)));
    let (r2, _) = replay_manifest_file(b"Bdgr\x00\x00\x00\x07", 0);
    assert!(matches!(r2, Err(DBError::UnsupportedVersion)));
    let (r3, _) = replay_manifest_file(b"Bdgr\x00\x05\x00\x08", 0);
    assert!(matches!(r3, Err(DBError::ExternalVersionMismatch)));
    let bad_create = manifest_image(
        &[vec![
            ManifestChange::new_create_change(1, 0, 0, 0),
            ManifestChange::new_create_change(1, 0, 0, 0),
        ]],
        0,
    );
    let (r4, _) = replay_manifest_file(&bad_create, 0);
    assert!(matches!(r4, Err(DBError::TableExists)));
    let bad_delete = manifest_image(&[vec![ManifestChange::new_delete_change(9)]], 0);
    let (r5, _) = replay_manifest_file(&bad_delete, 0);
    assert!(matches!(r5, Err(DBError::TableMissing)));
}

#[test]
fn manifest_rewrite_round_trip() {
    let mut m = Manifest::new();
    for id in 1..=5u64 {
        m.apply_manifest_change(&ManifestChange::new_create_change(id, (id % 3) as u32, 7, 1))
            .unwrap();
    }
    m.apply_manifest_change(&ManifestChange::new_delete_change(3)).unwrap();
    let (bytes, net) = manifest_rewrite_bytes(&m, 11).unwrap();
    assert_eq!(net, 4);
    let (result, _) = replay_manifest_file(&bytes, 11);
    let (m2, offset) = result.unwrap();
    assert_eq!(offset, bytes.len());
    assert_eq!(m2.tables.len(), 4);
    for id in [1u64, 2, 4, 5] {
        assert_eq!(m2.tables.get(&id).unwrap().level, m.tables.get(&id).unwrap().level);
    }
}

#[test]
fn change_set_codec_exact() {
    let cs = vec![
        ManifestChange::new_create_change(10, 2, 5, 2),
        ManifestChange::new_delete_change(4),
    ];
    let enc = encode_change_set(&cs);
    let back = decode_change_set(&enc).unwrap();
    assert_eq!(back.len(), 2);
    assert_eq!(back[0].id, 10);
    assert_eq!(back[1].id, 4);
    let mut corrupt = enc.clone();
    corrupt.push(0);
    assert!(decode_change_set(&corrupt).is_none());
}

#[test]
fn manifest_config_accessors() {
    let mut c = ManifestConfig::default();
    c.set_dir(String::from("data"));
    assert_eq!(c.dir(), "data");
    c.set_external_magic_version(9);
    assert_eq!(c.external_magic_version(), 9);
    c.set_read_only(true);
    assert!(c.read_only());
}

#[test]
fn vlog_threshold_behavior() {
    // below the threshold values stay inline; at or above they go to
    // the log and the pointer's bytes hold the original value
    let mut vlog = ValueLog::new(16, 1 << 20);
    let mut buf = Vec::new();
    let entries = vec![
        (key_with_ts(b"small", 1), vm(b"tiny")),
        (key_with_ts(b"large", 2), vm(b"this value is long enough to go out of line")),
    ];
    let ptrs = write_entries(&mut vlog, &mut buf, &entries).unwrap();
    assert!(ptrs[0].is_empty());
    assert!(!ptrs[1].is_empty());
    let p = ptrs[1];
    let record = &buf[p.offset as usize..(p.offset + p.len) as usize];
    // the record ends with the value bytes before its checksum
    let (h, hlen) = EntryHeader::decode(record).unwrap();
    let key_start = hlen;
    let val_start = key_start + h.get_key_len() as usize;
    let val_end = val_start + h.get_value_len() as usize;
    assert_eq!(&record[val_start..val_end], b"this value is long enough to go out of line".as_slice());
    assert_eq!(crc32fast::hash(&record[..val_end]), u32::from_be_bytes(record[val_end..val_end + 4].try_into().unwrap()));
}

#[test]
fn vlog_validate_write() {
    let vlog = ValueLog::new(16, 100);
    // fits with rollover
    assert!(vlog.validate_write(&vec![60, 60, 60]).is_ok());
    // one request past the hard maximum
    assert_eq!(
        ValueLog::new(16, u32::MAX).validate_write(&vec![u64::MAX / 2, u64::MAX / 2, 10]),
        Err(DBError::RequestTooLarge)
    );
}

#[test]
fn vlog_encode_entry_layout() {
    let mut buf = Vec::new();
    let len = encode_entry(&mut buf, &key_with_ts(b"k", 1), &vm(b"v")).unwrap();
    assert_eq!(len, buf.len());
    let (h, _) = EntryHeader::decode(&buf).unwrap();
    assert_eq!(h.get_key_len(), 9);
    assert_eq!(h.get_value_len(), 1);
}

#[test]
fn memtable_wal_before_visibility() {
    let mut mt = MemTable::new(1 << 20);
    mt.put(&key_with_ts(b"b", 2), vm(b"two")).unwrap();
    mt.put(&key_with_ts(b"a", 1), vm(b"one")).unwrap();
    assert_eq!(mt.all_entries().len(), 2);
    // the log holds one record per insert, in insert order
    let (h1, n1) = EntryHeader::decode(&mt.wal).unwrap();
    assert_eq!(h1.get_key_len(), 9);
    let first_len = n1 + 9 + 3 + 4;
    let (h2, _) = EntryHeader::decode(&mt.wal[first_len..]).unwrap();
    assert_eq!(h2.get_value_len(), 3);
    // sorted structure shows "a" first even though "b" was logged first
    assert_eq!(badger_lsm::kv::parse_key(&mt.all_entries()[0].0), b"a");
}

#[test]
fn wal_header_round_trip_and_short_buffer() {
    let nonce: Vec<u8> = (1u8..=12).collect();
    let header = badger_lsm::lsm::wal::encode_wal_header(77, &nonce);
    assert_eq!(header.len(), 20);
    assert_eq!(&header[0..8], &[0, 0, 0, 0, 0, 0, 0, 77]);
    assert_eq!(&header[8..20], nonce.as_slice());
    let (key_id, base) = badger_lsm::lsm::wal::decode_wal_header(&header).unwrap();
    assert_eq!(key_id, 77);
    assert_eq!(base, nonce);
    // one byte short of a header is refused
    assert!(badger_lsm::lsm::wal::decode_wal_header(&header[..19]).is_none());
}

#[test]
fn record_nonce_derivation() {
    let nonce: Vec<u8> = (1u8..=12).collect();
    let n0 = badger_lsm::lsm::wal::derive_nonce(&nonce, 0x0102030405060708);
    // four base bytes, then the offset little-endian
    assert_eq!(n0, vec![1, 2, 3, 4, 8, 7, 6, 5, 4, 3, 2, 1]);
    let n1 = badger_lsm::lsm::wal::derive_nonce(&nonce, 20);
    let n2 = badger_lsm::lsm::wal::derive_nonce(&nonce, 52);
    assert_ne!(n1, n2);
    assert_eq!(&n1[0..4], &nonce[0..4]);
}

#[test]
fn manifest_counts_creations_and_deletions() {
    let mut m = Manifest::new();
    assert_eq!((m.creations, m.deletions), (0, 0));
    m.apply_manifest_change(&ManifestChange::new_create_change(1, 0, 0, 0)).unwrap();
    m.apply_manifest_change(&ManifestChange::new_create_change(2, 1, 0, 0)).unwrap();
    assert_eq!((m.creations, m.deletions), (2, 0));
    m.apply_manifest_change(&ManifestChange::new_delete_change(1)).unwrap();
    assert_eq!((m.creations, m.deletions), (2, 1));
    // a refused change moves no counter
    assert!(m.apply_manifest_change(&ManifestChange::new_delete_change(9)).is_err());
    assert!(m.apply_manifest_change(&ManifestChange::new_create_change(2, 0, 0, 0)).is_err());
    assert_eq!((m.creations, m.deletions), (2, 1));
}
