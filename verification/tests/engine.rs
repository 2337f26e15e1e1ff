use badger_lsm::checksum::encode_checksum_record;
use badger_lsm::codec::{bytes_le, get_u16_be, get_u32_be, get_u64_be, get_varint, put_u16_be, put_u32_be, put_u64_be, put_varint, varint_size};
use badger_lsm::kv::{key_with_ts, parse_key, parse_ts, compare_key_le, ValueMeta, ValuePointer};
use badger_lsm::skl::arena::{add, Arena};
use badger_lsm::skl::skip_list::SkipList;
use badger_lsm::table::block::Block;
use badger_lsm::table::opt::{AesCipher, ChecksumVerificationMode, CompressionType, TableOption};
use badger_lsm::table::read::SinkBlockIter;
use badger_lsm::table::write::{BackendBlock, EntryHeader, TableBuilder};

fn vm(value: &[u8]) -> ValueMeta {
    ValueMeta::new(value.to_vec(), 0, 0, 0)
}

#[test]
fn it_works() {
    let result = add(2, 2);
    assert_eq!(result, 4);
}

#[test]
fn test_round() {
    let p = &b"hello world"[..];
    let k = &b"rust nb"[..];
    let mut arena = Arena::new(100);
    let slice = arena.alloc_slice_copy(p).unwrap();
    let slice_a = arena.alloc_slice_copy(k).unwrap();
    let node = arena.allocate(16).unwrap();
    println!("{}", String::from_utf8_lossy(arena.get(slice)));
    println!("{}", String::from_utf8_lossy(arena.get(slice_a)));
    println!("{:?}", node);
    assert_eq!(arena.get(slice), p);
    assert_eq!(arena.get(slice_a), k);
}

#[test]
fn levels_test_a() {
    't: for i in 0..4 {
        for j in 0..3 {
            if j == 2 {
                continue 't;
            }
            println!("{}-{}", i, j);
        }
    }
}

#[test]
fn test_size() {
    let key = [0u8; 16];
    let aes = Some(AesCipher::new(key.as_ref(), true).unwrap());
    let start = std::time::SystemTime::now();
    for _i in 0..10000 {
        let aes2 = aes.clone();
        drop(aes2);
    }
    let p = std::time::SystemTime::now().duration_since(start).unwrap();
    println!("{:?}", p);
}

#[test]
fn opt_test_a() {
    let key = [0u8; 16];
    let aes = std::sync::Arc::new(Some(AesCipher::new(key.as_ref(), true).unwrap()));
    let start = std::time::SystemTime::now();
    for _i in 0..1_000_000 {
        let aes2 = aes.clone();
        drop(aes2);
    }
    let p = std::time::SystemTime::now().duration_since(start).unwrap();
    println!("{:?}", p);
}

#[test]
fn opt_test_b() {
    let key = [0u8; 16];
    let aes = Some(std::sync::Arc::new(AesCipher::new(key.as_ref(), true).unwrap()));
    let start = std::time::SystemTime::now();
    for _i in 0..1_000_000 {
        let aes2 = aes.clone();
        drop(aes2);
    }
    let p = std::time::SystemTime::now().duration_since(start).unwrap();
    println!("{:?}", p);
}

#[test]
fn codec_round_trips() {
    let mut buf = Vec::new();
    put_u16_be(&mut buf, 0xBEEF);
    put_u32_be(&mut buf, 0xDEADBEEF);
    put_u64_be(&mut buf, 0x0123456789ABCDEF);
    assert_eq!(get_u16_be(&buf, 0), 0xBEEF);
    assert_eq!(get_u32_be(&buf, 2), 0xDEADBEEF);
    assert_eq!(get_u64_be(&buf, 6), 0x0123456789ABCDEF);
    assert_eq!(buf[0], 0xBE);
    assert_eq!(buf[1], 0xEF);

    let mut vb = Vec::new();
    put_varint(&mut vb, 300);
    assert_eq!(vb, vec![0xAC, 0x02]);
    assert_eq!(varint_size(300), 2);
    let (x, n) = get_varint(&vb, 0).unwrap();
    assert_eq!(x, 300);
    assert_eq!(n, 2);
    assert_eq!(get_varint(&[0x80u8][..].to_vec().as_slice(), 0), None);
}

#[test]
fn key_codec_and_order() {
    let k = key_with_ts(b"alpha", 7);
    assert_eq!(parse_key(&k), b"alpha");
    assert_eq!(parse_ts(&k), 7);
    // ascending user key
    let a1 = key_with_ts(b"a", 5);
    let b1 = key_with_ts(b"b", 5);
    assert!(compare_key_le(&a1, &b1));
    assert!(!compare_key_le(&b1, &a1));
    // within one user key, the newer version sorts first
    let a_new = key_with_ts(b"a", 9);
    let a_old = key_with_ts(b"a", 2);
    assert!(compare_key_le(&a_new, &a_old));
    assert!(!compare_key_le(&a_old, &a_new));
}

#[test]
fn memtable_ordering_invariant() {
    // inserts in any order come back ascending by user key and
    // descending by timestamp within one key
    let mut sl = SkipList::new(1 << 20);
    sl.insert(&key_with_ts(b"kb", 3), vm(b"3"));
    sl.insert(&key_with_ts(b"ka", 1), vm(b"1"));
    sl.insert(&key_with_ts(b"ka", 9), vm(b"9"));
    sl.insert(&key_with_ts(b"kc", 5), vm(b"5"));
    sl.insert(&key_with_ts(b"ka", 4), vm(b"4"));
    let entries = sl.all_entries();
    let keys: Vec<(Vec<u8>, u64)> = entries
        .iter()
        .map(|p| (parse_key(&p.0).to_vec(), parse_ts(&p.0)))
        .collect();
    assert_eq!(
        keys,
        vec![
            (b"ka".to_vec(), 9),
            (b"ka".to_vec(), 4),
            (b"ka".to_vec(), 1),
            (b"kb".to_vec(), 3),
            (b"kc".to_vec(), 5),
        ]
    );
    // an equal stored key replaces the value
    sl.insert(&key_with_ts(b"kb", 3), vm(b"three"));
    assert_eq!(sl.num_entries(), 5);
}

#[test]
fn block_round_trip() {
    let mut block = BackendBlock::new(4096);
    let mut keys = Vec::new();
    for i in 0..50u64 {
        let user = format!("key-{:04}", i);
        let k = key_with_ts(user.as_bytes(), 10 + i);
        block.push_entry(&k, &vm(format!("value-{}", i).as_bytes()));
        keys.push((k, format!("value-{}", i)));
    }
    block.finish_block();
    let decoded = Block::decode(&block.data, true).unwrap();
    let mut it = SinkBlockIter::from_block(decoded);
    let mut seen = 0usize;
    while it.next() {
        let key = it.key().unwrap().clone();
        let val = it.value().unwrap();
        assert_eq!(key, keys[seen].0);
        assert_eq!(val.value, keys[seen].1.as_bytes());
        seen += 1;
        if seen == keys.len() {
            break;
        }
    }
    assert_eq!(seen, keys.len());
}

#[test]
fn block_backward_iteration() {
    let mut block = BackendBlock::new(4096);
    for i in 0..10u64 {
        let user = format!("k{:02}", i);
        block.push_entry(&key_with_ts(user.as_bytes(), 1), &vm(b"v"));
    }
    block.finish_block();
    let decoded = Block::decode(&block.data, true).unwrap();
    let mut it = SinkBlockIter::from_block(decoded);
    let mut backwards = Vec::new();
    while it.next_back() {
        backwards.push(parse_key(it.key_back().unwrap()).to_vec());
        if backwards.len() == 10 {
            break;
        }
    }
    assert_eq!(backwards.first().unwrap(), &b"k09".to_vec());
    assert_eq!(backwards.last().unwrap(), &b"k00".to_vec());
}

#[test]
fn block_checksum_detects_corruption() {
    let mut block = BackendBlock::new(4096);
    block.push_entry(&key_with_ts(b"only", 1), &vm(b"value"));
    block.finish_block();
    let mut bytes = block.data.clone();
    assert!(Block::decode(&bytes, true).is_ok());
    bytes[5] ^= 0xFF;
    assert!(Block::decode(&bytes, true).is_err());
}

#[test]
fn entry_header_round_trip() {
    let h = EntryHeader::new(3, 17);
    let enc = h.serialize();
    assert_eq!(enc.len(), 4);
    let back = EntryHeader::deserialize(&enc);
    assert_eq!(back.get_overlap(), 3);
    assert_eq!(back.get_diff(), 17);
}

#[test]
fn checksum_record_shape() {
    let rec = encode_checksum_record(0x1122334455667788);
    assert_eq!(rec.len(), 9);
    assert_eq!(rec[0], 0);
    assert_eq!(rec[1], 0x11);
    assert_eq!(rec[8], 0x88);
}

#[test]
fn table_builder_and_iteration() {
    let opt = TableOption::new(
        1 << 20,
        512,
        CompressionType::NoCompression,
        ChecksumVerificationMode::OnTableRead,
        None,
    );
    let mut b = TableBuilder::new(opt);
    assert!(b.is_empty());
    let mut expect = Vec::new();
    for i in 0..200u64 {
        let user = format!("user-{:05}", i);
        let k = key_with_ts(user.as_bytes(), i + 1);
        b.push(&k, &vm(format!("payload-{}", i).as_bytes()), None).unwrap();
        expect.push((k, format!("payload-{}", i)));
    }
    assert!(!b.is_empty());
    let table = b.done(42, 1000).unwrap();
    assert_eq!(table.id, 42);
    assert!(table.block_offsets_len() > 1);
    let all = table.all_entries();
    assert_eq!(all.len(), expect.len());
    for (i, (k, v)) in all.iter().enumerate() {
        assert_eq!(k, &expect[i].0);
        assert_eq!(v.value, expect[i].1.as_bytes());
    }
    // the double-ended table cursor walks the same entries
    let mut it = table.iter(false);
    assert!(it.next().unwrap());
    assert_eq!(it.key().unwrap(), &expect[0].0);
    assert!(it.next_back().unwrap());
    assert_eq!(it.key_back().unwrap(), &expect[expect.len() - 1].0);
    assert!(it.double_ended_eq());
}

#[test]
fn value_pointer_codec() {
    let p = ValuePointer::new(3, 100, 77);
    let enc = p.encode();
    assert_eq!(enc.len(), 12);
    let back = ValuePointer::decode(&enc).unwrap();
    assert_eq!(back, p);
    assert!(ValuePointer::decode(&enc[..11]).is_none());
    assert!(!p.is_empty());
    assert!(ValuePointer::default().is_empty());
}

#[test]
fn skiplist_get_visible_newest_at_or_below_read_ts() {
    let mut sl = SkipList::new(1 << 10);
    sl.insert(&key_with_ts(b"apple", 5), vm(b"v5"));
    sl.insert(&key_with_ts(b"apple", 9), vm(b"v9"));
    sl.insert(&key_with_ts(b"banana", 3), vm(b"w3"));
    // a read between the versions sees the older one
    assert_eq!(sl.get_visible(b"apple", 7).unwrap().value, b"v5");
    // a read at or past the newest sees the newest
    assert_eq!(sl.get_visible(b"apple", 9).unwrap().value, b"v9");
    assert_eq!(sl.get_visible(b"apple", 100).unwrap().value, b"v9");
    // a read before every version sees nothing
    assert!(sl.get_visible(b"apple", 4).is_none());
    // an absent user key sees nothing at any stamp
    assert!(sl.get_visible(b"cherry", 100).is_none());
    assert_eq!(sl.get_visible(b"banana", 3).unwrap().value, b"w3");
}

#[test]
fn table_get_visible_newest_at_or_below_read_ts() {
    let opt = TableOption::new(
        1 << 20,
        512,
        CompressionType::NoCompression,
        ChecksumVerificationMode::OnTableRead,
        None,
    );
    let mut b = TableBuilder::new(opt);
    // versions of one user key sort newest first
    b.push(&key_with_ts(b"k-a", 9), &vm(b"a9"), None).unwrap();
    b.push(&key_with_ts(b"k-a", 5), &vm(b"a5"), None).unwrap();
    b.push(&key_with_ts(b"k-b", 2), &vm(b"b2"), None).unwrap();
    let table = b.done(7, 1000).unwrap();
    assert_eq!(table.get_visible(b"k-a", 6).unwrap().value, b"a5");
    assert_eq!(table.get_visible(b"k-a", 9).unwrap().value, b"a9");
    assert!(table.get_visible(b"k-a", 4).is_none());
    assert_eq!(table.get_visible(b"k-b", 2).unwrap().value, b"b2");
    assert!(table.get_visible(b"k-c", 100).is_none());
}

#[test]
fn bloom_never_misses_an_inserted_key() {
    let opt = TableOption::new(
        1 << 20,
        512,
        CompressionType::NoCompression,
        ChecksumVerificationMode::OnTableRead,
        None,
    );
    let mut b = TableBuilder::new(opt);
    let mut keys = Vec::new();
    for i in 0..50u64 {
        let k = key_with_ts(format!("bloom-{:03}", i).as_bytes(), 1);
        b.push(&k, &vm(b"x"), None).unwrap();
        keys.push(k);
    }
    let filter = b.build_key_filter(10);
    for k in &keys {
        assert!(filter.may_contain(badger_lsm::kv::key_hash(parse_key(k))));
    }
    // an empty filter has no bit set: every probe misses
    let none = badger_lsm::table::bloom::build_bloom(&Vec::new(), 10);
    assert!(!none.may_contain(12345));
    assert!(!none.may_contain(0));
}

#[test]
fn table_footer_round_trip_and_refusal() {
    let f = badger_lsm::table::footer::TableFooter {
        block_offsets: vec![(0, 120), (120, 96), (216, 40)],
        bloom_bits: vec![0xaa, 0x55, 0x01],
        bloom_probes: 7,
        smallest: key_with_ts(b"aardvark", u64::MAX),
        biggest: key_with_ts(b"zebra", 0),
        max_version: 99,
    };
    let bytes = badger_lsm::table::footer::decode_footer(&f.encode()).unwrap();
    assert_eq!(bytes.block_offsets, vec![(0, 120), (120, 96), (216, 40)]);
    assert_eq!(bytes.bloom_bits, vec![0xaa, 0x55, 0x01]);
    assert_eq!(bytes.bloom_probes, 7);
    assert_eq!(bytes.smallest, key_with_ts(b"aardvark", u64::MAX));
    assert_eq!(bytes.biggest, key_with_ts(b"zebra", 0));
    assert_eq!(bytes.max_version, 99);
    // a truncated trailer is refused
    let enc = f.encode();
    assert!(badger_lsm::table::footer::decode_footer(&enc[..enc.len() - 1]).is_none());
    assert!(badger_lsm::table::footer::decode_footer(&enc[1..]).is_none());
    assert!(badger_lsm::table::footer::decode_footer(&[]).is_none());
}
