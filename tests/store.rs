use kvdb::{PartedHash, ShardFile, Store, StoreError, MAX_SHARD, ROWS, WIDTH};
use siphasher::sip::SipHasher24;

fn ranges_partition(store: &Store) -> bool {
    let shards = &store.shards;
    if shards.is_empty() || shards[0].start != 0 || shards[shards.len() - 1].end != MAX_SHARD {
        return false;
    }
    shards.iter().all(|s| s.start < s.end) && shards.windows(2).all(|w| w[0].end == w[1].start)
}

#[test]
fn set_then_get_returns_value() {
    let mut db = Store::open();
    assert_eq!(db.set(b"alpha", b"one"), Ok(true));
    assert_eq!(db.set(b"beta", b""), Ok(true));
    assert_eq!(db.get(b"alpha"), Some(b"one".to_vec()));
    assert_eq!(db.get(b"beta"), Some(Vec::new()));
}

#[test]
fn removed_key_is_gone() {
    let mut db = Store::open();
    db.set(b"k", b"v").unwrap();
    assert!(db.remove(b"k"));
    assert_eq!(db.get(b"k"), None);
    assert!(!db.remove(b"k"));
}

#[test]
fn overwrite_keeps_count() {
    let mut db = Store::open();
    db.set(b"k", b"v1").unwrap();
    db.set(b"other", b"x").unwrap();
    let before = db.iter().len();
    db.set(b"k", b"v2").unwrap();
    assert_eq!(db.get(b"k"), Some(b"v2".to_vec()));
    assert_eq!(db.iter().len(), before);
    assert_eq!(before, 2);
}

#[test]
fn empty_store_has_one_shard() {
    let db = Store::open();
    assert_eq!(db.shards.len(), 1);
    assert!(ranges_partition(&db));
    assert_eq!(db.iter().len(), 0);
    assert_eq!(db.get(b"anything"), None);
}

#[test]
fn overlong_key_and_value_are_refused() {
    let mut db = Store::open();
    let long = vec![7u8; 65536];
    assert_eq!(db.set(&long, b"v"), Err(StoreError::KeyTooLong));
    assert_eq!(db.set(b"k", &long), Err(StoreError::ValueTooLong));
    assert_eq!(db.get(b"k"), None);
    let longest = vec![7u8; 65535];
    assert_eq!(db.set(&longest, &longest), Ok(true));
    assert_eq!(db.get(&longest), Some(longest.clone()));
}

#[test]
fn hello_world_scenario() {
    let mut db = Store::open();
    db.set(b"hello", b"world").unwrap();
    assert_eq!(db.get(b"hello"), Some(b"world".to_vec()));
    assert_eq!(db.get(b"nonexistent"), None);
    assert!(db.remove(b"hello"));
    assert_eq!(db.get(b"hello"), None);
    assert_eq!(db.iter().len(), 0);

    for i in 0..100_000u32 {
        db.set(&i.to_le_bytes(), &(i * 2).to_le_bytes()).unwrap();
    }

    assert_eq!(db.iter().len(), 100_000);
    assert!(ranges_partition(&db));
}

#[test]
fn bulk_load_splits_and_keeps_every_key() {
    let n = (WIDTH * ROWS + 7_000) as u32;
    let mut db = Store::open();
    for i in 0..n {
        assert_eq!(db.set(&i.to_be_bytes(), &(i ^ 0x5a5a).to_be_bytes()), Ok(true));
    }
    assert!(db.shards.len() > 1);
    assert!(ranges_partition(&db));
    for i in 0..n {
        assert_eq!(db.get(&i.to_be_bytes()), Some((i ^ 0x5a5a).to_be_bytes().to_vec()));
    }
    assert_eq!(db.iter().len(), n as usize);
}

#[test]
fn split_keeps_values_and_adds_a_shard() {
    let mut db = Store::open();
    let mut i = 0u32;
    while db.shards.len() == 1 {
        db.set(format!("key-{i}").as_bytes(), format!("value-{i}").as_bytes()).unwrap();
        i += 1;
    }
    assert_eq!(db.shards.len(), 2);
    assert_eq!(db.shards[0].end, MAX_SHARD / 2);
    assert_eq!(db.shards[1].start, MAX_SHARD / 2);
    assert!(ranges_partition(&db));
    for j in 0..i {
        assert_eq!(
            db.get(format!("key-{j}").as_bytes()),
            Some(format!("value-{j}").into_bytes())
        );
    }
    assert_eq!(db.iter().len(), i as usize);
}

#[test]
fn explicit_split_moves_pairs_by_shard_index() {
    let mut db = Store::open();
    for i in 0..300u32 {
        db.set(&i.to_le_bytes(), b"v").unwrap();
    }
    assert_eq!(db.split(0), Ok(()));
    assert_eq!(db.shards.len(), 2);
    for shard in &db.shards {
        for (k, _) in shard.iter() {
            let s = PartedHash::new(&k).shard();
            assert!(shard.start <= s && s < shard.end);
        }
    }
    assert_eq!(db.iter().len(), 300);
    for i in 0..300u32 {
        assert_eq!(db.get(&i.to_le_bytes()), Some(b"v".to_vec()));
    }
}

#[test]
fn full_row_refuses_new_key_in_shard() {
    let mut shard = ShardFile::open(0, MAX_SHARD);
    let mut keys = Vec::new();
    let mut i = 0u32;
    while keys.len() < WIDTH + 1 {
        let k = i.to_le_bytes().to_vec();
        if PartedHash::new(&k).row() == 5 {
            keys.push(k);
        }
        i += 1;
    }
    for k in &keys[..WIDTH] {
        assert_eq!(shard.set(PartedHash::new(k), k, b"x"), Ok(true));
    }
    let last = &keys[WIDTH];
    assert_eq!(shard.set(PartedHash::new(last), last, b"x"), Ok(false));
    assert_eq!(shard.get(PartedHash::new(last), last), None);
    // An existing key can still be overwritten in a full row.
    assert_eq!(shard.set(PartedHash::new(&keys[0]), &keys[0], b"y"), Ok(true));
    assert_eq!(shard.get(PartedHash::new(&keys[0]), &keys[0]), Some(b"y".to_vec()));
    // Removing one frees its slot for the new key.
    assert!(shard.remove(PartedHash::new(&keys[1]), &keys[1]));
    assert_eq!(shard.set(PartedHash::new(last), last, b"z"), Ok(true));
    assert_eq!(shard.iter().len(), WIDTH);
}

#[test]
fn shard_log_is_append_only() {
    let mut shard = ShardFile::open(0, MAX_SHARD);
    let ph = PartedHash::new(b"k");
    shard.set(ph, b"k", b"v1").unwrap();
    shard.set(ph, b"k", b"v2").unwrap();
    assert_eq!(shard.log, b"kv1kv2".to_vec());
    let d = shard.write(b"ab", b"cde");
    assert_eq!((d.offset, d.klen, d.vlen), (6, 2, 3));
    assert_eq!(shard.read(d), (b"ab".to_vec(), b"cde".to_vec()));
}

#[test]
fn parted_hash_fields() {
    let h = PartedHash(0x0123_4567_89ab_cdef);
    assert_eq!(h.sign(), 0x89ab_cdef);
    assert_eq!(h.row(), 0x0123_4567 % 64);
    assert_eq!(h.shard(), 0x0123);
    let z = PartedHash(0xffff_ffff_0000_0000);
    assert_eq!(z.sign(), 0x1234_5678);
    assert_eq!(z.row(), 63);
    assert_eq!(z.shard(), 0xffff);
}

#[test]
fn parted_hash_is_siphash24() {
    for key in [&b""[..], b"hello", b"world", &[0u8; 40]] {
        assert_eq!(PartedHash::new(key).0, SipHasher24::new().hash(key));
    }
    assert_ne!(PartedHash::new(b"hello"), PartedHash::new(b"hellp"));
}

#[test]
fn header_bytes_layout() {
    let mut shard = ShardFile::open(0, MAX_SHARD);
    let ph = PartedHash(0x0000_0001_0000_0abc);
    shard.set(ph, b"key", b"value").unwrap();
    let bytes = shard.header.to_bytes();
    assert_eq!(bytes.len(), kvdb::HEADER_SIZE);
    let row = 1;
    let base = row * WIDTH * 12;
    assert_eq!(&bytes[base..base + 4], &0x0abcu32.to_le_bytes());
    let d = base + WIDTH * 4;
    assert_eq!(&bytes[d..d + 8], &[0, 0, 0, 0, 3, 0, 5, 0]);
    assert!(bytes[..base].iter().all(|&b| b == 0));
}

#[test]
fn remove_of_missing_key_changes_nothing() {
    let mut db = Store::open();
    for i in 0..50u32 {
        db.set(&i.to_le_bytes(), b"v").unwrap();
    }
    let before = db.iter();
    assert!(!db.remove(b"absent"));
    assert_eq!(db.iter(), before);
    assert_eq!(db.shards.len(), 1);
}

#[test]
fn new_key_adds_one_pair_and_overwrite_none() {
    let mut db = Store::open();
    for i in 0..1000u32 {
        let before = db.iter().len();
        db.set(&i.to_le_bytes(), b"a").unwrap();
        assert_eq!(db.iter().len(), before + 1);
    }
    db.set(&7u32.to_le_bytes(), b"b").unwrap();
    assert_eq!(db.iter().len(), 1000);
}

#[test]
fn split_keeps_other_shards_and_halves_widths() {
    let mut db = Store::open();
    for i in 0..2000u32 {
        db.set(&i.to_le_bytes(), &i.to_be_bytes()).unwrap();
    }
    db.split(0).unwrap();
    let right = (db.shards[1].start, db.shards[1].end, db.shards[1].log.clone());
    db.split(0).unwrap();
    assert_eq!(db.shards.len(), 3);
    assert_eq!((db.shards[2].start, db.shards[2].end, db.shards[2].log.clone()), right);
    for s in &db.shards {
        assert!((s.end - s.start).is_power_of_two());
    }
    assert_eq!(db.shards[0].end, MAX_SHARD / 4);
    assert!(ranges_partition(&db));
    for i in 0..2000u32 {
        assert_eq!(db.get(&i.to_le_bytes()), Some(i.to_be_bytes().to_vec()));
    }
}

#[test]
fn iter_yields_distinct_keys_matching_get() {
    let mut db = Store::open();
    for i in 0..40_000u32 {
        db.set(&(i % 30_000).to_le_bytes(), &i.to_le_bytes()).unwrap();
    }
    let pairs = db.iter();
    assert_eq!(pairs.len(), 30_000);
    let mut keys: Vec<Vec<u8>> = pairs.iter().map(|(k, _)| k.clone()).collect();
    keys.sort();
    keys.dedup();
    assert_eq!(keys.len(), 30_000);
    for (k, v) in &pairs {
        assert_eq!(db.get(k).as_ref(), Some(v));
    }
}

#[test]
fn earlier_descriptor_reads_back_after_later_writes() {
    let mut shard = ShardFile::open(0, MAX_SHARD);
    let d = shard.write(b"first", b"value");
    let ph = PartedHash::new(b"k");
    shard.set(ph, b"k", b"v1").unwrap();
    shard.set(ph, b"k", b"v2").unwrap();
    assert!(shard.remove(ph, b"k"));
    assert_eq!(shard.read(d), (b"first".to_vec(), b"value".to_vec()));
}

#[test]
fn row_bytes_are_the_header_slice() {
    let mut shard = ShardFile::open(0, MAX_SHARD);
    for i in 0..200u32 {
        let k = i.to_le_bytes();
        shard.set(PartedHash::new(&k), &k, b"v").unwrap();
    }
    let header = shard.header.to_bytes();
    for r in 0..ROWS {
        let row = shard.header.rows[r].to_bytes();
        assert_eq!(row.len(), kvdb::ROW_SIZE);
        assert_eq!(&header[r * kvdb::ROW_SIZE..(r + 1) * kvdb::ROW_SIZE], &row[..]);
    }
}
