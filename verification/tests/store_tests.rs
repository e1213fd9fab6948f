use std::collections::BTreeMap;

use kvs::DiskOp;
use kvs::KvStore;
use kvs::SegmentFile;
use kvs::KvsError;

fn b(s: &str) -> Vec<u8> {
    s.as_bytes().to_vec()
}

/// Mirror a drained journal onto an in-memory copy of the store directory,
/// the way a caller mirrors it onto files.
fn apply_journal(disk: &mut BTreeMap<u64, Vec<u8>>, ops: Vec<DiskOp>) {
    for op in ops {
        match op {
            DiskOp::Create { segment } => {
                disk.insert(segment, Vec::new());
            }
            DiskOp::Append { segment, mut bytes } => {
                disk.entry(segment).or_insert_with(Vec::new).append(&mut bytes);
            }
            DiskOp::Delete { segment } => {
                disk.remove(&segment);
            }
        }
    }
}

fn disk_files(disk: &BTreeMap<u64, Vec<u8>>) -> Vec<SegmentFile> {
    disk.iter().map(|(id, data)| SegmentFile { id: *id, data: data.clone() }).collect()
}

#[test]
fn basic_round_trip() {
    let mut store = KvStore::open(Vec::new()).unwrap();
    store.set(b("k1"), b("v1")).unwrap();
    assert_eq!(store.get(&b("k1")).unwrap(), Some(b("v1")));
    store.remove(b("k1")).unwrap();
    assert_eq!(store.get(&b("k1")).unwrap(), None);
}

#[test]
fn overwrite_leaves_garbage() {
    let mut store = KvStore::open(Vec::new()).unwrap();
    store.set(b("k"), b("a")).unwrap();
    store.set(b("k"), b("b")).unwrap();
    assert_eq!(store.get(&b("k")).unwrap(), Some(b("b")));
    let active = store.active_segment();
    let counts = store.segment_counts(active).unwrap();
    assert!(counts.len_garbage >= 1);
    assert_eq!(counts.len, 2);
}

#[test]
fn persistence_across_reopen() {
    let mut disk: BTreeMap<u64, Vec<u8>> = BTreeMap::new();
    let mut store = KvStore::open(Vec::new()).unwrap();
    store.set(b("k"), b("v")).unwrap();
    apply_journal(&mut disk, store.take_journal());
    drop(store);
    let store2 = KvStore::open(disk_files(&disk)).unwrap();
    assert_eq!(store2.get(&b("k")).unwrap(), Some(b("v")));
}

#[test]
fn rotation_at_capacity() {
    // a cap of four records: the fifth set lands in a fresh segment
    let mut store = KvStore::open_with_config(Vec::new(), 4, 618).unwrap();
    store.set(b("k1"), b("v")).unwrap();
    store.set(b("k2"), b("v")).unwrap();
    store.set(b("k3"), b("v")).unwrap();
    store.set(b("k4"), b("v")).unwrap();
    store.set(b("k5"), b("v")).unwrap();
    let ids = store.segment_ids();
    assert_eq!(ids, vec![1, 2]);
    assert_eq!(store.segment_counts(1).unwrap().len, 4);
    assert_eq!(store.segment_counts(2).unwrap().len, 1);
    for k in ["k1", "k2", "k3", "k4", "k5"] {
        assert_eq!(store.get(&b(k)).unwrap(), Some(b("v")));
    }
}

#[test]
fn compaction_reclaims_overwrites() {
    // overwrite one key eleven times with a low threshold: compaction
    // fires, and afterwards the store is smaller than the raw log
    let mut disk: BTreeMap<u64, Vec<u8>> = BTreeMap::new();
    let mut store = KvStore::open_with_config(Vec::new(), 10, 500).unwrap();
    let mut total_appended: usize = 0;
    for i in 1..=11 {
        let v = format!("v{}", i);
        store.set(b("k"), b(&v)).unwrap();
        total_appended += v.len();
    }
    apply_journal(&mut disk, store.take_journal());
    assert_eq!(store.get(&b("k")).unwrap(), Some(b("v11")));
    // the drained segments are gone from the mirrored directory
    let remaining: usize = disk.values().map(|d| d.len()).sum();
    let ids = store.segment_ids();
    assert!(ids.len() < 11);
    assert!(remaining < 11 * (41 + 1 + total_appended / 11) + total_appended);
    // reopening the mirrored files still yields the last value
    let store2 = KvStore::open_with_config(disk_files(&disk), 10, 500).unwrap();
    assert_eq!(store2.get(&b("k")).unwrap(), Some(b("v11")));
    // exactly one record for the key is recoverable
    let mut live = 0;
    for id in store2.segment_ids() {
        let c = store2.segment_counts(id).unwrap();
        live += c.len - c.len_garbage;
    }
    assert_eq!(live, 1);
}

#[test]
fn remove_unknown_key() {
    let mut store = KvStore::open(Vec::new()).unwrap();
    assert_eq!(store.remove(b("absent")), Err(KvsError::KeyNotFound));
    store.set(b("absent"), b("x")).unwrap();
    assert_eq!(store.get(&b("absent")).unwrap(), Some(b("x")));
}

#[test]
fn remove_unknown_changes_nothing_on_disk() {
    let mut disk: BTreeMap<u64, Vec<u8>> = BTreeMap::new();
    let mut store = KvStore::open(Vec::new()).unwrap();
    store.set(b("a"), b("1")).unwrap();
    apply_journal(&mut disk, store.take_journal());
    let before = disk.clone();
    assert_eq!(store.remove(b("zzz")), Err(KvsError::KeyNotFound));
    apply_journal(&mut disk, store.take_journal());
    assert_eq!(before, disk);
}

#[test]
fn reopen_after_many_operations() {
    let mut disk: BTreeMap<u64, Vec<u8>> = BTreeMap::new();
    let mut store = KvStore::open_with_config(Vec::new(), 4, 618).unwrap();
    for i in 0..20 {
        store.set(b(&format!("key{}", i)), b(&format!("val{}", i))).unwrap();
    }
    store.set(b("key5"), b("changed")).unwrap();
    store.remove(b("key3")).unwrap();
    apply_journal(&mut disk, store.take_journal());
    let store2 = KvStore::open_with_config(disk_files(&disk), 4, 618).unwrap();
    assert_eq!(store2.get(&b("key3")).unwrap(), None);
    assert_eq!(store2.get(&b("key5")).unwrap(), Some(b("changed")));
    for i in 0..20 {
        if i == 3 || i == 5 {
            continue;
        }
        assert_eq!(
            store2.get(&b(&format!("key{}", i))).unwrap(),
            Some(b(&format!("val{}", i)))
        );
    }
}

#[test]
fn effective_len_matches_index_size() {
    let mut store = KvStore::open_with_config(Vec::new(), 4, 618).unwrap();
    for i in 0..10 {
        store.set(b(&format!("k{}", i)), b("v")).unwrap();
    }
    store.remove(b("k0")).unwrap();
    store.set(b("k1"), b("w")).unwrap();
    let mut effective = 0;
    for id in store.segment_ids() {
        let c = store.segment_counts(id).unwrap();
        effective += c.len - c.len_garbage;
    }
    assert_eq!(effective, store.key_count());
}

#[test]
fn segments_never_exceed_cap() {
    let mut store = KvStore::open_with_config(Vec::new(), 3, 618).unwrap();
    for i in 0..25 {
        store.set(b(&format!("k{}", i % 5)), b(&format!("v{}", i))).unwrap();
    }
    for id in store.segment_ids() {
        assert!(store.segment_counts(id).unwrap().len <= 3);
    }
}

#[test]
fn open_rejects_duplicate_ids() {
    let files = vec![
        SegmentFile { id: 1, data: Vec::new() },
        SegmentFile { id: 1, data: Vec::new() },
    ];
    assert!(matches!(KvStore::open(files), Err(KvsError::SegmentOrder)));
}

#[test]
fn open_rejects_id_zero() {
    let files = vec![SegmentFile { id: 0, data: Vec::new() }];
    assert!(matches!(KvStore::open(files), Err(KvsError::SegmentOrder)));
}

#[test]
fn open_rejects_corrupt_segment() {
    let files = vec![SegmentFile { id: 1, data: b"garbage".to_vec() }];
    assert!(matches!(KvStore::open(files), Err(KvsError::Codec)));
}

#[test]
fn open_accepts_unsorted_input() {
    let mut disk: BTreeMap<u64, Vec<u8>> = BTreeMap::new();
    let mut store = KvStore::open_with_config(Vec::new(), 2, 618).unwrap();
    for i in 0..6 {
        store.set(b(&format!("k{}", i)), b("v")).unwrap();
    }
    apply_journal(&mut disk, store.take_journal());
    let mut files = disk_files(&disk);
    files.reverse();
    let store2 = KvStore::open_with_config(files, 2, 618).unwrap();
    for i in 0..6 {
        assert_eq!(store2.get(&b(&format!("k{}", i))).unwrap(), Some(b("v")));
    }
}

#[test]
fn error_messages_are_nonempty() {
    assert_eq!(KvsError::KeyNotFound.message(), "Key not found");
    assert!(!KvsError::Codec.message().is_empty());
    assert!(!KvsError::SegmentOrder.message().is_empty());
}

#[test]
fn tombstones_alone_trigger_compaction_of_active() {
    // cap 4, threshold 400 permille: after four bindings and a rotation,
    // removing an old key leaves the fresh segment with one live binding
    // and one tombstone; its own rate, 500 permille, crosses the
    // threshold, so the store compacts it even though the garbage was
    // charged elsewhere
    let mut store = KvStore::open_with_config(Vec::new(), 4, 400).unwrap();
    for k in ["k1", "k2", "k3", "k4"] {
        store.set(b(k), b("v")).unwrap();
    }
    store.set(b("k5"), b("v")).unwrap();
    store.remove(b("k1")).unwrap();
    let ids = store.segment_ids();
    assert!(!ids.contains(&2));
    assert_eq!(store.get(&b("k1")).unwrap(), None);
    assert_eq!(store.get(&b("k5")).unwrap(), Some(b("v")));
    for k in ["k2", "k3", "k4"] {
        assert_eq!(store.get(&b(k)).unwrap(), Some(b("v")));
    }
}
