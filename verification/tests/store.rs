//! End-to-end behaviour of the store: writes, reads, tombstones,
//! reopening from segments, rollover and compaction.

use kvs::KvError;
use kvs::KvStore;
use kvs::segment::Segment;
use kvs::storage::{KvStoreArchive, MAX_SEGMENT_BYTES};

fn fresh_store() -> KvStore {
    KvStore::open(Vec::new()).expect("open on no segments must succeed")
}

fn reopen(store: &KvStore) -> KvStore {
    let segments: Vec<Segment> = store.archive.segments().clone();
    KvStore::open(segments).expect("reopen on a well-formed archive must succeed")
}

fn total_bytes(store: &KvStore) -> usize {
    store.archive.segments().iter().map(|s| s.data.len()).sum()
}

#[test]
fn get_on_empty_store_is_absent() {
    let mut store = fresh_store();
    assert_eq!(store.get("missing".to_string()).unwrap(), None);
}

#[test]
fn remove_on_empty_store_is_key_not_found() {
    let mut store = fresh_store();
    assert_eq!(store.remove("missing".to_string()), Err(KvError::KeyNotFound));
}

#[test]
fn set_then_get_returns_value() {
    let mut store = fresh_store();
    store.set("key".to_string(), "value".to_string()).unwrap();
    assert_eq!(store.get("key".to_string()).unwrap(), Some("value".to_string()));
}

#[test]
fn last_writer_wins() {
    let mut store = fresh_store();
    store.set("k".to_string(), "a".to_string()).unwrap();
    store.set("k".to_string(), "b".to_string()).unwrap();
    assert_eq!(store.get("k".to_string()).unwrap(), Some("b".to_string()));
}

#[test]
fn tombstone_hides_key_and_second_remove_fails() {
    let mut store = fresh_store();
    store.set("k".to_string(), "a".to_string()).unwrap();
    store.remove("k".to_string()).unwrap();
    assert_eq!(store.get("k".to_string()).unwrap(), None);
    assert_eq!(store.remove("k".to_string()), Err(KvError::KeyNotFound));
}

#[test]
fn scenario_with_reopen() {
    let mut store = fresh_store();
    store.set("a".to_string(), "1".to_string()).unwrap();
    store.set("b".to_string(), "2".to_string()).unwrap();
    store.set("a".to_string(), "3".to_string()).unwrap();
    store.remove("b".to_string()).unwrap();
    assert_eq!(store.get("a".to_string()).unwrap(), Some("3".to_string()));
    assert_eq!(store.get("b".to_string()).unwrap(), None);

    let mut reopened = reopen(&store);
    assert_eq!(reopened.get("a".to_string()).unwrap(), Some("3".to_string()));
    assert_eq!(reopened.get("b".to_string()).unwrap(), None);
}

#[test]
fn reopen_round_trip_many_keys() {
    let mut store = fresh_store();
    for i in 0..50u32 {
        store.set(format!("key{}", i), format!("val{}", i)).unwrap();
    }
    for i in 0..25u32 {
        store.set(format!("key{}", i), format!("new{}", i)).unwrap();
    }
    for i in 40..50u32 {
        store.remove(format!("key{}", i)).unwrap();
    }
    let mut reopened = reopen(&store);
    for i in 0..25u32 {
        assert_eq!(
            reopened.get(format!("key{}", i)).unwrap(),
            Some(format!("new{}", i)),
        );
    }
    for i in 25..40u32 {
        assert_eq!(
            reopened.get(format!("key{}", i)).unwrap(),
            Some(format!("val{}", i)),
        );
    }
    for i in 40..50u32 {
        assert_eq!(reopened.get(format!("key{}", i)).unwrap(), None);
    }
}

#[test]
fn unicode_keys_and_values_survive_reopen() {
    let mut store = fresh_store();
    store.set("héllo".to_string(), "wörld ✓".to_string()).unwrap();
    store.set("🔑".to_string(), "émoji 🎈 value".to_string()).unwrap();
    assert_eq!(
        store.get("héllo".to_string()).unwrap(),
        Some("wörld ✓".to_string()),
    );
    let mut reopened = reopen(&store);
    assert_eq!(
        reopened.get("héllo".to_string()).unwrap(),
        Some("wörld ✓".to_string()),
    );
    assert_eq!(
        reopened.get("🔑".to_string()).unwrap(),
        Some("émoji 🎈 value".to_string()),
    );
}

#[test]
fn crash_tail_is_ignored_on_reopen() {
    let mut store = fresh_store();
    store.set("a".to_string(), "1".to_string()).unwrap();
    store.set("b".to_string(), "2".to_string()).unwrap();

    // A crash mid-append leaves a strict prefix of one record at the end
    // of the writable segment.
    let torn_record = kvs::codec::encode_command(&kvs::cmd::KvStoreCmd::Put(
        kvs::cmd::KvStoreSet { key: "a".to_string(), val: "torn".to_string() },
    ));
    let mut segments: Vec<Segment> = store.archive.segments().clone();
    let last = segments.len() - 1;
    for cut in [1usize, 8, torn_record.len() - 1] {
        let mut torn_segments = segments.clone();
        torn_segments[last].data.extend_from_slice(&torn_record[..cut]);
        let mut reopened =
            KvStore::open(torn_segments).expect("torn tail must not fail open");
        assert_eq!(reopened.get("a".to_string()).unwrap(), Some("1".to_string()));
        assert_eq!(reopened.get("b".to_string()).unwrap(), Some("2".to_string()));
        assert_eq!(reopened.get("torn".to_string()).unwrap(), None);
    }
    // Arbitrary garbage that decodes to nothing is likewise ignored.
    segments[last].data.push(0xFF);
    let mut reopened = KvStore::open(segments).expect("garbage tail must not fail open");
    assert_eq!(reopened.get("a".to_string()).unwrap(), Some("1".to_string()));
}

#[test]
fn open_rejects_unordered_segment_numbers() {
    let segments = vec![Segment::new(3), Segment::new(1)];
    match KvStore::open(segments) {
        Err(KvError::CorruptRecord) => {}
        other => panic!("expected CorruptRecord, got {:?}", other.is_ok()),
    }
}

#[test]
fn segment_rollover_preserves_old_locations() {
    let mut archive = KvStoreArchive::open(Vec::new()).unwrap();
    let mut locations: Vec<(u64, u64, String, String)> = Vec::new();
    // Each record is far below the threshold, so many fit per segment,
    // and enough of them cross it several times.
    for i in 0..120u32 {
        let key = format!("key-{:04}", i);
        let val = format!("value-{:04}", i);
        let cmd = kvs::cmd::KvStoreCmd::Put(kvs::cmd::KvStoreSet {
            key: key.clone(),
            val: val.clone(),
        });
        let (f, o) = archive.write_cmd(cmd).unwrap();
        locations.push((f, o, key, val));
    }
    let first_num = locations.first().unwrap().0;
    let last_num = locations.last().unwrap().0;
    assert!(last_num > first_num, "the log must have rolled over");
    // After each rollover the offsets restart at zero.
    let mut seen: Vec<u64> = Vec::new();
    for (f, o, _, _) in &locations {
        if !seen.contains(f) {
            assert_eq!(*o, 0, "first record of segment {} must sit at offset 0", f);
            seen.push(*f);
        }
    }
    // No segment grew past the threshold plus one record.
    for seg in archive.segments() {
        if seg.file_num != last_num {
            assert!(seg.data.len() as u64 <= MAX_SEGMENT_BYTES + 100);
        }
    }
    // Every location handed out still reads its original value.
    for (f, o, _, val) in &locations {
        assert_eq!(
            archive.read_value_from_filenum_at_offset(*f, *o).unwrap(),
            *val,
        );
    }
}

#[test]
fn compaction_preserves_semantics_and_reclaims_space() {
    let mut store = fresh_store();
    for i in 0..30u32 {
        store.set(format!("key{}", i), format!("old{}", i)).unwrap();
    }
    for i in 0..30u32 {
        store.set(format!("key{}", i), format!("new{}", i)).unwrap();
    }
    for i in 20..30u32 {
        store.remove(format!("key{}", i)).unwrap();
    }
    let before = total_bytes(&store);
    store.compact().unwrap();
    let after = total_bytes(&store);
    assert!(
        after < before,
        "superseded records existed, so compaction must shrink the log: {} -> {}",
        before,
        after,
    );
    for i in 0..20u32 {
        assert_eq!(
            store.get(format!("key{}", i)).unwrap(),
            Some(format!("new{}", i)),
        );
    }
    for i in 20..30u32 {
        assert_eq!(store.get(format!("key{}", i)).unwrap(), None);
    }
    // The compacted store still reopens faithfully.
    let mut reopened = reopen(&store);
    assert_eq!(reopened.get("key0".to_string()).unwrap(), Some("new0".to_string()));
    // And stays fully usable for further writes.
    store.set("key5".to_string(), "after".to_string()).unwrap();
    assert_eq!(store.get("key5".to_string()).unwrap(), Some("after".to_string()));
}

#[test]
fn compact_on_empty_store_is_harmless() {
    let mut store = fresh_store();
    store.compact().unwrap();
    assert_eq!(store.get("k".to_string()).unwrap(), None);
    store.set("k".to_string(), "v".to_string()).unwrap();
    assert_eq!(store.get("k".to_string()).unwrap(), Some("v".to_string()));
}

#[test]
fn read_from_unknown_segment_fails() {
    let archive = KvStoreArchive::open(Vec::new()).unwrap();
    assert_eq!(
        archive.read_value_from_filenum_at_offset(42, 0),
        Err(KvError::UnknownSegment),
    );
}

#[test]
fn read_of_tombstone_record_is_corrupt() {
    let mut archive = KvStoreArchive::open(Vec::new()).unwrap();
    let put = kvs::cmd::KvStoreCmd::Put(kvs::cmd::KvStoreSet {
        key: "k".to_string(),
        val: "v".to_string(),
    });
    let rm = kvs::cmd::KvStoreCmd::Rm(kvs::cmd::KvStoreRm { key: "k".to_string() });
    archive.write_cmd(put).unwrap();
    let (f, o) = archive.write_cmd(rm).unwrap();
    assert_eq!(
        archive.read_value_from_filenum_at_offset(f, o),
        Err(KvError::CorruptRecord),
    );
}

#[test]
fn read_at_undecodable_offset_is_corrupt() {
    let mut archive = KvStoreArchive::open(Vec::new()).unwrap();
    let put = kvs::cmd::KvStoreCmd::Put(kvs::cmd::KvStoreSet {
        key: "k".to_string(),
        val: "v".to_string(),
    });
    let (f, o) = archive.write_cmd(put).unwrap();
    assert_eq!(
        archive.read_value_from_filenum_at_offset(f, o + 1),
        Err(KvError::CorruptRecord),
    );
}

#[test]
fn generate_index_points_at_latest_puts() {
    let mut archive = KvStoreArchive::open(Vec::new()).unwrap();
    let put_a1 = kvs::cmd::KvStoreCmd::Put(kvs::cmd::KvStoreSet {
        key: "a".to_string(),
        val: "1".to_string(),
    });
    let put_a2 = kvs::cmd::KvStoreCmd::Put(kvs::cmd::KvStoreSet {
        key: "a".to_string(),
        val: "2".to_string(),
    });
    let put_b = kvs::cmd::KvStoreCmd::Put(kvs::cmd::KvStoreSet {
        key: "b".to_string(),
        val: "3".to_string(),
    });
    let rm_b = kvs::cmd::KvStoreCmd::Rm(kvs::cmd::KvStoreRm { key: "b".to_string() });
    archive.write_cmd(put_a1).unwrap();
    archive.write_cmd(put_b).unwrap();
    let (f2, o2) = archive.write_cmd(put_a2).unwrap();
    archive.write_cmd(rm_b).unwrap();
    let index = archive.generate_index().unwrap();
    assert_eq!(index.get(&"a".to_string()), Some((f2, o2)));
    assert_eq!(index.get(&"b".to_string()), None);
}
